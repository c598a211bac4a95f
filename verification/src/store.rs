use vstd::prelude::*;
use vstd::string::StringExecFns;
use vstd::string::StrSliceExecFns;
use crate::hash::hex_text;
use crate::hash::lemma_hex_text_injective;
use crate::hash::ContentHash;

verus! {

/// The path of the entry `name` in the directory `dir`: the name follows the
/// directory, after a `/` unless the directory is empty or already ends in
/// one.
pub open spec fn joined(dir: Seq<char>, name: Seq<char>) -> Seq<char> {
    if dir.len() == 0 || dir.last() == '/' {
        dir + name
    } else {
        dir + seq!['/'] + name
    }
}

/// The path of the store entry that holds the content with fingerprint
/// `hash`: the hexadecimal text of the hash, in the store's root directory.
pub open spec fn entry_path(store_root: Seq<char>, hash: Seq<u8>) -> Seq<char> {
    joined(store_root, hex_text(hash))
}

/// In one store, two fingerprints that share an entry are the same
/// fingerprint: no entry stands for two contents.
pub proof fn lemma_entry_path_injective(store_root: Seq<char>, a: Seq<u8>, b: Seq<u8>)
    requires
        entry_path(store_root, a) == entry_path(store_root, b),
    ensures
        a == b,
{
    let prefix = if store_root.len() == 0 || store_root.last() == '/' {
        store_root
    } else {
        store_root + seq!['/']
    };
    let with_a = prefix + hex_text(a);
    let with_b = prefix + hex_text(b);
    assert(with_a == entry_path(store_root, a));
    assert(with_b == entry_path(store_root, b));
    assert(hex_text(a).len() == hex_text(b).len()) by {
        assert(with_a.len() == prefix.len() + hex_text(a).len());
        assert(with_b.len() == prefix.len() + hex_text(b).len());
    }
    assert forall|i: int| 0 <= i < hex_text(a).len() implies hex_text(a)[i] == hex_text(b)[i] by {
        assert(with_a[prefix.len() + i] == hex_text(a)[i]);
        assert(with_b[prefix.len() + i] == hex_text(b)[i]);
    }
    assert(hex_text(a) =~= hex_text(b));
    lemma_hex_text_injective(a, b);
}

/// Computes the path of the store entry for `hash` under `store_root`.
pub fn path_for(store_root: &str, hash: &ContentHash) -> (path: String)
    ensures
        path@ == entry_path(store_root@, hash@),
{
    let len: usize = store_root.unicode_len();
    let mut path = String::from_str(store_root);
    if len > 0 && store_root.get_char(len - 1) != '/' {
        proof {
            reveal_strlit("/");
        }
        path.append("/");
        assert(path@ =~= store_root@ + seq!['/']);
    }
    let name = hash.to_hex();
    path.append(name.as_str());
    path
}

} // verus!
