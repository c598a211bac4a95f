use vstd::prelude::*;

verus! {

/// The lowercase hexadecimal digit for a value below sixteen.
pub open spec fn hex_digit(n: int) -> char {
    if n == 0 {
        '0'
    } else if n == 1 {
        '1'
    } else if n == 2 {
        '2'
    } else if n == 3 {
        '3'
    } else if n == 4 {
        '4'
    } else if n == 5 {
        '5'
    } else if n == 6 {
        '6'
    } else if n == 7 {
        '7'
    } else if n == 8 {
        '8'
    } else if n == 9 {
        '9'
    } else if n == 10 {
        'a'
    } else if n == 11 {
        'b'
    } else if n == 12 {
        'c'
    } else if n == 13 {
        'd'
    } else if n == 14 {
        'e'
    } else {
        'f'
    }
}

/// The half of `byte` that the hexadecimal digit at position `i` of a text
/// shows: the high half at even positions, the low half at odd ones.
pub open spec fn nibble_at(byte: u8, i: int) -> int {
    if i % 2 == 0 {
        byte as int / 16
    } else {
        byte as int % 16
    }
}

/// The hexadecimal text of a byte sequence: two lowercase digits per byte,
/// high half first.
pub open spec fn hex_text(bytes: Seq<u8>) -> Seq<char> {
    Seq::new(2 * bytes.len(), |i: int| hex_digit(nibble_at(bytes[i / 2], i)))
}

/// Two different values below sixteen have different hexadecimal digits.
pub proof fn lemma_hex_digit_injective(m: int, n: int)
    requires
        0 <= m < 16,
        0 <= n < 16,
        hex_digit(m) == hex_digit(n),
    ensures
        m == n,
{
}

/// A hexadecimal text names one byte sequence only: sequences with the same
/// text are the same sequence.
pub proof fn lemma_hex_text_injective(a: Seq<u8>, b: Seq<u8>)
    requires
        hex_text(a) == hex_text(b),
    ensures
        a == b,
{
    assert(hex_text(a).len() == 2 * a.len());
    assert(hex_text(b).len() == 2 * b.len());
    assert forall|k: int| 0 <= k < a.len() implies a[k] == b[k] by {
        let high = hex_text(a)[2 * k];
        let low = hex_text(a)[2 * k + 1];
        assert(high == hex_digit(nibble_at(a[(2 * k) / 2], 2 * k)));
        assert(high == hex_text(b)[2 * k]);
        assert(low == hex_digit(nibble_at(a[(2 * k + 1) / 2], 2 * k + 1)));
        assert(low == hex_text(b)[2 * k + 1]);
        lemma_hex_digit_injective(a[k] as int / 16, b[k] as int / 16);
        lemma_hex_digit_injective(a[k] as int % 16, b[k] as int % 16);
    }
    assert(a =~= b);
}

/// The fingerprint of a file's content: the 64 bytes of its digest.
///
/// Two files with the same fingerprint are treated as having the same
/// content. The view is the byte sequence.
#[derive(Clone, Copy, Debug)]
pub struct ContentHash {
    pub bytes: [u8; 64],
}

impl View for ContentHash {
    type V = Seq<u8>;

    open spec fn view(&self) -> Seq<u8> {
        self.bytes@
    }
}

impl PartialEq for ContentHash {
    fn eq(&self, other: &ContentHash) -> (same: bool) {
        let mut i: usize = 0;
        while i < 64
            invariant
                i <= 64,
                forall|j: int| 0 <= j < i ==> self.bytes[j] == other.bytes[j],
            decreases 64 - i,
        {
            if self.bytes[i] != other.bytes[i] {
                return false;
            }
            i += 1;
        }
        assert(self.bytes@ =~= other.bytes@);
        true
    }
}

impl Eq for ContentHash {

}

impl vstd::std_specs::cmp::PartialEqSpecImpl for ContentHash {
    open spec fn obeys_eq_spec() -> bool {
        true
    }

    open spec fn eq_spec(&self, other: &ContentHash) -> bool {
        self@ == other@
    }
}

impl From<[u8; 64]> for ContentHash {
    fn from(value: [u8; 64]) -> (hash: ContentHash) {
        ContentHash { bytes: value }
    }
}

impl vstd::std_specs::convert::FromSpecImpl<[u8; 64]> for ContentHash {
    open spec fn obeys_from_spec() -> bool {
        true
    }

    open spec fn from_spec(value: [u8; 64]) -> ContentHash {
        ContentHash { bytes: value }
    }
}

impl ContentHash {
    /// Wraps 64 raw digest bytes.
    pub fn from_bytes(bytes: [u8; 64]) -> (hash: ContentHash)
        ensures
            hash@ == bytes@,
            hash.bytes == bytes,
    {
        ContentHash { bytes }
    }
}

/// The one-character text of the hexadecimal digit for `n`.
fn digit_text(n: u8) -> (text: &'static str)
    requires
        n < 16,
    ensures
        text@ == seq![hex_digit(n as int)],
{
    let text = match n {
        0 => "0",
        1 => "1",
        2 => "2",
        3 => "3",
        4 => "4",
        5 => "5",
        6 => "6",
        7 => "7",
        8 => "8",
        9 => "9",
        10 => "a",
        11 => "b",
        12 => "c",
        13 => "d",
        14 => "e",
        _ => "f",
    };
    proof {
        reveal_strlit("0");
        reveal_strlit("1");
        reveal_strlit("2");
        reveal_strlit("3");
        reveal_strlit("4");
        reveal_strlit("5");
        reveal_strlit("6");
        reveal_strlit("7");
        reveal_strlit("8");
        reveal_strlit("9");
        reveal_strlit("a");
        reveal_strlit("b");
        reveal_strlit("c");
        reveal_strlit("d");
        reveal_strlit("e");
        reveal_strlit("f");
        assert(text@ =~= seq![hex_digit(n as int)]);
    }
    text
}

impl ContentHash {
    /// The name under which content with this fingerprint is stored: its
    /// hexadecimal text, 128 lowercase digits.
    pub fn to_hex(&self) -> (name: String)
        ensures
            name@ == hex_text(self@),
            name@.len() == 128,
    {
        let mut name = String::new();
        let mut i: usize = 0;
        while i < 64
            invariant
                i <= 64,
                name@ == hex_text(self@.take(i as int)),
            decreases 64 - i,
        {
            let byte: u8 = self.bytes[i];
            let ghost before = name@;
            name.append(digit_text(byte / 16));
            name.append(digit_text(byte % 16));
            proof {
                let shorter = self@.take(i as int);
                let longer = self@.take(i + 1);
                assert(name@ == before + seq![hex_digit(byte as int / 16)] + seq![
                    hex_digit(byte as int % 16),
                ]);
                assert forall|j: int| 0 <= j < 2 * (i + 1) implies name@[j] == hex_text(longer)[j] by {
                    if j < 2 * i {
                        assert(shorter[j / 2] == longer[j / 2]);
                        assert(name@[j] == hex_text(shorter)[j]);
                    }
                }
                assert(name@ =~= hex_text(longer));
            }
            i += 1;
        }
        assert(self@.take(64) =~= self@);
        name
    }
}

} // verus!
