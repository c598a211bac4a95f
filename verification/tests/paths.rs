use dedlink::paths::link_target;

#[test]
fn link_beside_the_store_points_into_it() {
    assert_eq!(link_target(".dedlink/abc", "a.txt"), Some(".dedlink/abc".to_string()));
}

#[test]
fn link_in_a_subdirectory_climbs_out_of_it() {
    assert_eq!(link_target(".dedlink/abc", "b/c.txt"), Some("../.dedlink/abc".to_string()));
    assert_eq!(link_target(".dedlink/abc", "b/d/e.txt"), Some("../../.dedlink/abc".to_string()));
}

#[test]
fn link_between_absolute_paths() {
    assert_eq!(link_target("/data/.dedlink/abc", "/data/x/y.txt"), Some("../.dedlink/abc".to_string()));
    assert_eq!(link_target("/store/abc", "/data/y.txt"), Some("../store/abc".to_string()));
}

#[test]
fn link_inside_the_store_directory() {
    assert_eq!(link_target("store/abc", "store/copy.txt"), Some("abc".to_string()));
}

#[test]
fn relative_member_reaches_an_absolute_entry_as_it_is() {
    assert_eq!(link_target("/store/abc", "a/b.txt"), Some("/store/abc".to_string()));
}

#[test]
fn absolute_member_finds_no_way_to_a_relative_entry() {
    assert_eq!(link_target(".dedlink/abc", "/mnt/other/file.txt"), None);
}

#[test]
fn member_without_parent_has_no_link_target() {
    assert_eq!(link_target(".dedlink/abc", ""), None);
    assert_eq!(link_target(".dedlink/abc", "/"), None);
}

#[test]
fn member_whose_directory_climbs_finds_no_way() {
    assert_eq!(link_target("store/abc", "../outside/file.txt"), None);
}
