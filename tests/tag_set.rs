use oggvorbismeta::{CommentHeader, VorbisComments};

fn strings(v: &[&str]) -> Vec<String> {
    v.iter().map(|s| s.to_string()).collect()
}

#[test]
fn lookup_ignores_case() {
    let mut h = CommentHeader::new();
    h.add_tag_single("Album", "Greatest Hits");
    h.add_tag_single("album", "B-Sides");
    assert_eq!(h.get_tag_multi("ALBUM"), h.get_tag_multi("album"));
    assert_eq!(h.get_tag_multi("aLbUm"), strings(&["Greatest Hits", "B-Sides"]));
}

#[test]
fn values_keep_insertion_order() {
    let mut h = CommentHeader::new();
    h.add_tag_single("artist", "Some Guy");
    h.add_tag_single("artist", "Another Dude");
    assert_eq!(h.get_tag_multi("artist"), strings(&["Some Guy", "Another Dude"]));
}

#[test]
fn keys_are_stored_lowercase_values_as_given() {
    let mut h = CommentHeader::new();
    h.add_tag_single("TiTlE", "MiXeD Case");
    assert_eq!(h.comment_list, vec![("title".to_string(), "MiXeD Case".to_string())]);
}

#[test]
fn clear_removes_every_casing() {
    let mut h = <CommentHeader as VorbisComments>::from(
        "v".to_string(),
        vec![
            ("ARTIST".to_string(), "x".to_string()),
            ("title".to_string(), "t".to_string()),
            ("Artist".to_string(), "y".to_string()),
        ],
    );
    h.clear_tag("artist");
    assert!(h.get_tag_multi("artist").is_empty());
    assert_eq!(h.comment_list, vec![("title".to_string(), "t".to_string())]);
    assert_eq!(h.get_vendor(), "v");
}

#[test]
fn tag_names_sorted_lowercase_deduplicated() {
    let mut h = CommentHeader::new();
    h.add_tag_single("artist", "a");
    h.add_tag_single("artist", "b");
    h.add_tag_single("album", "c");
    assert_eq!(h.get_tag_names(), strings(&["album", "artist"]));
}

#[test]
fn tag_names_fold_decoded_keys() {
    let h = <CommentHeader as VorbisComments>::from(
        String::new(),
        vec![
            ("Title".to_string(), "1".to_string()),
            ("DATE".to_string(), "2".to_string()),
            ("title".to_string(), "3".to_string()),
            ("b".to_string(), "4".to_string()),
        ],
    );
    assert_eq!(h.get_tag_names(), strings(&["b", "date", "title"]));
}

#[test]
fn tag_names_of_empty_header() {
    assert!(CommentHeader::new().get_tag_names().is_empty());
}

#[test]
fn single_tag_absent_is_none() {
    let h = CommentHeader::new();
    assert_eq!(h.get_tag_single("x"), None);
}

#[test]
fn add_multi_keeps_existing_entries() {
    let mut h = CommentHeader::new();
    h.add_tag_single("k", "0");
    h.add_tag_multi("K", &strings(&["1", "2"]));
    assert_eq!(h.get_tag_multi("k"), strings(&["0", "1", "2"]));
}

#[test]
fn set_vendor_keeps_case() {
    let mut h = CommentHeader::new();
    h.set_vendor("Xiph.Org libVorbis");
    assert_eq!(h.get_vendor(), "Xiph.Org libVorbis");
}
