use relay::listing::render_listing;

#[test]
fn listing_prefixes_each_entry_with_a_line_feed() {
    let entries = vec![b"one".to_vec(), b"two".to_vec()];
    assert_eq!(render_listing(&entries), b"\none\ntwo".to_vec());
}

#[test]
fn empty_listing_renders_empty() {
    let entries: Vec<Vec<u8>> = vec![];
    assert_eq!(render_listing(&entries), b"".to_vec());
}

#[test]
fn empty_entries_still_get_their_line_feeds() {
    let entries = vec![b"".to_vec(), b"".to_vec(), b"x".to_vec()];
    assert_eq!(render_listing(&entries), b"\n\n\nx".to_vec());
}
