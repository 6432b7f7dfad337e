use relay::envelope::{enrich, parse_envelope, serialize_envelope};

#[test]
fn parses_canonical_envelope() {
    let s = b"{\"name\":\"x\",\"message\":\"hi\",\"uid\":999}".to_vec();
    let e = parse_envelope(&s).unwrap();
    assert_eq!(e.name, b"x".to_vec());
    assert_eq!(e.message, b"hi".to_vec());
    assert_eq!(e.uid, Some(999));
}

#[test]
fn parses_with_whitespace_and_null_uid() {
    let s = b" { \"name\" : \"ada\" , \"message\" : \"ok\" , \"uid\" : null } ".to_vec();
    let e = parse_envelope(&s).unwrap();
    assert_eq!(e.name, b"ada".to_vec());
    assert_eq!(e.message, b"ok".to_vec());
    assert_eq!(e.uid, None);
}

#[test]
fn parses_without_uid_member() {
    let s = b"{\"name\":\"n\",\"message\":\"m\"}".to_vec();
    let e = parse_envelope(&s).unwrap();
    assert_eq!(e.uid, None);
}

#[test]
fn rejects_non_json_text() {
    assert!(parse_envelope(&b"not json".to_vec()).is_none());
    assert!(parse_envelope(&b"\"not json\"".to_vec()).is_none());
    assert!(parse_envelope(&b"".to_vec()).is_none());
}

#[test]
fn rejects_wrong_member_types_and_missing_members() {
    // message must be a string, and name must be present.
    assert!(parse_envelope(&b"{\"message\": 5}".to_vec()).is_none());
    assert!(parse_envelope(&b"{\"name\":\"x\",\"message\":5}".to_vec()).is_none());
    assert!(parse_envelope(&b"{\"message\":\"hi\"}".to_vec()).is_none());
    assert!(parse_envelope(&b"{\"name\":\"x\"}".to_vec()).is_none());
}

#[test]
fn rejects_trailing_bytes_and_unknown_members() {
    assert!(parse_envelope(&b"{\"name\":\"x\",\"message\":\"hi\"} junk".to_vec()).is_none());
    assert!(
        parse_envelope(&b"{\"name\":\"x\",\"message\":\"hi\",\"extra\":1}".to_vec()).is_none()
    );
}

#[test]
fn rejects_escapes_and_control_bytes_in_strings() {
    assert!(parse_envelope(&b"{\"name\":\"x\\\"y\",\"message\":\"hi\"}".to_vec()).is_none());
    assert!(parse_envelope(&b"{\"name\":\"x\ny\",\"message\":\"hi\"}".to_vec()).is_none());
}

#[test]
fn uid_numeral_length_is_capped_at_nineteen_digits() {
    let ok = b"{\"name\":\"x\",\"message\":\"m\",\"uid\":9999999999999999999}".to_vec();
    let e = parse_envelope(&ok).unwrap();
    assert_eq!(e.uid, Some(9_999_999_999_999_999_999));
    let too_long =
        b"{\"name\":\"x\",\"message\":\"m\",\"uid\":99999999999999999999}".to_vec();
    assert!(parse_envelope(&too_long).is_none());
}

#[test]
fn uid_accepts_leading_zeros_and_rejects_signs() {
    let z = b"{\"name\":\"x\",\"message\":\"m\",\"uid\":007}".to_vec();
    assert_eq!(parse_envelope(&z).unwrap().uid, Some(7));
    let neg = b"{\"name\":\"x\",\"message\":\"m\",\"uid\":-5}".to_vec();
    assert!(parse_envelope(&neg).is_none());
}

#[test]
fn multibyte_text_passes_through_unchanged() {
    let s = "{\"name\":\"héloïse\",\"message\":\"ναί\",\"uid\":null}"
        .as_bytes()
        .to_vec();
    let e = parse_envelope(&s).unwrap();
    assert_eq!(e.name, "héloïse".as_bytes().to_vec());
    let out = enrich(&s, 8).unwrap();
    let back = parse_envelope(&out).unwrap();
    assert_eq!(back.name, "héloïse".as_bytes().to_vec());
    assert_eq!(back.message, "ναί".as_bytes().to_vec());
    assert_eq!(back.uid, Some(8));
}

#[test]
fn serializes_canonical_form() {
    let out = serialize_envelope(&b"x".to_vec(), &b"hi".to_vec(), 3);
    assert_eq!(out, b"{\"name\":\"x\",\"message\":\"hi\",\"uid\":3}".to_vec());
    let out0 = serialize_envelope(&b"".to_vec(), &b"".to_vec(), 0);
    assert_eq!(out0, b"{\"name\":\"\",\"message\":\"\",\"uid\":0}".to_vec());
}

#[test]
fn enrich_overwrites_client_supplied_uid() {
    // The client claims uid 999; connection 3 relays it: every recipient
    // sees uid 3.
    let s = b"{\"name\":\"x\",\"message\":\"hi\",\"uid\":999}".to_vec();
    let out = enrich(&s, 3).unwrap();
    assert_eq!(out, b"{\"name\":\"x\",\"message\":\"hi\",\"uid\":3}".to_vec());
    let back = parse_envelope(&out).unwrap();
    assert_eq!(back.uid, Some(3));
    assert_eq!(back.name, b"x".to_vec());
    assert_eq!(back.message, b"hi".to_vec());
}

#[test]
fn enrich_drops_malformed_frames() {
    assert!(enrich(&b"not json".to_vec(), 3).is_none());
    assert!(enrich(&b"{\"message\": 5}".to_vec(), 3).is_none());
}

#[test]
fn enrich_normalizes_whitespace_and_null() {
    let s = b" { \"name\" : \"a\" , \"message\" : \"b\" , \"uid\" : null } ".to_vec();
    let out = enrich(&s, 12).unwrap();
    assert_eq!(out, b"{\"name\":\"a\",\"message\":\"b\",\"uid\":12}".to_vec());
}
