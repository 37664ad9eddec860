use lmutib::codec::{
    config_name_from_path, decode_label, encode_clean_label, encode_incremental_label,
    extract_config_from_bname, extract_parent_from_bname, BuildKind, CodecError, LabelFormatError,
};

#[test]
fn generated_configuration_path_scenario() {
    let id = config_name_from_path(b"/root/configs/___config_FOO-xyz").unwrap();
    assert_eq!(id.as_slice(), b"root|configs|FOO");
}

#[test]
fn plain_configuration_path_scenario() {
    let id = config_name_from_path(b"/root/configs/bar").unwrap();
    assert_eq!(id.as_slice(), b"root|configs|bar");
}

#[test]
fn relative_path_rejected() {
    assert!(matches!(config_name_from_path(b"configs/bar"), Err(CodecError::BadPath)));
    assert!(matches!(config_name_from_path(b""), Err(CodecError::BadPath)));
}

#[test]
fn directory_path_rejected() {
    assert!(matches!(config_name_from_path(b"/root/configs/"), Err(CodecError::BadPath)));
}

#[test]
fn separator_in_segment_rejected() {
    assert!(matches!(
        config_name_from_path(b"/root/con|figs/bar"),
        Err(CodecError::SeparatorInPath)
    ));
    assert!(matches!(
        config_name_from_path(b"/root/configs/ba|r"),
        Err(CodecError::SeparatorInPath)
    ));
}

#[test]
fn clean_label_round_trip() {
    let id: &[u8] = b"root|configs|bar";
    let label = encode_clean_label(id);
    assert_eq!(label.as_slice(), b"root|configs|bar-cb");
    let d = decode_label(label.as_slice()).unwrap();
    assert_eq!(d.kind, BuildKind::Clean);
    assert!(d.parent.is_none());
    assert_eq!(d.config_id.as_slice(), id);
}

#[test]
fn path_to_identifier_to_label_round_trip() {
    let id = config_name_from_path(b"/home/configs/rand").unwrap();
    let label = encode_clean_label(id.as_slice());
    let d = decode_label(label.as_slice()).unwrap();
    assert_eq!(d.config_id, id);
    assert_eq!(d.kind, BuildKind::Clean);
}

#[test]
fn incremental_label_round_trip() {
    let parent: &[u8] = b"base-cb";
    let id: &[u8] = b"root|configs|foo";
    let label = encode_incremental_label(parent, id);
    assert_eq!(label.as_slice(), b"base-cb-root|configs|foo-ib");
    let d = decode_label(label.as_slice()).unwrap();
    assert_eq!(d.kind, BuildKind::Incremental);
    assert_eq!(d.parent.unwrap().as_slice(), parent);
    assert_eq!(d.config_id.as_slice(), id);
}

#[test]
fn incremental_round_trip_with_hyphenated_identifier() {
    // The identifier itself may hold hyphens: everything past the
    // two-token parent belongs to it.
    let parent: &[u8] = b"base-cb";
    let id: &[u8] = b"cfg-extra-bits";
    let label = encode_incremental_label(parent, id);
    let d = decode_label(label.as_slice()).unwrap();
    assert_eq!(d.parent.unwrap().as_slice(), parent);
    assert_eq!(d.config_id.as_slice(), id);
}

#[test]
fn label_without_kind_suffix_rejected() {
    assert!(matches!(decode_label(b"no-suffix-here"), Err(LabelFormatError::NoKindSuffix)));
    assert!(matches!(decode_label(b""), Err(LabelFormatError::NoKindSuffix)));
}

#[test]
fn incremental_label_without_two_tokens_rejected() {
    assert!(matches!(decode_label(b"x-ib"), Err(LabelFormatError::TooFewTokens)));
    assert!(matches!(decode_label(b"nodash-ib"), Err(LabelFormatError::TooFewTokens)));
}

#[test]
fn extract_parent_variants() {
    assert_eq!(extract_parent_from_bname(b"foo-cb").as_slice(), b"--");
    assert_eq!(extract_parent_from_bname(b"base-cb-foo-ib").as_slice(), b"base");
}

#[test]
fn extract_config_variants() {
    assert_eq!(extract_config_from_bname(b"foo-cb").unwrap().as_slice(), b"foo");
    assert_eq!(
        extract_config_from_bname(b"base-cb-foo-ib").unwrap().as_slice(),
        b"foo"
    );
    assert!(extract_config_from_bname(b"junk").is_err());
}
