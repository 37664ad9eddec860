use lmutib::config::{readconfig, ConfigError, Configuration};

#[test]
fn parse_value_lines() {
    let c = readconfig(b"CONFIG_A=y\nCONFIG_B=some string").unwrap();
    assert_eq!(c.get(b"CONFIG_A").unwrap().as_slice(), b"y");
    assert_eq!(c.get(b"CONFIG_B").unwrap().as_slice(), b"some string");
    assert_eq!(c.len(), 2);
}

#[test]
fn parse_not_set_line() {
    let c = readconfig(b"# CONFIG_FOO is not set").unwrap();
    assert_eq!(c.get(b"FOO").unwrap().as_slice(), b"n");
    assert_eq!(c.len(), 1);
}

#[test]
fn comments_and_empty_lines_ignored() {
    let c = readconfig(b"# just a comment\n\nCONFIG_X=m\n#\n").unwrap();
    assert_eq!(c.len(), 1);
    assert_eq!(c.get(b"CONFIG_X").unwrap().as_slice(), b"m");
}

#[test]
fn empty_file_parses_empty() {
    let c = readconfig(b"").unwrap();
    assert_eq!(c.len(), 0);
}

#[test]
fn duplicate_keys_keep_last() {
    let c = readconfig(b"CONFIG_A=y\nCONFIG_A=n\nCONFIG_A=m").unwrap();
    assert_eq!(c.len(), 1);
    assert_eq!(c.get(b"CONFIG_A").unwrap().as_slice(), b"m");
}

#[test]
fn malformed_line_without_separator_rejected() {
    let r = readconfig(b"CONFIG_A=y\nnonsense line");
    assert!(matches!(r, Err(ConfigError::MalformedLine)));
}

#[test]
fn malformed_not_set_line_rejected() {
    // Ends in the marker but lacks the option prefix.
    let r = readconfig(b"# FOO is not set");
    assert!(matches!(r, Err(ConfigError::MalformedLine)));
}

#[test]
fn value_with_equals_kept_whole() {
    let c = readconfig(b"CONFIG_CMDLINE=a=b=c").unwrap();
    assert_eq!(c.get(b"CONFIG_CMDLINE").unwrap().as_slice(), b"a=b=c");
}

#[test]
fn insert_and_get() {
    let mut c = Configuration::new();
    c.insert(b"A".to_vec(), b"y".to_vec());
    c.insert(b"B".to_vec(), b"n".to_vec());
    c.insert(b"A".to_vec(), b"m".to_vec());
    assert_eq!(c.len(), 2);
    assert_eq!(c.get(b"A").unwrap().as_slice(), b"m");
    assert!(c.contains_key(b"B"));
    assert!(!c.contains_key(b"C"));
}

#[test]
fn serialize_then_reparse_same_mapping() {
    let content: &[u8] = b"CONFIG_A=y\n# CONFIG_B is not set\n# noise\n\nCONFIG_C=hello world\nCONFIG_A=z";
    let c1 = readconfig(content).unwrap();
    let out = c1.serialize();
    let c2 = readconfig(out.as_slice()).unwrap();
    assert_eq!(c1.len(), c2.len());
    assert_eq!(c2.get(b"CONFIG_A").unwrap().as_slice(), b"z");
    assert_eq!(c2.get(b"B").unwrap().as_slice(), b"n");
    assert_eq!(c2.get(b"CONFIG_C").unwrap().as_slice(), b"hello world");
}

#[test]
fn serialize_round_trip_is_idempotent() {
    let content: &[u8] = b"CONFIG_A=y\n# CONFIG_B is not set";
    let once = readconfig(content).unwrap().serialize();
    let twice = readconfig(once.as_slice()).unwrap().serialize();
    assert_eq!(once, twice);
}

#[test]
fn not_set_value_serializes_as_comment_form() {
    let mut c = Configuration::new();
    c.insert(b"FOO".to_vec(), b"n".to_vec());
    assert_eq!(c.serialize().as_slice(), b"# CONFIG_FOO is not set");
}
