use lmutib::config::Configuration;
use lmutib::diff::{diff_files, diffconfig};

fn config_of(pairs: &[(&[u8], &[u8])]) -> Configuration {
    let mut c = Configuration::new();
    for (k, v) in pairs {
        c.insert(k.to_vec(), v.to_vec());
    }
    c
}

#[test]
fn base_variant_scenario() {
    // base {A=y, B=n}, variant {A=y, B=y, C=m}
    let base = config_of(&[(b"A", b"y"), (b"B", b"n")]);
    let variant = config_of(&[(b"A", b"y"), (b"B", b"y"), (b"C", b"m")]);
    let d = diffconfig(&base, &variant);
    assert_eq!(d.unchanged.len(), 1);
    assert_eq!(d.unchanged.get(b"A").unwrap().as_slice(), b"y");
    assert_eq!(d.changed.len(), 1);
    assert_eq!(d.changed.get(b"B").unwrap().as_slice(), b"n -> y");
    assert_eq!(d.added.len(), 1);
    assert_eq!(d.added.get(b"C").unwrap().as_slice(), b"m");
    assert_eq!(d.removed.len(), 0);
}

#[test]
fn diff_against_self_is_all_unchanged() {
    let a = config_of(&[(b"A", b"y"), (b"B", b"n"), (b"C", b"hello")]);
    let d = diffconfig(&a, &a);
    assert_eq!(d.added.len(), 0);
    assert_eq!(d.removed.len(), 0);
    assert_eq!(d.changed.len(), 0);
    assert_eq!(d.unchanged.len(), 3);
    assert_eq!(d.unchanged.get(b"A").unwrap().as_slice(), b"y");
    assert_eq!(d.unchanged.get(b"B").unwrap().as_slice(), b"n");
    assert_eq!(d.unchanged.get(b"C").unwrap().as_slice(), b"hello");
}

#[test]
fn removed_options_reported() {
    let a = config_of(&[(b"A", b"y"), (b"B", b"m")]);
    let b = config_of(&[(b"A", b"y")]);
    let d = diffconfig(&a, &b);
    assert_eq!(d.removed.len(), 1);
    assert_eq!(d.removed.get(b"B").unwrap().as_slice(), b"m");
    assert_eq!(d.added.len(), 0);
}

#[test]
fn partitions_cover_both_key_sets() {
    let a = config_of(&[(b"A", b"1"), (b"B", b"2"), (b"C", b"3")]);
    let b = config_of(&[(b"B", b"2"), (b"C", b"9"), (b"D", b"4")]);
    let d = diffconfig(&a, &b);
    // Each of A's keys lands in exactly one of removed/unchanged/changed,
    // and never in added.
    for key in [b"A".as_slice(), b"B", b"C"] {
        let hits = [d.removed.contains_key(key), d.unchanged.contains_key(key), d.changed.contains_key(key)];
        assert_eq!(hits.iter().filter(|h| **h).count(), 1);
        assert!(!d.added.contains_key(key));
    }
    // Each of B's keys lands in exactly one of added/unchanged/changed,
    // and never in removed.
    for key in [b"B".as_slice(), b"C", b"D"] {
        let hits = [d.added.contains_key(key), d.unchanged.contains_key(key), d.changed.contains_key(key)];
        assert_eq!(hits.iter().filter(|h| **h).count(), 1);
        assert!(!d.removed.contains_key(key));
    }
    assert_eq!(d.removed.len() + d.unchanged.len() + d.changed.len(), 3);
    assert_eq!(d.added.len() + d.unchanged.len() + d.changed.len(), 3);
}

#[test]
fn diff_of_file_contents() {
    let before: &[u8] = b"CONFIG_A=y\n# CONFIG_B is not set";
    let after: &[u8] = b"CONFIG_A=y\n# CONFIG_C is not set";
    let d = diff_files(before, after).unwrap();
    assert_eq!(d.unchanged.get(b"CONFIG_A").unwrap().as_slice(), b"y");
    assert_eq!(d.removed.get(b"B").unwrap().as_slice(), b"n");
    assert_eq!(d.added.get(b"C").unwrap().as_slice(), b"n");
    assert_eq!(d.changed.len(), 0);
    assert!(diff_files(b"oops", after).is_err());
}

#[test]
fn empty_configurations_diff_empty() {
    let a = Configuration::new();
    let d = diffconfig(&a, &a);
    assert_eq!(d.unchanged.len(), 0);
    assert_eq!(d.added.len(), 0);
    assert_eq!(d.removed.len(), 0);
    assert_eq!(d.changed.len(), 0);
}
