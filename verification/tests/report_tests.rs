use lmutib::report::{make_record, report, BuildRecord};

#[test]
fn record_from_markers() {
    let r = make_record(b"foo-cb".to_vec(), false, Some(b" 12.3\n".to_vec()), None);
    assert!(r.success);
    assert_eq!(r.elapsed.unwrap().as_slice(), b"12.3");

    let r = make_record(b"foo-cb".to_vec(), true, Some(b"7.0".to_vec()), None);
    assert!(!r.success);

    let r = make_record(b"foo-cb".to_vec(), false, None, None);
    assert!(r.elapsed.is_none());

    let r = make_record(b"foo-cb".to_vec(), false, Some(b"not a time".to_vec()), None);
    assert!(r.elapsed.is_none());

    let r = make_record(b"foo-cb".to_vec(), false, Some(b"1.2.3".to_vec()), None);
    assert!(r.elapsed.is_none());

    // A lone decimal point is no time.
    let r = make_record(b"foo-cb".to_vec(), false, Some(b".".to_vec()), None);
    assert!(r.elapsed.is_none());

    let r = make_record(b"foo-cb".to_vec(), false, Some(b"".to_vec()), None);
    assert!(r.elapsed.is_none());
}

#[test]
fn report_header_only_when_no_records() {
    let out = report(&Vec::new());
    assert_eq!(out.as_slice(), b"name,parent,clean,incremental,add,remove,change\n");
}

#[test]
fn clean_row_shows_sentinels_in_incremental_columns() {
    let records = vec![BuildRecord {
        label: b"root|configs|bar-cb".to_vec(),
        success: true,
        elapsed: Some(b"12.3".to_vec()),
        diff_counts: None,
    }];
    let out = report(&records);
    let expected: &[u8] =
        b"name,parent,clean,incremental,add,remove,change\nroot|configs|bar,--,12.3,--,--,--,--\n";
    assert_eq!(out.as_slice(), expected);
}

#[test]
fn incremental_row_joins_parent_clean_time_and_counts() {
    let records = vec![
        BuildRecord {
            label: b"base-cb".to_vec(),
            success: true,
            elapsed: Some(b"100.0".to_vec()),
            diff_counts: None,
        },
        BuildRecord {
            label: b"base-cb-foo-ib".to_vec(),
            success: true,
            elapsed: Some(b"42.0".to_vec()),
            diff_counts: Some((1, 0, 2)),
        },
    ];
    let out = report(&records);
    let expected: &[u8] = b"name,parent,clean,incremental,add,remove,change\n\
base,--,100.0,--,--,--,--\n\
foo,base,100.0,42.0,1,0,2\n";
    assert_eq!(out.as_slice(), expected);
}

#[test]
fn failed_build_still_contributes_a_row_with_time_sentinel() {
    // A build whose external process exited non-zero: success is false,
    // and its row shows the sentinel in place of its own time, yet the
    // attempt is present in the report.
    let records = vec![BuildRecord {
        label: b"bad-cb".to_vec(),
        success: false,
        elapsed: Some(b"3.5".to_vec()),
        diff_counts: None,
    }];
    let out = report(&records);
    let expected: &[u8] = b"name,parent,clean,incremental,add,remove,change\nbad,--,--,--,--,--,--\n";
    assert_eq!(out.as_slice(), expected);
}

#[test]
fn undecodable_label_skipped_not_fatal() {
    let records = vec![
        BuildRecord {
            label: b"strange branch".to_vec(),
            success: true,
            elapsed: Some(b"1.0".to_vec()),
            diff_counts: None,
        },
        BuildRecord {
            label: b"ok-cb".to_vec(),
            success: true,
            elapsed: Some(b"2.0".to_vec()),
            diff_counts: None,
        },
    ];
    let out = report(&records);
    let expected: &[u8] = b"name,parent,clean,incremental,add,remove,change\nok,--,2.0,--,--,--,--\n";
    assert_eq!(out.as_slice(), expected);
}

#[test]
fn counts_render_in_decimal() {
    let records = vec![BuildRecord {
        label: b"base-cb-big-ib".to_vec(),
        success: true,
        elapsed: Some(b"0.5".to_vec()),
        diff_counts: Some((12, 3, 456)),
    }];
    let out = report(&records);
    let expected: &[u8] =
        b"name,parent,clean,incremental,add,remove,change\nbig,base,--,0.5,12,3,456\n";
    assert_eq!(out.as_slice(), expected);
}

#[test]
fn missing_parent_clean_record_shows_sentinel() {
    let records = vec![BuildRecord {
        label: b"base-cb-foo-ib".to_vec(),
        success: true,
        elapsed: Some(b"42.0".to_vec()),
        diff_counts: Some((0, 0, 0)),
    }];
    let out = report(&records);
    let expected: &[u8] =
        b"name,parent,clean,incremental,add,remove,change\nfoo,base,--,42.0,0,0,0\n";
    assert_eq!(out.as_slice(), expected);
}
