use lmutib::fetch::{archive_name_from_url, extracted_dir_path, kernel_url, FetchError};

#[test]
fn kernel_url_for_a_version() {
    let url = kernel_url(b"5.15.2").unwrap();
    assert_eq!(
        url.as_slice(),
        b"https://cdn.kernel.org/pub/linux/kernel/v5.x/linux-5.15.2.tar.gz".as_slice()
    );
}

#[test]
fn kernel_url_without_dot_rejected() {
    assert!(matches!(kernel_url(b"515"), Err(FetchError::BadVersion)));
}

#[test]
fn archive_name_is_after_last_slash() {
    let url = kernel_url(b"6.1.0").unwrap();
    let name = archive_name_from_url(url.as_slice()).unwrap();
    assert_eq!(name.as_slice(), b"linux-6.1.0.tar.gz");
}

#[test]
fn archive_name_without_slash_rejected() {
    assert!(matches!(archive_name_from_url(b"plainname"), Err(FetchError::NoSlash)));
}

#[test]
fn extracted_dir_inserts_separator() {
    let p = extracted_dir_path(b"linux-5.15.2.tar.gz", b"/srv/build").unwrap();
    assert_eq!(p.as_slice(), b"/srv/build/linux-5.15.2");
}

#[test]
fn extracted_dir_keeps_existing_separator() {
    let p = extracted_dir_path(b"linux-5.15.2.tar.gz", b"/srv/build/").unwrap();
    assert_eq!(p.as_slice(), b"/srv/build/linux-5.15.2");
}

#[test]
fn extracted_dir_rejects_bad_inputs() {
    assert!(matches!(
        extracted_dir_path(b"linux.zip", b"/srv"),
        Err(FetchError::NoArchiveSuffix)
    ));
    assert!(matches!(
        extracted_dir_path(b"linux.tar.gz", b""),
        Err(FetchError::EmptyDestination)
    ));
}
