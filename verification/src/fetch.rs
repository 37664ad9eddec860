//! Source-tree acquisition naming.
//!
//! Downloading and unpacking the source archive are outside work; what is
//! decided here is the naming around them: the archive URL a version
//! denotes, the archive's file name, and where the unpacked tree ends up.

use vstd::prelude::*;
use crate::bytes::{
    append_bytes, ends_with, find_byte, first_index, has_byte, last_index, lemma_first_index,
    lemma_last_index, rfind_byte, subvec, to_vec,
};

verus! {

/// Failure to derive a name for the source acquisition.
#[derive(Clone, Copy, PartialEq, Eq, Debug)]
pub enum FetchError {
    /// The version string holds no dot, so no release line can be named.
    BadVersion,
    /// The URL holds no slash, so no file name can be split off.
    NoSlash,
    /// The archive name does not end in the expected archive suffix.
    NoArchiveSuffix,
    /// The unpack destination is empty.
    EmptyDestination,
}

/// `"https://cdn.kernel.org/pub/linux/kernel/v"`: the release archive
/// area, by major-version line.
pub open spec fn spec_url_head() -> Seq<u8> {
    seq![
        104u8, 116u8, 116u8, 112u8, 115u8, 58u8, 47u8, 47u8, 99u8, 100u8, 110u8, 46u8, 107u8,
        101u8, 114u8, 110u8, 101u8, 108u8, 46u8, 111u8, 114u8, 103u8, 47u8, 112u8, 117u8, 98u8,
        47u8, 108u8, 105u8, 110u8, 117u8, 120u8, 47u8, 107u8, 101u8, 114u8, 110u8, 101u8, 108u8,
        47u8, 118u8,
    ]
}

/// `".x/linux-"`: between the major-version line and the full version.
pub open spec fn spec_url_mid() -> Seq<u8> {
    seq![46u8, 120u8, 47u8, 108u8, 105u8, 110u8, 117u8, 120u8, 45u8]
}

/// `".tar.gz"`: the archive suffix.
pub open spec fn spec_archive_suffix() -> Seq<u8> {
    seq![46u8, 116u8, 97u8, 114u8, 46u8, 103u8, 122u8]
}

/// Builds `".tar.gz"` as bytes.
pub fn archive_suffix() -> (r: Vec<u8>)
    ensures
        r@ == spec_archive_suffix(),
{
    let mut r: Vec<u8> = Vec::new();
    r.push(46);
    r.push(116);
    r.push(97);
    r.push(114);
    r.push(46);
    r.push(103);
    r.push(122);
    proof {
        assert(r@ =~= spec_archive_suffix());
    }
    r
}

/// The archive URL a version denotes: the release area, the text before
/// the version's first dot as the major line, then the full version and
/// the archive suffix.
pub open spec fn spec_kernel_url(version: Seq<u8>) -> Option<Seq<u8>> {
    if !has_byte(version, 46) {
        None
    } else {
        Some(
            spec_url_head() + version.subrange(0, first_index(version, 46)) + spec_url_mid()
                + version + spec_archive_suffix(),
        )
    }
}

/// Derives the release archive's URL from a version string; a version
/// without a dot names no release line.
pub fn kernel_url(version: &[u8]) -> (r: Result<Vec<u8>, FetchError>)
    ensures
        match r {
            Ok(url) => spec_kernel_url(version@) == Some(url@),
            Err(_) => spec_kernel_url(version@) is None,
        },
{
    let dot = match find_byte(version, 46) {
        Some(d) => d,
        None => {
            return Err(FetchError::BadVersion);
        },
    };
    proof {
        lemma_first_index(version@, 46);
    }
    let mut url: Vec<u8> = Vec::new();
    url.push(104);
    url.push(116);
    url.push(116);
    url.push(112);
    url.push(115);
    url.push(58);
    url.push(47);
    url.push(47);
    url.push(99);
    url.push(100);
    url.push(110);
    url.push(46);
    url.push(107);
    url.push(101);
    url.push(114);
    url.push(110);
    url.push(101);
    url.push(108);
    url.push(46);
    url.push(111);
    url.push(114);
    url.push(103);
    url.push(47);
    url.push(112);
    url.push(117);
    url.push(98);
    url.push(47);
    url.push(108);
    url.push(105);
    url.push(110);
    url.push(117);
    url.push(120);
    url.push(47);
    url.push(107);
    url.push(101);
    url.push(114);
    url.push(110);
    url.push(101);
    url.push(108);
    url.push(47);
    url.push(118);
    proof {
        assert(url@ =~= spec_url_head());
    }
    let major = subvec(version, 0, dot);
    append_bytes(&mut url, major.as_slice());
    url.push(46);
    url.push(120);
    url.push(47);
    url.push(108);
    url.push(105);
    url.push(110);
    url.push(117);
    url.push(120);
    url.push(45);
    append_bytes(&mut url, version);
    let suf = archive_suffix();
    append_bytes(&mut url, suf.as_slice());
    proof {
        assert(url@ =~= spec_url_head() + version@.subrange(0, first_index(version@, 46))
            + spec_url_mid() + version@ + spec_archive_suffix());
    }
    Ok(url)
}

/// The file name at the end of a URL: everything after its last slash.
pub open spec fn spec_archive_name(url: Seq<u8>) -> Option<Seq<u8>> {
    if !has_byte(url, 47) {
        None
    } else {
        Some(url.subrange(last_index(url, 47) + 1, url.len() as int))
    }
}

/// Splits the archive's file name off a URL.
pub fn archive_name_from_url(url: &[u8]) -> (r: Result<Vec<u8>, FetchError>)
    ensures
        match r {
            Ok(name) => spec_archive_name(url@) == Some(name@),
            Err(_) => spec_archive_name(url@) is None,
        },
{
    let slash = match rfind_byte(url, 47) {
        Some(s) => s,
        None => {
            return Err(FetchError::NoSlash);
        },
    };
    proof {
        lemma_last_index(url@, 47);
        assert(slash < url@.len());
    }
    let ulen = url.len();
    Ok(subvec(url, slash + 1, ulen))
}

/// Where an unpacked archive's tree ends up: the destination, a path
/// separator unless the destination already ends in one, then the archive
/// name without its suffix.
pub open spec fn spec_extracted_dir(file: Seq<u8>, dst: Seq<u8>) -> Option<Seq<u8>> {
    if dst.len() == 0 || !spec_archive_suffix().is_suffix_of(file) {
        None
    } else {
        let stem = file.subrange(0, file.len() - 7);
        if dst.last() == 47 {
            Some(dst + stem)
        } else {
            Some(dst + seq![47u8] + stem)
        }
    }
}

/// Computes the directory an unpacked archive occupies under the
/// destination.
pub fn extracted_dir_path(file: &[u8], dst: &[u8]) -> (r: Result<Vec<u8>, FetchError>)
    ensures
        match r {
            Ok(p) => spec_extracted_dir(file@, dst@) == Some(p@),
            Err(FetchError::EmptyDestination) => dst@.len() == 0,
            Err(_) => spec_extracted_dir(file@, dst@) is None,
        },
{
    if dst.len() == 0 {
        return Err(FetchError::EmptyDestination);
    }
    let suf = archive_suffix();
    if !ends_with(file, suf.as_slice()) {
        return Err(FetchError::NoArchiveSuffix);
    }
    let stem = subvec(file, 0, file.len() - 7);
    let mut p = to_vec(dst);
    if dst[dst.len() - 1] != 47 {
        p.push(47);
    }
    append_bytes(&mut p, stem.as_slice());
    proof {
        if dst@.last() == 47 {
            assert(p@ =~= dst@ + file@.subrange(0, file@.len() - 7));
        } else {
            assert(p@ =~= dst@ + seq![47u8] + file@.subrange(0, file@.len() - 7));
        }
    }
    Ok(p)
}

} // verus!
