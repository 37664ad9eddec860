//! Build-identity naming.
//!
//! Two independent encodings share one naming contract.  A configuration
//! file's path becomes a short identifier: the path segments between the
//! filesystem root and the file's parent directory, joined with a fixed
//! separator, then the file name — or, for a generated configuration, only
//! the first hyphen-delimited token after the recognized prefix.  A build's
//! identity becomes a branch label: `<configId>-cb` for a clean build,
//! `<parentLabel>-<configId>-ib` for an incremental build, where the parent
//! label is always exactly two hyphen-delimited tokens.

use vstd::prelude::*;
use crate::bytes::{
    append_bytes, count_byte, ends_with, find_byte, first_index, has_byte, join_with,
    lemma_count_one, lemma_first_index, lemma_first_index_is, lemma_split_parts, spec_join,
    spec_split, split_on, starts_with, subvec, to_vec, views_of,
};

verus! {

/// Failure to derive an identifier from a configuration path.
#[derive(Clone, Copy, PartialEq, Eq, Debug)]
pub enum CodecError {
    /// The path is not absolute, or names no file.
    BadPath,
    /// A path segment holds the identifier separator.
    SeparatorInPath,
}

/// Failure to decode a branch label.
#[derive(Clone, Copy, PartialEq, Eq, Debug)]
pub enum LabelFormatError {
    /// The label ends in neither build-kind suffix.
    NoKindSuffix,
    /// An incremental label too short to hold a two-token parent.
    TooFewTokens,
}

/// The kind of build a label records.
#[derive(Clone, Copy, PartialEq, Eq, Structural, Debug)]
pub enum BuildKind {
    Clean,
    Incremental,
}

/// `"___config_"`: the prefix of a generated configuration's file name.
pub open spec fn spec_gen_prefix() -> Seq<u8> {
    seq![95u8, 95u8, 95u8, 99u8, 111u8, 110u8, 102u8, 105u8, 103u8, 95u8]
}

/// Builds `"___config_"` as bytes.
pub fn gen_prefix() -> (r: Vec<u8>)
    ensures
        r@ == spec_gen_prefix(),
{
    let mut r: Vec<u8> = Vec::new();
    r.push(95);
    r.push(95);
    r.push(95);
    r.push(99);
    r.push(111);
    r.push(110);
    r.push(102);
    r.push(105);
    r.push(103);
    r.push(95);
    proof {
        assert(r@ =~= spec_gen_prefix());
    }
    r
}

/// `"-cb"`: the suffix of a clean build's label.
pub open spec fn spec_clean_suffix() -> Seq<u8> {
    seq![45u8, 99u8, 98u8]
}

/// Builds `"-cb"` as bytes.
pub fn clean_suffix() -> (r: Vec<u8>)
    ensures
        r@ == spec_clean_suffix(),
{
    let mut r: Vec<u8> = Vec::new();
    r.push(45);
    r.push(99);
    r.push(98);
    proof {
        assert(r@ =~= spec_clean_suffix());
    }
    r
}

/// `"-ib"`: the suffix of an incremental build's label.
pub open spec fn spec_incr_suffix() -> Seq<u8> {
    seq![45u8, 105u8, 98u8]
}

/// Builds `"-ib"` as bytes.
pub fn incr_suffix() -> (r: Vec<u8>)
    ensures
        r@ == spec_incr_suffix(),
{
    let mut r: Vec<u8> = Vec::new();
    r.push(45);
    r.push(105);
    r.push(98);
    proof {
        assert(r@ =~= spec_incr_suffix());
    }
    r
}

/// `"--"`: the sentinel standing for "no parent".
pub open spec fn spec_no_parent() -> Seq<u8> {
    seq![45u8, 45u8]
}

/// Builds `"--"` as bytes.
pub fn no_parent() -> (r: Vec<u8>)
    ensures
        r@ == spec_no_parent(),
{
    let mut r: Vec<u8> = Vec::new();
    r.push(45);
    r.push(45);
    proof {
        assert(r@ =~= spec_no_parent());
    }
    r
}

/// The path has a root and names a file: it is absolute and does not end
/// in a segment separator.
pub open spec fn path_shape_ok(path: Seq<u8>) -> bool {
    &&& path.len() > 0
    &&& path[0] == 47
    &&& spec_split(path.subrange(1, path.len() as int), 47).last().len() > 0
}

/// The file-name part of the identifier: the name itself, or only the first
/// hyphen-delimited token after a generated configuration's prefix.
pub open spec fn spec_config_tail(fname: Seq<u8>) -> Seq<u8> {
    if spec_gen_prefix().is_prefix_of(fname) {
        let tail = fname.subrange(10, fname.len() as int);
        if has_byte(tail, 45) {
            tail.subrange(0, first_index(tail, 45))
        } else {
            tail
        }
    } else {
        fname
    }
}

/// The identifier a configuration path denotes, when the path is absolute,
/// names a file, and no segment holds the separator.
pub open spec fn spec_config_name(path: Seq<u8>) -> Option<Seq<u8>> {
    if !path_shape_ok(path) {
        None
    } else {
        let parts = spec_split(path.subrange(1, path.len() as int), 47);
        if exists|i: int| 0 <= i < parts.len() && has_byte(#[trigger] parts[i], 124) {
            None
        } else {
            Some(
                spec_join(parts.drop_last(), 124) + seq![124u8] + spec_config_tail(parts.last()),
            )
        }
    }
}

/// Derives the canonical, separator-joined identifier from an absolute
/// configuration-file path.  Rejects a relative or directory path and any
/// segment holding the separator byte.
pub fn config_name_from_path(path: &[u8]) -> (r: Result<Vec<u8>, CodecError>)
    ensures
        match r {
            Ok(id) => spec_config_name(path@) == Some(id@),
            Err(CodecError::BadPath) => !path_shape_ok(path@),
            Err(CodecError::SeparatorInPath) => spec_config_name(path@) is None,
        },
{
    if path.len() == 0 {
        return Err(CodecError::BadPath);
    }
    if path[0] != 47 {
        return Err(CodecError::BadPath);
    }
    let rest = subvec(path, 1, path.len());
    let parts = split_on(rest.as_slice(), 47);
    let ghost pviews = views_of(parts@);
    proof {
        lemma_split_parts(rest@, 47);
        assert(pviews.len() >= 1);
    }
    let np = parts.len();
    let fname = &parts[np - 1];
    proof {
        assert(fname@ == pviews.last());
    }
    if fname.len() == 0 {
        return Err(CodecError::BadPath);
    }
    let mut i: usize = 0;
    while i < np
        invariant
            i <= np,
            np == pviews.len(),
            pviews == views_of(parts@),
            path@.len() > 0,
            pviews == spec_split(path@.subrange(1, path@.len() as int), 47),
            forall|j: int| 0 <= j < i ==> !has_byte(#[trigger] pviews[j], 124),
        decreases np - i,
    {
        if let Some(_) = find_byte(parts[i].as_slice(), 124) {
            proof {
                let sparts = spec_split(path@.subrange(1, path@.len() as int), 47);
                assert(sparts == pviews);
                assert(pviews[i as int] == parts@[i as int]@);
                assert(has_byte(sparts[i as int], 124));
                assert(spec_config_name(path@) is None);
            }
            return Err(CodecError::SeparatorInPath);
        }
        i += 1;
    }
    let gp = gen_prefix();
    let name: Vec<u8>;
    if starts_with(fname.as_slice(), gp.as_slice()) {
        let tail = subvec(fname.as_slice(), 10, fname.len());
        match find_byte(tail.as_slice(), 45) {
            Some(t) => {
                proof {
                    lemma_first_index(tail@, 45);
                }
                name = subvec(tail.as_slice(), 0, t);
            },
            None => {
                name = tail;
            },
        }
    } else {
        name = to_vec(fname.as_slice());
    }
    proof {
        assert(name@ == spec_config_tail(pviews.last()));
    }
    let mut dirs: Vec<Vec<u8>> = Vec::new();
    let mut d: usize = 0;
    while d < np - 1
        invariant
            d <= np - 1,
            np == pviews.len(),
            pviews == views_of(parts@),
            views_of(dirs@) == pviews.drop_last().subrange(0, d as int),
        decreases np - 1 - d,
    {
        let part = to_vec(parts[d].as_slice());
        proof {
            assert(views_of(dirs@.push(part)) =~= views_of(dirs@) + seq![part@]);
            assert(pviews.drop_last().subrange(0, d + 1) =~= pviews.drop_last().subrange(
                0,
                d as int,
            ) + seq![pviews.drop_last()[d as int]]);
            assert(pviews.drop_last()[d as int] == pviews[d as int]);
        }
        dirs.push(part);
        d += 1;
    }
    proof {
        assert(views_of(dirs@) =~= pviews.drop_last());
    }
    let mut id = join_with(&dirs, 124);
    id.push(124);
    append_bytes(&mut id, name.as_slice());
    proof {
        assert(id@ =~= spec_join(pviews.drop_last(), 124) + seq![124u8] + spec_config_tail(
            pviews.last(),
        ));
    }
    Ok(id)
}

/// The label of a clean build of `config_id`.
pub open spec fn spec_clean_label(config_id: Seq<u8>) -> Seq<u8> {
    config_id + spec_clean_suffix()
}

/// The label of an incremental build of `config_id` on top of the build
/// labelled `parent`.
pub open spec fn spec_incr_label(parent: Seq<u8>, config_id: Seq<u8>) -> Seq<u8> {
    parent + seq![45u8] + config_id + spec_incr_suffix()
}

/// Encodes a clean build's label.
pub fn encode_clean_label(config_id: &[u8]) -> (r: Vec<u8>)
    ensures
        r@ == spec_clean_label(config_id@),
{
    let mut r = to_vec(config_id);
    let suf = clean_suffix();
    append_bytes(&mut r, suf.as_slice());
    r
}

/// Encodes an incremental build's label.
pub fn encode_incremental_label(parent: &[u8], config_id: &[u8]) -> (r: Vec<u8>)
    ensures
        r@ == spec_incr_label(parent@, config_id@),
{
    let mut r = to_vec(parent);
    r.push(45);
    append_bytes(&mut r, config_id);
    let suf = incr_suffix();
    append_bytes(&mut r, suf.as_slice());
    proof {
        assert(r@ =~= spec_incr_label(parent@, config_id@));
    }
    r
}

/// The triple a label decodes to: parent label (when incremental),
/// configuration identifier, and build kind.
pub open spec fn spec_decode(label: Seq<u8>) -> Option<(Option<Seq<u8>>, Seq<u8>, BuildKind)> {
    if spec_incr_suffix().is_suffix_of(label) {
        let body = label.subrange(0, label.len() - 3);
        if has_byte(body, 45) && has_byte(
            body.subrange(first_index(body, 45) + 1, body.len() as int),
            45,
        ) {
            let i = first_index(body, 45);
            let tail = body.subrange(i + 1, body.len() as int);
            let j = first_index(tail, 45);
            Some(
                (
                    Some(body.subrange(0, i + 1 + j)),
                    body.subrange(i + 1 + j + 1, body.len() as int),
                    BuildKind::Incremental,
                ),
            )
        } else {
            None
        }
    } else if spec_clean_suffix().is_suffix_of(label) {
        Some((None, label.subrange(0, label.len() - 3), BuildKind::Clean))
    } else {
        None
    }
}

/// A decoded build identity.
pub struct DecodedLabel {
    /// The parent build's label; absent for a clean build.
    pub parent: Option<Vec<u8>>,
    /// The configuration identifier the build used.
    pub config_id: Vec<u8>,
    /// Whether the build was clean or incremental.
    pub kind: BuildKind,
}

/// Decodes a branch label back into its build identity.  A label ending in
/// the incremental suffix splits off its first two hyphen-delimited tokens
/// as the parent label; a label ending in the clean suffix has no parent;
/// anything else is rejected.
pub fn decode_label(label: &[u8]) -> (r: Result<DecodedLabel, LabelFormatError>)
    ensures
        match r {
            Ok(d) => {
                &&& spec_decode(label@) is Some
                &&& d.kind == spec_decode(label@).unwrap().2
                &&& d.config_id@ == spec_decode(label@).unwrap().1
                &&& match d.parent {
                    Some(p) => spec_decode(label@).unwrap().0 == Some(p@),
                    None => spec_decode(label@).unwrap().0 is None,
                }
            },
            Err(_) => spec_decode(label@) is None,
        },
{
    let isuf = incr_suffix();
    let csuf = clean_suffix();
    if ends_with(label, isuf.as_slice()) {
        let body = subvec(label, 0, label.len() - 3);
        proof {
            assert(body@ =~= label@.subrange(0, label@.len() - 3));
        }
        match find_byte(body.as_slice(), 45) {
            Some(i) => {
                proof {
                    lemma_first_index(body@, 45);
                }
                let tail = subvec(body.as_slice(), i + 1, body.len());
                match find_byte(tail.as_slice(), 45) {
                    Some(j) => {
                        proof {
                            lemma_first_index(tail@, 45);
                        }
                        let parent = subvec(body.as_slice(), 0, i + 1 + j);
                        let config_id = subvec(body.as_slice(), i + 1 + j + 1, body.len());
                        Ok(
                            DecodedLabel {
                                parent: Some(parent),
                                config_id,
                                kind: BuildKind::Incremental,
                            },
                        )
                    },
                    None => Err(LabelFormatError::TooFewTokens),
                }
            },
            None => Err(LabelFormatError::TooFewTokens),
        }
    } else if ends_with(label, csuf.as_slice()) {
        let config_id = subvec(label, 0, label.len() - 3);
        proof {
            assert(config_id@ =~= label@.subrange(0, label@.len() - 3));
        }
        Ok(DecodedLabel { parent: None, config_id, kind: BuildKind::Clean })
    } else {
        Err(LabelFormatError::NoKindSuffix)
    }
}

/// A LABEL ROUND-TRIPS FOR CLEAN BUILDS: decoding an encoded clean label
/// recovers the no-parent sentinel, the identifier the encoder produced,
/// and the clean kind — for every identifier, in particular for every
/// identifier derived from a configuration path.
pub proof fn lemma_clean_label_round_trip(id: Seq<u8>)
    ensures
        spec_decode(spec_clean_label(id)) == Some(
            (None::<Seq<u8>>, id, BuildKind::Clean),
        ),
{
    let label = spec_clean_label(id);
    assert(label.len() == id.len() + 3);
    assert(!spec_incr_suffix().is_suffix_of(label)) by {
        assert(label[label.len() - 2] == 99);
        if spec_incr_suffix().is_suffix_of(label) {
            assert(label.subrange(label.len() - 3, label.len() as int)[1] == 105);
        }
    }
    assert(spec_clean_suffix().is_suffix_of(label)) by {
        assert(label.subrange(label.len() - 3, label.len() as int) =~= spec_clean_suffix());
    }
    assert(label.subrange(0, label.len() - 3) =~= id);
}

/// DERIVED IDENTIFIERS ROUND-TRIP: for every configuration path the
/// encoder accepts, decoding the clean label built from the derived
/// identifier recovers exactly that identifier.
pub proof fn lemma_path_identifier_round_trip(path: Seq<u8>, id: Seq<u8>)
    requires
        spec_config_name(path) == Some(id),
    ensures
        spec_decode(spec_clean_label(id)) == Some(
            (None::<Seq<u8>>, id, BuildKind::Clean),
        ),
{
    lemma_clean_label_round_trip(id);
}

/// A LABEL ROUND-TRIPS FOR INCREMENTAL BUILDS: for every two-token parent
/// label (exactly one hyphen) and every configuration identifier, decoding
/// the encoded incremental label recovers the same triple.
pub proof fn lemma_incremental_label_round_trip(parent: Seq<u8>, config_id: Seq<u8>)
    requires
        count_byte(parent, 45) == 1,
    ensures
        spec_decode(spec_incr_label(parent, config_id)) == Some(
            (Some(parent), config_id, BuildKind::Incremental),
        ),
{
    let label = spec_incr_label(parent, config_id);
    let body0 = parent + seq![45u8] + config_id;
    assert(label.len() == parent.len() + 1 + config_id.len() + 3);
    assert(spec_incr_suffix().is_suffix_of(label)) by {
        assert(label.subrange(label.len() - 3, label.len() as int) =~= spec_incr_suffix());
    }
    let body = label.subrange(0, label.len() - 3);
    assert(body =~= body0);
    lemma_count_one(parent, 45);
    lemma_first_index(parent, 45);
    let p = first_index(parent, 45);
    assert(body[p] == 45);
    assert forall|j: int| 0 <= j < p implies body[j] != 45 by {
        assert(body[j] == parent[j]);
    }
    lemma_first_index_is(body, 45, p);
    let tail = body.subrange(p + 1, body.len() as int);
    let q = parent.len() - 1 - p;
    assert(tail[q] == body[parent.len() as int]);
    assert(body[parent.len() as int] == 45);
    assert forall|j: int| 0 <= j < q implies tail[j] != 45 by {
        assert(tail[j] == parent[p + 1 + j]);
    }
    lemma_first_index_is(tail, 45, q);
    assert(body.subrange(0, p + 1 + q) =~= parent);
    assert(body.subrange(p + 1 + q + 1, body.len() as int) =~= config_id);
}

/// The parent column a branch name yields in the report: the sentinel for
/// a clean build, else the branch-base token before the first hyphen.
pub open spec fn spec_extract_parent(name: Seq<u8>) -> Seq<u8> {
    if seq![99u8, 98u8].is_suffix_of(name) {
        spec_no_parent()
    } else if has_byte(name, 45) {
        name.subrange(0, first_index(name, 45))
    } else {
        name
    }
}

/// The parent identifier recorded in a branch name: the no-parent sentinel
/// when the name marks a clean build, else the name's first
/// hyphen-delimited token.
pub fn extract_parent_from_bname(name: &[u8]) -> (r: Vec<u8>)
    ensures
        r@ == spec_extract_parent(name@),
{
    let mut cb: Vec<u8> = Vec::new();
    cb.push(99);
    cb.push(98);
    proof {
        assert(cb@ =~= seq![99u8, 98u8]);
    }
    if ends_with(name, cb.as_slice()) {
        no_parent()
    } else {
        match find_byte(name, 45) {
            Some(i) => {
                proof {
                    lemma_first_index(name@, 45);
                }
                subvec(name, 0, i)
            },
            None => to_vec(name),
        }
    }
}

/// The configuration identifier recorded in a branch name, by decoding the
/// name as a label.
pub fn extract_config_from_bname(name: &[u8]) -> (r: Result<Vec<u8>, LabelFormatError>)
    ensures
        match r {
            Ok(id) => spec_decode(name@) is Some && id@ == spec_decode(name@).unwrap().1,
            Err(_) => spec_decode(name@) is None,
        },
{
    match decode_label(name) {
        Ok(d) => Ok(d.config_id),
        Err(e) => Err(e),
    }
}

} // verus!
