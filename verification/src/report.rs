//! Experiment reporting.
//!
//! Every recorded build attempt is reconstructed from its branch label and
//! reduced to one row of a comma-separated table correlating
//! configuration-change magnitude with incremental-build cost.  A build's
//! record derives from marker observations: the presence of the error
//! marker means failure, the time marker's text is the elapsed time, and a
//! missing or unreadable time is a sentinel, never a crash.  A label that
//! does not decode is skipped, not fatal.

use vstd::prelude::*;
use crate::bytes::{append_bytes, count_byte, spec_decimal, to_vec, trim, usize_to_decimal};
use crate::codec::{
    decode_label, encode_clean_label, extract_parent_from_bname, no_parent, spec_clean_label,
    spec_decode, spec_extract_parent, spec_no_parent, BuildKind,
};

verus! {

/// One build attempt, reconstructed from the lineage: its label, whether
/// it succeeded, the elapsed-time text (absent when unknown), and — for
/// incremental builds — how many options its configuration added, removed
/// and changed against its parent's.
pub struct BuildRecord {
    /// The branch label naming the attempt.
    pub label: Vec<u8>,
    /// Whether the build succeeded: no error marker was left behind.
    pub success: bool,
    /// The elapsed-time text from the time marker, when present and
    /// readable.
    pub elapsed: Option<Vec<u8>>,
    /// Added, removed and changed option counts, for incremental records.
    pub diff_counts: Option<(usize, usize, usize)>,
}

impl BuildRecord {
    /// The time this record shows: its elapsed text when the build
    /// succeeded and the time was known, else the `--` sentinel.
    pub open spec fn spec_time_cell(self) -> Seq<u8> {
        if self.success && self.elapsed is Some {
            self.elapsed.unwrap()@
        } else {
            spec_no_parent()
        }
    }
}

/// Readable elapsed-time text: at least one digit, only digits and at
/// most one decimal point.
pub open spec fn spec_is_time_text(s: Seq<u8>) -> bool {
    &&& forall|i: int| 0 <= i < s.len() ==> (48 <= #[trigger] s[i] <= 57 || s[i] == 46)
    &&& count_byte(s, 46) <= 1
    &&& exists|i: int| 0 <= i < s.len() && 48 <= #[trigger] s[i] <= 57
}

/// Whether `s` reads as elapsed-time text.
pub fn is_time_text(s: &[u8]) -> (r: bool)
    ensures
        r == spec_is_time_text(s@),
{
    let mut dots: usize = 0;
    let mut saw_digit = false;
    let mut i: usize = 0;
    while i < s.len()
        invariant
            i <= s@.len(),
            dots == count_byte(s@.subrange(0, i as int), 46),
            dots <= i,
            forall|j: int| 0 <= j < i ==> (48 <= #[trigger] s@[j] <= 57 || s@[j] == 46),
            saw_digit == exists|j: int| 0 <= j < i && 48 <= #[trigger] s@[j] <= 57,
        decreases s@.len() - i,
    {
        let b = s[i];
        proof {
            assert(s@.subrange(0, i + 1).drop_last() =~= s@.subrange(0, i as int));
            assert(s@.subrange(0, i + 1).last() == s@[i as int]);
        }
        if b == 46 {
            dots += 1;
        } else if b < 48 || b > 57 {
            proof {
                assert(!(48 <= s@[i as int] <= 57 || s@[i as int] == 46));
            }
            return false;
        } else {
            proof {
                assert(48 <= s@[i as int] <= 57);
            }
            saw_digit = true;
        }
        i += 1;
    }
    proof {
        assert(s@.subrange(0, s@.len() as int) =~= s@);
    }
    dots <= 1 && saw_digit
}

/// The elapsed text a time marker yields: its trimmed contents when they
/// read as a time, nothing when the marker is absent or unreadable.
pub open spec fn spec_elapsed_of(marker: Option<Seq<u8>>) -> Option<Seq<u8>> {
    match marker {
        None => None,
        Some(t) => if spec_is_time_text(crate::bytes::spec_trim(t)) {
            Some(crate::bytes::spec_trim(t))
        } else {
            None
        },
    }
}

/// Derives one build attempt's record from what the working tree shows:
/// the error marker's presence decides failure, the time marker's trimmed
/// text is the elapsed time when it reads as one, and anything else
/// counts as unknown.
pub fn make_record(
    label: Vec<u8>,
    error_marker_present: bool,
    time_marker: Option<Vec<u8>>,
    diff_counts: Option<(usize, usize, usize)>,
) -> (r: BuildRecord)
    ensures
        r.label == label,
        r.success == !error_marker_present,
        r.elapsed matches Some(e) ==> spec_elapsed_of(
            match time_marker {
                Some(t) => Some(t@),
                None => None,
            },
        ) == Some(e@),
        r.elapsed is None ==> spec_elapsed_of(
            match time_marker {
                Some(t) => Some(t@),
                None => None,
            },
        ) is None,
        r.diff_counts == diff_counts,
{
    let elapsed = match time_marker {
        None => None,
        Some(t) => {
            let trimmed = trim(t.as_slice());
            if is_time_text(trimmed.as_slice()) {
                Some(trimmed)
            } else {
                None
            }
        },
    };
    BuildRecord { label, success: !error_marker_present, elapsed, diff_counts }
}

/// `"name,parent,clean,incremental,add,remove,change"`: the report header.
pub open spec fn spec_header() -> Seq<u8> {
    seq![
        110u8, 97u8, 109u8, 101u8, 44u8, 112u8, 97u8, 114u8, 101u8, 110u8, 116u8, 44u8, 99u8,
        108u8, 101u8, 97u8, 110u8, 44u8, 105u8, 110u8, 99u8, 114u8, 101u8, 109u8, 101u8, 110u8,
        116u8, 97u8, 108u8, 44u8, 97u8, 100u8, 100u8, 44u8, 114u8, 101u8, 109u8, 111u8, 118u8,
        101u8, 44u8, 99u8, 104u8, 97u8, 110u8, 103u8, 101u8,
    ]
}

/// Builds the report header as bytes.
pub fn header() -> (r: Vec<u8>)
    ensures
        r@ == spec_header(),
{
    let mut r: Vec<u8> = Vec::new();
    r.push(110);
    r.push(97);
    r.push(109);
    r.push(101);
    r.push(44);
    r.push(112);
    r.push(97);
    r.push(114);
    r.push(101);
    r.push(110);
    r.push(116);
    r.push(44);
    r.push(99);
    r.push(108);
    r.push(101);
    r.push(97);
    r.push(110);
    r.push(44);
    r.push(105);
    r.push(110);
    r.push(99);
    r.push(114);
    r.push(101);
    r.push(109);
    r.push(101);
    r.push(110);
    r.push(116);
    r.push(97);
    r.push(108);
    r.push(44);
    r.push(97);
    r.push(100);
    r.push(100);
    r.push(44);
    r.push(114);
    r.push(101);
    r.push(109);
    r.push(111);
    r.push(118);
    r.push(101);
    r.push(44);
    r.push(99);
    r.push(104);
    r.push(97);
    r.push(110);
    r.push(103);
    r.push(101);
    proof {
        assert(r@ =~= spec_header());
    }
    r
}

/// The clean-build time shown for a label: the first record carrying the
/// label decides; an absent record yields the sentinel.
pub open spec fn spec_lookup_time(records: Seq<BuildRecord>, label: Seq<u8>) -> Seq<u8>
    decreases records.len(),
{
    if records.len() == 0 {
        spec_no_parent()
    } else if records[0].label@ == label {
        records[0].spec_time_cell()
    } else {
        spec_lookup_time(records.drop_first(), label)
    }
}

/// The three count columns of an incremental row, or sentinels when the
/// counts are unknown.
pub open spec fn spec_counts_cells(c: Option<(usize, usize, usize)>) -> Seq<u8> {
    match c {
        Some(t) => spec_decimal(t.0 as nat) + seq![44u8] + spec_decimal(t.1 as nat) + seq![44u8]
            + spec_decimal(t.2 as nat),
        None => spec_no_parent() + seq![44u8] + spec_no_parent() + seq![44u8] + spec_no_parent(),
    }
}

/// The row a record yields: for a clean build its name and time with
/// sentinels in the incremental columns; for an incremental build its
/// name, parent identifier, the parent's own clean-build time looked up
/// among all records, its own time, and the three diff counts.  A label
/// that does not decode yields no row.
pub open spec fn spec_row(records: Seq<BuildRecord>, r: BuildRecord) -> Seq<u8> {
    match spec_decode(r.label@) {
        None => Seq::empty(),
        Some(t) => {
            if t.2 is Clean {
                t.1 + seq![44u8] + spec_no_parent() + seq![44u8] + r.spec_time_cell()
                    + seq![44u8] + spec_no_parent() + seq![44u8] + spec_no_parent() + seq![44u8]
                    + spec_no_parent() + seq![44u8] + spec_no_parent()
            } else {
                let parent_ident = spec_extract_parent(r.label@);
                t.1 + seq![44u8] + parent_ident + seq![44u8] + spec_lookup_time(
                    records,
                    spec_clean_label(parent_ident),
                ) + seq![44u8] + r.spec_time_cell() + seq![44u8] + spec_counts_cells(
                    r.diff_counts,
                )
            }
        },
    }
}

/// The rows of the first `prefix` records, each decodable one followed by
/// a newline; parent times are looked up among `all`.
pub open spec fn spec_report_rows(prefix: Seq<BuildRecord>, all: Seq<BuildRecord>) -> Seq<u8>
    decreases prefix.len(),
{
    if prefix.len() == 0 {
        Seq::empty()
    } else {
        spec_report_rows(prefix.drop_last(), all) + (if spec_decode(prefix.last().label@)
            is Some {
            spec_row(all, prefix.last()) + seq![10u8]
        } else {
            Seq::empty()
        })
    }
}

/// The whole report: the header line, then one row per decodable record.
pub open spec fn spec_report(records: Seq<BuildRecord>) -> Seq<u8> {
    spec_header() + seq![10u8] + spec_report_rows(records, records)
}

/// The time cell a record shows.
fn time_cell(r: &BuildRecord) -> (t: Vec<u8>)
    ensures
        t@ == r.spec_time_cell(),
{
    if r.success {
        match &r.elapsed {
            Some(e) => to_vec(e.as_slice()),
            None => no_parent(),
        }
    } else {
        no_parent()
    }
}

/// The first record carrying `label` decides the shown time.
fn lookup_time(records: &Vec<BuildRecord>, label: &[u8]) -> (t: Vec<u8>)
    ensures
        t@ == spec_lookup_time(records@, label@),
{
    let mut i: usize = 0;
    proof {
        assert(records@.subrange(0, records@.len() as int) =~= records@);
    }
    while i < records.len()
        invariant
            i <= records@.len(),
            spec_lookup_time(records@, label@) == spec_lookup_time(
                records@.subrange(i as int, records@.len() as int),
                label@,
            ),
        decreases records@.len() - i,
    {
        let ghost rest = records@.subrange(i as int, records@.len() as int);
        proof {
            assert(rest[0] == records@[i as int]);
            assert(rest.drop_first() =~= records@.subrange(i + 1, records@.len() as int));
        }
        if crate::bytes::bytes_eq(records[i].label.as_slice(), label) {
            return time_cell(&records[i]);
        }
        i += 1;
    }
    proof {
        assert(records@.subrange(records@.len() as int, records@.len() as int)
            =~= Seq::<BuildRecord>::empty());
    }
    no_parent()
}

/// The three count columns of an incremental row.
fn counts_cells(c: &Option<(usize, usize, usize)>) -> (r: Vec<u8>)
    ensures
        r@ == spec_counts_cells(*c),
{
    match c {
        Some(t) => {
            let mut r = usize_to_decimal(t.0);
            r.push(44);
            let b = usize_to_decimal(t.1);
            append_bytes(&mut r, b.as_slice());
            r.push(44);
            let d = usize_to_decimal(t.2);
            append_bytes(&mut r, d.as_slice());
            proof {
                assert(r@ =~= spec_counts_cells(*c));
            }
            r
        },
        None => {
            let mut r = no_parent();
            r.push(44);
            let b = no_parent();
            append_bytes(&mut r, b.as_slice());
            r.push(44);
            append_bytes(&mut r, b.as_slice());
            proof {
                assert(r@ =~= spec_counts_cells(*c));
            }
            r
        },
    }
}

/// Emits the whole report: the header, then one row per recorded build
/// whose label decodes — a failed or unreadable attempt still contributes
/// its row, showing sentinels in place of times.
pub fn report(records: &Vec<BuildRecord>) -> (out: Vec<u8>)
    ensures
        out@ == spec_report(records@),
{
    let mut out = header();
    out.push(10);
    let mut i: usize = 0;
    proof {
        assert(out@ =~= spec_header() + seq![10u8] + spec_report_rows(
            records@.subrange(0, 0),
            records@,
        ));
    }
    while i < records.len()
        invariant
            i <= records@.len(),
            out@ == spec_header() + seq![10u8] + spec_report_rows(
                records@.subrange(0, i as int),
                records@,
            ),
        decreases records@.len() - i,
    {
        let ghost prefix = records@.subrange(0, i as int);
        let ghost next_prefix = records@.subrange(0, i + 1);
        proof {
            assert(next_prefix.drop_last() =~= prefix);
            assert(next_prefix.last() == records@[i as int]);
        }
        let rec = &records[i];
        match decode_label(rec.label.as_slice()) {
            Err(_) => {
                proof {
                    assert(out@ =~= spec_header() + seq![10u8] + spec_report_rows(
                        next_prefix,
                        records@,
                    ));
                }
            },
            Ok(d) => {
                let mut row = d.config_id;
                row.push(44);
                match d.kind {
                    BuildKind::Clean => {
                        let np = no_parent();
                        append_bytes(&mut row, np.as_slice());
                        row.push(44);
                        let tc = time_cell(rec);
                        append_bytes(&mut row, tc.as_slice());
                        row.push(44);
                        append_bytes(&mut row, np.as_slice());
                        row.push(44);
                        append_bytes(&mut row, np.as_slice());
                        row.push(44);
                        append_bytes(&mut row, np.as_slice());
                        row.push(44);
                        append_bytes(&mut row, np.as_slice());
                    },
                    BuildKind::Incremental => {
                        let pid = extract_parent_from_bname(rec.label.as_slice());
                        append_bytes(&mut row, pid.as_slice());
                        row.push(44);
                        let parent_label = encode_clean_label(pid.as_slice());
                        let pt = lookup_time(records, parent_label.as_slice());
                        append_bytes(&mut row, pt.as_slice());
                        row.push(44);
                        let tc = time_cell(rec);
                        append_bytes(&mut row, tc.as_slice());
                        row.push(44);
                        let cc = counts_cells(&rec.diff_counts);
                        append_bytes(&mut row, cc.as_slice());
                    },
                }
                proof {
                    assert(row@ =~= spec_row(records@, records@[i as int]));
                }
                append_bytes(&mut out, row.as_slice());
                out.push(10);
                proof {
                    assert(out@ =~= spec_header() + seq![10u8] + spec_report_rows(
                        next_prefix,
                        records@,
                    ));
                }
            },
        }
        i += 1;
    }
    proof {
        assert(records@.subrange(0, records@.len() as int) =~= records@);
    }
    out
}

} // verus!
