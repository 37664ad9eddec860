//! Canonical build configurations.
//!
//! A configuration is a mapping from option name to option value, built by
//! parsing a build-option file line by line: a commented line carrying the
//! "not set" marker yields the value `n`, a `name=value` line yields that
//! pair, and every other line is ignored.  Duplicate names keep the last
//! occurrence.  The mapping can be re-serialized into the same canonical
//! line forms.

use vstd::prelude::*;
use crate::bytes::{
    append_bytes, bytes_eq, ends_with, find_byte, first_index, has_byte, join_with,
    lemma_first_index, lemma_first_index_is, lemma_has_byte_concat, lemma_split_of_join,
    lemma_split_parts, spec_join, spec_split, split_on, starts_with, subvec, to_vec, views_of,
};

verus! {

/// Failure of configuration parsing: a non-comment, non-empty line without
/// the `=` separator, or a commented "not set" line without the expected
/// option prefix or suffix.
#[derive(Clone, Copy, PartialEq, Eq, Debug)]
pub enum ConfigError {
    MalformedLine,
}

/// The mapping that a sequence of (key, value) entries denotes; a later
/// entry overrides an earlier one with the same key.
pub open spec fn map_of_entries<V>(es: Seq<(Seq<u8>, V)>) -> Map<Seq<u8>, V>
    decreases es.len(),
{
    if es.len() == 0 {
        Map::empty()
    } else {
        map_of_entries(es.drop_last()).insert(es.last().0, es.last().1)
    }
}

/// No two entries share a key.
pub open spec fn unique_keys<V>(es: Seq<(Seq<u8>, V)>) -> bool {
    forall|i: int, j: int| 0 <= i < j < es.len() ==> (#[trigger] es[i]).0 != (#[trigger] es[j]).0
}

/// A key is in the mapping exactly when some entry carries it.
pub proof fn lemma_map_domain<V>(es: Seq<(Seq<u8>, V)>, k: Seq<u8>)
    ensures
        map_of_entries(es).dom().contains(k) <==> exists|i: int|
            0 <= i < es.len() && (#[trigger] es[i]).0 == k,
    decreases es.len(),
{
    if es.len() > 0 {
        lemma_map_domain(es.drop_last(), k);
        if map_of_entries(es).dom().contains(k) {
            if k == es.last().0 {
                assert(es[es.len() - 1].0 == k);
            } else {
                let i = choose|i: int| 0 <= i < es.len() - 1 && (#[trigger] es.drop_last()[i]).0 == k;
                assert(es[i].0 == k);
            }
        }
        if exists|i: int| 0 <= i < es.len() && (#[trigger] es[i]).0 == k {
            let i = choose|i: int| 0 <= i < es.len() && (#[trigger] es[i]).0 == k;
            if i < es.len() - 1 {
                assert(es.drop_last()[i].0 == k);
            }
        }
    }
}

/// With unique keys, each entry's value is the mapping's value at its key.
pub proof fn lemma_map_at_entry<V>(es: Seq<(Seq<u8>, V)>, i: int)
    requires
        unique_keys(es),
        0 <= i < es.len(),
    ensures
        map_of_entries(es).contains_pair(es[i].0, es[i].1),
    decreases es.len(),
{
    if i == es.len() - 1 {
    } else {
        assert(unique_keys(es.drop_last()));
        assert(es.drop_last()[i] == es[i]);
        lemma_map_at_entry(es.drop_last(), i);
        assert(es[i].0 != es.last().0);
    }
}

/// With unique keys, the mapping holds exactly as many keys as there are
/// entries.
pub proof fn lemma_map_len<V>(es: Seq<(Seq<u8>, V)>)
    requires
        unique_keys(es),
    ensures
        map_of_entries(es).dom().finite(),
        map_of_entries(es).dom().len() == es.len(),
    decreases es.len(),
{
    if es.len() > 0 {
        assert(unique_keys(es.drop_last()));
        lemma_map_len(es.drop_last());
        lemma_map_domain(es.drop_last(), es.last().0);
        assert(!map_of_entries(es.drop_last()).dom().contains(es.last().0)) by {
            if map_of_entries(es.drop_last()).dom().contains(es.last().0) {
                let i = choose|i: int|
                    0 <= i < es.len() - 1 && (#[trigger] es.drop_last()[i]).0 == es.last().0;
                assert(es[i].0 == es.last().0);
            }
        }
    }
}

/// A canonical configuration: option names mapped to option values, with
/// each name held once.
pub struct Configuration {
    entries: Vec<(Vec<u8>, Vec<u8>)>,
}

impl View for Configuration {
    type V = Map<Seq<u8>, Seq<u8>>;

    open spec fn view(&self) -> Map<Seq<u8>, Seq<u8>> {
        map_of_entries(self.entries_view())
    }
}

impl Configuration {
    /// The entries in insertion order, as byte sequences.
    pub closed spec fn entries_view(self) -> Seq<(Seq<u8>, Seq<u8>)> {
        self.entries@.map_values(|p: (Vec<u8>, Vec<u8>)| (p.0@, p.1@))
    }

    /// Well-formed: no option name occurs twice.
    pub open spec fn wf(self) -> bool {
        unique_keys(self.entries_view())
    }

    /// An empty configuration.
    pub fn new() -> (r: Configuration)
        ensures
            r.wf(),
            r@ == Map::<Seq<u8>, Seq<u8>>::empty(),
            r.entries_view() == Seq::<(Seq<u8>, Seq<u8>)>::empty(),
    {
        let r = Configuration { entries: Vec::new() };
        proof {
            assert(r.entries_view() =~= Seq::<(Seq<u8>, Seq<u8>)>::empty());
        }
        r
    }

    /// How many options the configuration holds.
    pub fn len(&self) -> (r: usize)
        requires
            self.wf(),
        ensures
            r == self@.dom().len(),
            r == self.entries_view().len(),
    {
        proof {
            lemma_map_len(self.entries_view());
        }
        self.entries.len()
    }

    /// The entry at a position, for walking the configuration.
    pub fn entry_at(&self, i: usize) -> (r: (&Vec<u8>, &Vec<u8>))
        requires
            i < self.entries_view().len(),
        ensures
            r.0@ == self.entries_view()[i as int].0,
            r.1@ == self.entries_view()[i as int].1,
    {
        let p = &self.entries[i];
        (&p.0, &p.1)
    }

    /// Index of the entry holding `k`, if any.
    fn position_of(&self, k: &[u8]) -> (r: Option<usize>)
        ensures
            match r {
                Some(i) => i < self.entries_view().len() && self.entries_view()[i as int].0 == k@,
                None => forall|i: int|
                    0 <= i < self.entries_view().len() ==> (#[trigger] self.entries_view()[i]).0
                        != k@,
            },
    {
        let mut i: usize = 0;
        while i < self.entries.len()
            invariant
                0 <= i <= self.entries_view().len(),
                self.entries_view().len() == self.entries@.len(),
                forall|j: int| 0 <= j < i ==> (#[trigger] self.entries_view()[j]).0 != k@,
            decreases self.entries@.len() - i,
        {
            if bytes_eq(self.entries[i].0.as_slice(), k) {
                return Some(i);
            }
            i += 1;
        }
        None
    }

    /// The value held for `k`, if any.
    pub fn get(&self, k: &[u8]) -> (r: Option<&Vec<u8>>)
        requires
            self.wf(),
        ensures
            match r {
                Some(v) => self@.dom().contains(k@) && v@ == self@[k@],
                None => !self@.dom().contains(k@),
            },
    {
        proof {
            lemma_map_domain(self.entries_view(), k@);
        }
        match self.position_of(k) {
            Some(i) => {
                proof {
                    lemma_map_at_entry(self.entries_view(), i as int);
                }
                Some(&self.entries[i].1)
            },
            None => None,
        }
    }

    /// Whether the configuration holds the option `k`.
    pub fn contains_key(&self, k: &[u8]) -> (r: bool)
        requires
            self.wf(),
        ensures
            r == self@.dom().contains(k@),
    {
        match self.get(k) {
            Some(_) => true,
            None => false,
        }
    }

    /// Sets `k` to `v`; a prior value for `k` is replaced.
    pub fn insert(&mut self, k: Vec<u8>, v: Vec<u8>)
        requires
            old(self).wf(),
        ensures
            final(self).wf(),
            final(self)@ == old(self)@.insert(k@, v@),
            final(self).entries_view() == update_entries(old(self).entries_view(), k@, v@),
    {
        let ghost old_ev = self.entries_view();
        match self.position_of(k.as_slice()) {
            Some(i) => {
                self.entries.remove(i);
                self.entries.insert(i, (k, v));
                proof {
                    assert(self.entries_view() =~= old_ev.update(i as int, (k@, v@)));
                    lemma_insert_update(old_ev, i as int, k@, v@);
                }
            },
            None => {
                self.entries.push((k, v));
                proof {
                    assert(self.entries_view() =~= old_ev.push((k@, v@)));
                    assert(self.entries_view().drop_last() =~= old_ev);
                }
            },
        }
    }
}

/// `"# CONFIG_"`: the prefix of a disabled-option line.
pub open spec fn spec_not_set_prefix() -> Seq<u8> {
    seq![35u8, 32u8, 67u8, 79u8, 78u8, 70u8, 73u8, 71u8, 95u8]
}

/// `"is not set"`: the marker that makes a comment line a disabled option.
pub open spec fn spec_not_set_marker() -> Seq<u8> {
    seq![105u8, 115u8, 32u8, 110u8, 111u8, 116u8, 32u8, 115u8, 101u8, 116u8]
}

/// `" is not set"`: the suffix stripped from a disabled-option line.
pub open spec fn spec_not_set_suffix() -> Seq<u8> {
    seq![32u8] + spec_not_set_marker()
}

/// `"n"`: the value a disabled option carries.
pub open spec fn spec_value_n() -> Seq<u8> {
    seq![110u8]
}

/// Builds `"# CONFIG_"` as bytes.
pub fn not_set_prefix() -> (r: Vec<u8>)
    ensures
        r@ == spec_not_set_prefix(),
{
    let mut r: Vec<u8> = Vec::new();
    r.push(35);
    r.push(32);
    r.push(67);
    r.push(79);
    r.push(78);
    r.push(70);
    r.push(73);
    r.push(71);
    r.push(95);
    proof {
        assert(r@ =~= spec_not_set_prefix());
    }
    r
}

/// Builds `"is not set"` as bytes.
pub fn not_set_marker() -> (r: Vec<u8>)
    ensures
        r@ == spec_not_set_marker(),
{
    let mut r: Vec<u8> = Vec::new();
    r.push(105);
    r.push(115);
    r.push(32);
    r.push(110);
    r.push(111);
    r.push(116);
    r.push(32);
    r.push(115);
    r.push(101);
    r.push(116);
    proof {
        assert(r@ =~= spec_not_set_marker());
    }
    r
}

/// Builds `" is not set"` as bytes.
pub fn not_set_suffix() -> (r: Vec<u8>)
    ensures
        r@ == spec_not_set_suffix(),
{
    let mut r: Vec<u8> = Vec::new();
    r.push(32);
    let marker = not_set_marker();
    crate::bytes::append_bytes(&mut r, marker.as_slice());
    proof {
        assert(r@ =~= spec_not_set_suffix());
    }
    r
}

/// None of the fixed line pieces holds a newline or other surprises.
proof fn lemma_constants_plain()
    ensures
        !has_byte(spec_not_set_prefix(), 10),
        !has_byte(spec_not_set_suffix(), 10),
        !has_byte(spec_value_n(), 10),
        spec_not_set_prefix()[0] == 35,
        spec_not_set_suffix().len() == 11,
        spec_not_set_prefix().len() == 9,
{
    let p = spec_not_set_prefix();
    if has_byte(p, 10) {
        let i = choose|i: int| 0 <= i < p.len() && p[i] == 10;
        assert(p[0] != 10 && p[1] != 10 && p[2] != 10 && p[3] != 10 && p[4] != 10 && p[5] != 10
            && p[6] != 10 && p[7] != 10 && p[8] != 10);
        assert(false);
    }
    let s = spec_not_set_suffix();
    if has_byte(s, 10) {
        let i = choose|i: int| 0 <= i < s.len() && s[i] == 10;
        assert(s[0] != 10 && s[1] != 10 && s[2] != 10 && s[3] != 10 && s[4] != 10 && s[5] != 10
            && s[6] != 10 && s[7] != 10 && s[8] != 10 && s[9] != 10 && s[10] != 10);
        assert(false);
    }
    let n = spec_value_n();
    if has_byte(n, 10) {
        let i = choose|i: int| 0 <= i < n.len() && n[i] == 10;
        assert(n[0] != 10);
        assert(false);
    }
}

/// What one line of a build-option file denotes.
pub enum LineClass {
    /// A comment without the marker, or an empty line.
    Ignored,
    /// An option set to a value.
    Entry(Seq<u8>, Seq<u8>),
    /// A line the format does not allow.
    Malformed,
}

/// Classifies one line (without its newline).
pub open spec fn classify_line(line: Seq<u8>) -> LineClass {
    if line.len() > 0 && line[0] == 35 {
        if spec_not_set_marker().is_suffix_of(line) {
            if line.len() >= 20 && spec_not_set_prefix().is_prefix_of(line)
                && spec_not_set_suffix().is_suffix_of(line) {
                LineClass::Entry(line.subrange(9, line.len() - 11), spec_value_n())
            } else {
                LineClass::Malformed
            }
        } else {
            LineClass::Ignored
        }
    } else if line.len() == 0 {
        LineClass::Ignored
    } else if has_byte(line, 61) {
        LineClass::Entry(
            line.subrange(0, first_index(line, 61)),
            line.subrange(first_index(line, 61) + 1, line.len() as int),
        )
    } else {
        LineClass::Malformed
    }
}

/// The entries that a sequence of lines denotes, in order, or nothing when
/// some line is malformed.
pub open spec fn parse_entries(lines: Seq<Seq<u8>>) -> Option<Seq<(Seq<u8>, Seq<u8>)>>
    decreases lines.len(),
{
    if lines.len() == 0 {
        Some(Seq::empty())
    } else {
        match parse_entries(lines.drop_last()) {
            None => None,
            Some(es) => match classify_line(lines.last()) {
                LineClass::Malformed => None,
                LineClass::Ignored => Some(es),
                LineClass::Entry(k, v) => Some(es.push((k, v))),
            },
        }
    }
}

/// The entries that a whole build-option file denotes.
pub open spec fn spec_parse(contents: Seq<u8>) -> Option<Seq<(Seq<u8>, Seq<u8>)>> {
    parse_entries(spec_split(contents, 10))
}

/// An entry that re-serialization can represent faithfully: no newline
/// anywhere, and an enabled option's name free of `=` and not opening a
/// comment.
pub open spec fn entry_ok(k: Seq<u8>, v: Seq<u8>) -> bool {
    &&& !has_byte(k, 10)
    &&& !has_byte(v, 10)
    &&& (v != spec_value_n() ==> !has_byte(k, 61) && (k.len() == 0 || k[0] != 35))
}

/// The canonical line form of one entry.
pub open spec fn line_of_entry(e: (Seq<u8>, Seq<u8>)) -> Seq<u8> {
    if e.1 == spec_value_n() {
        spec_not_set_prefix() + e.0 + spec_not_set_suffix()
    } else {
        e.0 + seq![61u8] + e.1
    }
}

/// The canonical file contents of an entry sequence.
pub open spec fn spec_serialize(es: Seq<(Seq<u8>, Seq<u8>)>) -> Seq<u8> {
    spec_join(es.map_values(|e: (Seq<u8>, Seq<u8>)| line_of_entry(e)), 10)
}

/// The entry sequence after setting `k` to `v`: replaced in place when the
/// key is present, appended when it is not.
pub open spec fn update_entries<V>(es: Seq<(Seq<u8>, V)>, k: Seq<u8>, v: V) -> Seq<(Seq<u8>, V)> {
    if exists|i: int| 0 <= i < es.len() && (#[trigger] es[i]).0 == k {
        es.update(choose|i: int| 0 <= i < es.len() && (#[trigger] es[i]).0 == k, (k, v))
    } else {
        es.push((k, v))
    }
}

/// Replacing the entry at a key's position denotes inserting into the map.
pub proof fn lemma_insert_update<V>(es: Seq<(Seq<u8>, V)>, i: int, k: Seq<u8>, v: V)
    requires
        unique_keys(es),
        0 <= i < es.len(),
        es[i].0 == k,
    ensures
        unique_keys(es.update(i, (k, v))),
        map_of_entries(es.update(i, (k, v))) == map_of_entries(es).insert(k, v),
    decreases es.len(),
{
    let upd = es.update(i, (k, v));
    assert(unique_keys(upd)) by {
        assert forall|a: int, b: int| 0 <= a < b < upd.len() implies (#[trigger] upd[a]).0 != (
        #[trigger] upd[b]).0 by {
            assert(es[a].0 == upd[a].0 && es[b].0 == upd[b].0);
        }
    }
    if i == es.len() - 1 {
        assert(upd.drop_last() =~= es.drop_last());
    } else {
        assert(upd.last() == es.last());
        assert(upd.drop_last() =~= es.drop_last().update(i, (k, v)));
        assert(unique_keys(es.drop_last())) by {
            assert forall|a: int, b: int|
                0 <= a < b < es.drop_last().len() implies (#[trigger] es.drop_last()[a]).0 != (
            #[trigger] es.drop_last()[b]).0 by {
                assert(es[a].0 == es.drop_last()[a].0 && es[b].0 == es.drop_last()[b].0);
            }
        }
        assert(es.drop_last()[i] == es[i]);
        lemma_insert_update(es.drop_last(), i, k, v);
        assert(map_of_entries(upd) == map_of_entries(es.drop_last()).insert(k, v).insert(
            es.last().0,
            es.last().1,
        ));
        assert(es.last().0 != k);
        assert(map_of_entries(es.drop_last()).insert(k, v).insert(es.last().0, es.last().1)
            =~= map_of_entries(es.drop_last()).insert(es.last().0, es.last().1).insert(k, v));
    }
}

/// Builds `"n"` as bytes.
pub fn value_n() -> (r: Vec<u8>)
    ensures
        r@ == spec_value_n(),
{
    let mut r: Vec<u8> = Vec::new();
    r.push(110);
    proof {
        assert(r@ =~= spec_value_n());
    }
    r
}

/// The executable mirror of `LineClass`.
enum ParsedLine {
    Ignored,
    Entry(Vec<u8>, Vec<u8>),
    Malformed,
}

/// Classifies one line (without its newline).
fn classify(line: &[u8]) -> (r: ParsedLine)
    ensures
        match r {
            ParsedLine::Ignored => classify_line(line@) is Ignored,
            ParsedLine::Entry(k, v) => classify_line(line@) == LineClass::Entry(k@, v@),
            ParsedLine::Malformed => classify_line(line@) is Malformed,
        },
{
    if line.len() > 0 && line[0] == 35 {
        let marker = not_set_marker();
        if ends_with(line, marker.as_slice()) {
            let prefix = not_set_prefix();
            let suffix = not_set_suffix();
            if line.len() >= 20 && starts_with(line, prefix.as_slice()) && ends_with(
                line,
                suffix.as_slice(),
            ) {
                let k = subvec(line, 9, line.len() - 11);
                let v = value_n();
                ParsedLine::Entry(k, v)
            } else {
                ParsedLine::Malformed
            }
        } else {
            ParsedLine::Ignored
        }
    } else if line.len() == 0 {
        ParsedLine::Ignored
    } else {
        match find_byte(line, 61) {
            Some(i) => {
                proof {
                    lemma_first_index(line@, 61);
                }
                let k = subvec(line, 0, i);
                let v = subvec(line, i + 1, line.len());
                ParsedLine::Entry(k, v)
            },
            None => ParsedLine::Malformed,
        }
    }
}

/// An entry that classification produced from a newline-free line can be
/// re-serialized faithfully.
proof fn lemma_entry_from_line(line: Seq<u8>)
    requires
        !has_byte(line, 10),
    ensures
        classify_line(line) matches LineClass::Entry(k, v) ==> entry_ok(k, v),
{
    lemma_constants_plain();
    if line.len() > 0 && line[0] == 35 {
        if spec_not_set_marker().is_suffix_of(line) && line.len() >= 20
            && spec_not_set_prefix().is_prefix_of(line) && spec_not_set_suffix().is_suffix_of(
            line,
        ) {
            let k = line.subrange(9, line.len() - 11);
            assert(!has_byte(k, 10)) by {
                if has_byte(k, 10) {
                    let j = choose|j: int| 0 <= j < k.len() && k[j] == 10;
                    assert(line[9 + j] == 10);
                }
            }
            assert(entry_ok(k, spec_value_n()));
        }
    } else if line.len() > 0 && has_byte(line, 61) {
        lemma_first_index(line, 61);
        let fi = first_index(line, 61);
        let k = line.subrange(0, fi);
        let v = line.subrange(fi + 1, line.len() as int);
        assert(!has_byte(k, 10)) by {
            if has_byte(k, 10) {
                let j = choose|j: int| 0 <= j < k.len() && k[j] == 10;
                assert(line[j] == 10);
            }
        }
        assert(!has_byte(v, 10)) by {
            if has_byte(v, 10) {
                let j = choose|j: int| 0 <= j < v.len() && v[j] == 10;
                assert(line[fi + 1 + j] == 10);
            }
        }
        assert(!has_byte(k, 61)) by {
            if has_byte(k, 61) {
                let j = choose|j: int| 0 <= j < k.len() && k[j] == 61;
                assert(line[j] == 61);
            }
        }
        if k.len() > 0 {
            assert(k[0] == line[0]);
        }
        assert(entry_ok(k, v));
    }
}

/// A malformed line anywhere makes the whole file malformed.
proof fn lemma_parse_entries_malformed(lines: Seq<Seq<u8>>, i: int)
    requires
        0 <= i < lines.len(),
        classify_line(lines[i]) is Malformed,
    ensures
        parse_entries(lines) is None,
    decreases lines.len(),
{
    if i == lines.len() - 1 {
    } else {
        assert(lines.drop_last()[i] == lines[i]);
        lemma_parse_entries_malformed(lines.drop_last(), i);
    }
}

/// Parses the contents of a build-option file into a canonical
/// configuration.  Succeeds exactly when every line is an option line, a
/// comment or empty; duplicate option names keep the last occurrence.
pub fn readconfig(contents: &[u8]) -> (r: Result<Configuration, ConfigError>)
    ensures
        match r {
            Ok(c) => {
                &&& spec_parse(contents@) is Some
                &&& c.wf()
                &&& c.serializable()
                &&& c@ == map_of_entries(spec_parse(contents@).unwrap())
            },
            Err(_) => spec_parse(contents@) is None,
        },
{
    let lines = split_on(contents, 10);
    let ghost lviews = views_of(lines@);
    proof {
        lemma_split_parts(contents@, 10);
    }
    let mut c = Configuration::new();
    let mut i: usize = 0;
    while i < lines.len()
        invariant
            i <= lines@.len(),
            lviews == views_of(lines@),
            lviews == spec_split(contents@, 10),
            forall|j: int| 0 <= j < lviews.len() ==> !has_byte(#[trigger] lviews[j], 10),
            parse_entries(lviews.subrange(0, i as int)) is Some,
            c.wf(),
            c.serializable(),
            c@ == map_of_entries(parse_entries(lviews.subrange(0, i as int)).unwrap()),
        decreases lines@.len() - i,
    {
        let ghost prefix = lviews.subrange(0, i as int);
        let ghost next_prefix = lviews.subrange(0, i + 1);
        proof {
            assert(next_prefix.drop_last() =~= prefix);
            assert(next_prefix.last() == lviews[i as int]);
        }
        match classify(lines[i].as_slice()) {
            ParsedLine::Ignored => {
                proof {
                    assert(parse_entries(next_prefix) == parse_entries(prefix));
                }
            },
            ParsedLine::Malformed => {
                proof {
                    lemma_parse_entries_malformed(lviews, i as int);
                }
                return Err(ConfigError::MalformedLine);
            },
            ParsedLine::Entry(k, v) => {
                let ghost old_ev = c.entries_view();
                let ghost es = parse_entries(prefix).unwrap();
                proof {
                    lemma_entry_from_line(lviews[i as int]);
                    assert(parse_entries(next_prefix) == Some(es.push((k@, v@))));
                    assert(es.push((k@, v@)).drop_last() =~= es);
                }
                let ghost kv = (k@, v@);
                c.insert(k, v);
                proof {
                    assert(map_of_entries(es.push(kv)) == map_of_entries(es).insert(kv.0, kv.1));
                    lemma_update_keeps_serializable(old_ev, kv.0, kv.1);
                }
            },
        }
        i += 1;
    }
    proof {
        assert(lviews.subrange(0, lines@.len() as int) =~= lviews);
    }
    Ok(c)
}

/// Setting a faithful entry keeps every entry faithful.
proof fn lemma_update_keeps_serializable(es: Seq<(Seq<u8>, Seq<u8>)>, k: Seq<u8>, v: Seq<u8>)
    requires
        forall|i: int| 0 <= i < es.len() ==> entry_ok(
            (#[trigger] es[i]).0,
            es[i].1,
        ),
        entry_ok(k, v),
    ensures
        forall|i: int| 0 <= i < update_entries(es, k, v).len() ==> entry_ok(
            (#[trigger] update_entries(es, k, v)[i]).0,
            update_entries(es, k, v)[i].1,
        ),
{
    let upd = update_entries(es, k, v);
    assert forall|i: int| 0 <= i < upd.len() implies entry_ok(
        (#[trigger] upd[i]).0,
        upd[i].1,
    ) by {
        if !(i < es.len() && upd[i] == es[i]) {
            assert(upd[i] == (k, v));
        }
    }
}

impl Configuration {
    /// Every entry can be re-serialized faithfully.
    pub open spec fn serializable(self) -> bool {
        forall|i: int| 0 <= i < self.entries_view().len() ==> entry_ok(
            (#[trigger] self.entries_view()[i]).0,
            self.entries_view()[i].1,
        )
    }

    /// Renders the configuration in its canonical line forms.  Parsing the
    /// result recovers exactly this mapping.
    pub fn serialize(&self) -> (r: Vec<u8>)
        requires
            self.wf(),
            self.serializable(),
        ensures
            r@ == spec_serialize(self.entries_view()),
            spec_parse(r@) == Some(self.entries_view()),
            map_of_entries(spec_parse(r@).unwrap()) == self@,
    {
        let ghost ev = self.entries_view();
        let ghost line_of = |e: (Seq<u8>, Seq<u8>)| line_of_entry(e);
        let mut lines: Vec<Vec<u8>> = Vec::new();
        let mut i: usize = 0;
        proof {
            assert(views_of(lines@) =~= ev.subrange(0, 0).map_values(line_of));
        }
        while i < self.entries.len()
            invariant
                i <= ev.len(),
                ev == self.entries_view(),
                self.wf(),
                self.serializable(),
                ev.len() == self.entries@.len(),
                line_of == (|e: (Seq<u8>, Seq<u8>)| line_of_entry(e)),
                views_of(lines@) == ev.subrange(0, i as int).map_values(line_of),
            decreases self.entries@.len() - i,
        {
            let k = &self.entries[i].0;
            let v = &self.entries[i].1;
            let nvec = value_n();
            let line: Vec<u8>;
            if bytes_eq(v.as_slice(), nvec.as_slice()) {
                let mut l = not_set_prefix();
                append_bytes(&mut l, k.as_slice());
                let suf = not_set_suffix();
                append_bytes(&mut l, suf.as_slice());
                line = l;
            } else {
                let mut l = to_vec(k.as_slice());
                l.push(61);
                append_bytes(&mut l, v.as_slice());
                proof {
                    assert(l@ =~= k@ + seq![61u8] + v@);
                }
                line = l;
            }
            proof {
                assert(line@ == line_of_entry(ev[i as int]));
                assert(views_of(lines@.push(line)) =~= views_of(lines@) + seq![line@]);
                assert(ev.subrange(0, i + 1).map_values(line_of) =~= ev.subrange(
                    0,
                    i as int,
                ).map_values(line_of) + seq![line_of_entry(ev[i as int])]);
            }
            lines.push(line);
            i += 1;
        }
        proof {
            assert(ev.subrange(0, ev.len() as int) =~= ev);
        }
        let r = join_with(&lines, 10);
        proof {
            assert(views_of(lines@) == ev.map_values(line_of));
            lemma_parse_serialize_round_trip(ev);
        }
        r
    }
}

/// The canonical line of a faithful entry classifies back to that entry,
/// and holds no newline.
proof fn lemma_classify_line_of(e: (Seq<u8>, Seq<u8>))
    requires
        entry_ok(e.0, e.1),
    ensures
        classify_line(line_of_entry(e)) == LineClass::Entry(e.0, e.1),
        !has_byte(line_of_entry(e), 10),
{
    lemma_constants_plain();
    let line = line_of_entry(e);
    let k = e.0;
    let v = e.1;
    if v == spec_value_n() {
        assert(line == spec_not_set_prefix() + k + spec_not_set_suffix());
        assert(line.len() == 20 + k.len());
        assert(line[0] == 35);
        assert(!has_byte(line, 10)) by {
            lemma_has_byte_concat(spec_not_set_prefix() + k, spec_not_set_suffix(), 10);
            lemma_has_byte_concat(spec_not_set_prefix(), k, 10);
        }
        assert(line.subrange(line.len() - 10, line.len() as int) =~= spec_not_set_marker());
        assert(spec_not_set_marker().is_suffix_of(line));
        assert(line.subrange(0, 9) =~= spec_not_set_prefix());
        assert(spec_not_set_prefix().is_prefix_of(line));
        assert(line.subrange(line.len() - 11, line.len() as int) =~= spec_not_set_suffix());
        assert(spec_not_set_suffix().is_suffix_of(line));
        assert(line.subrange(9, line.len() - 11) =~= k);
    } else {
        assert(line == k + seq![61u8] + v);
        assert(!has_byte(line, 10)) by {
            lemma_has_byte_concat(k + seq![61u8], v, 10);
            lemma_has_byte_concat(k, seq![61u8], 10);
            if has_byte(seq![61u8], 10) {
                let j = choose|j: int| 0 <= j < 1 && seq![61u8][j] == 10;
                assert(false);
            }
        }
        assert(line.len() > 0);
        if k.len() > 0 {
            assert(line[0] == k[0]);
            assert(line[0] != 35);
        } else {
            assert(line[0] == 61);
        }
        assert(line[k.len() as int] == 61);
        assert forall|j: int| 0 <= j < k.len() implies line[j] != 61 by {
            assert(line[j] == k[j]);
        }
        lemma_first_index_is(line, 61, k.len() as int);
        assert(line.subrange(0, k.len() as int) =~= k);
        assert(line.subrange(k.len() as int + 1, line.len() as int) =~= v);
    }
}

/// The canonical lines of faithful entries parse back to those entries.
proof fn lemma_parse_of_lines(es: Seq<(Seq<u8>, Seq<u8>)>)
    requires
        forall|i: int| 0 <= i < es.len() ==> entry_ok((#[trigger] es[i]).0, es[i].1),
    ensures
        parse_entries(es.map_values(|e: (Seq<u8>, Seq<u8>)| line_of_entry(e))) == Some(es),
    decreases es.len(),
{
    let line_of = |e: (Seq<u8>, Seq<u8>)| line_of_entry(e);
    let lines = es.map_values(line_of);
    if es.len() == 0 {
        assert(lines.len() == 0);
        assert(Seq::<(Seq<u8>, Seq<u8>)>::empty() =~= es);
    } else {
        assert(lines.drop_last() =~= es.drop_last().map_values(line_of));
        assert(forall|i: int| 0 <= i < es.drop_last().len() ==> entry_ok(
            (#[trigger] es.drop_last()[i]).0,
            es.drop_last()[i].1,
        )) by {
            assert(forall|i: int| 0 <= i < es.len() - 1 ==> es.drop_last()[i] == es[i]);
        }
        lemma_parse_of_lines(es.drop_last());
        assert(es.last() == es[es.len() - 1]);
        lemma_classify_line_of(es.last());
        assert(lines.last() == line_of_entry(es.last()));
        assert(es.drop_last().push(es.last()) =~= es);
    }
}

/// PARSING IS CANONICAL: serializing any faithfully representable entry
/// sequence and parsing the result recovers exactly those entries, and so
/// the same mapping.  In particular a parsed configuration, re-serialized
/// and re-parsed, yields the mapping it started with.
pub proof fn lemma_parse_serialize_round_trip(es: Seq<(Seq<u8>, Seq<u8>)>)
    requires
        forall|i: int| 0 <= i < es.len() ==> entry_ok((#[trigger] es[i]).0, es[i].1),
    ensures
        spec_parse(spec_serialize(es)) == Some(es),
        map_of_entries(spec_parse(spec_serialize(es)).unwrap()) == map_of_entries(es),
{
    let line_of = |e: (Seq<u8>, Seq<u8>)| line_of_entry(e);
    let lines = es.map_values(line_of);
    if es.len() == 0 {
        let empty = Seq::<u8>::empty();
        assert(spec_serialize(es) == empty);
        assert(!has_byte(empty, 10));
        assert(spec_split(empty, 10) =~= seq![empty]);
        let ghost sp = spec_split(empty, 10);
        assert(sp.drop_last() =~= Seq::<Seq<u8>>::empty());
        assert(sp.last() == empty);
        assert(classify_line(empty) is Ignored);
        assert(parse_entries(Seq::<Seq<u8>>::empty()) == Some(Seq::<(Seq<u8>, Seq<u8>)>::empty()));
        assert(parse_entries(sp) == Some(Seq::<(Seq<u8>, Seq<u8>)>::empty()));
        assert(Seq::<(Seq<u8>, Seq<u8>)>::empty() =~= es);
    } else {
        assert forall|i: int| 0 <= i < lines.len() implies !has_byte(#[trigger] lines[i], 10) by {
            lemma_classify_line_of(es[i]);
        }
        lemma_split_of_join(lines, 10);
        lemma_parse_of_lines(es);
    }
}

} // verus!
