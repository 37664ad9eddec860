//! Dry-run build-trace digestion.
//!
//! A dry-run trace of the build tool echoes, for every task it would run, a
//! line naming the rule, the target and the command.  These are collected
//! into a table keyed by rule, each rule mapping targets to commands; a
//! later task for the same rule and target keeps the last command.

use vstd::prelude::*;
use crate::bytes::{
    find_byte, first_index, has_byte, lemma_first_index, lemma_split_parts, spec_after_token,
    spec_split, spec_token, spec_trim, split_on, starts_with, subvec, take_token, to_vec, trim,
    views_of,
};
use crate::config::{
    lemma_insert_update, lemma_map_at_entry, lemma_map_domain, map_of_entries, unique_keys,
    update_entries, Configuration,
};

verus! {

/// Failure of trace parsing: an echo line without its closing quote, with
/// fewer than two tokens before it, or without a command separator.
#[derive(Clone, Copy, PartialEq, Eq, Debug)]
pub enum TraceError {
    MalformedLine,
}

/// `"set -e;  echo '  "`: the opening of a task-echo line.
pub open spec fn spec_trace_prefix() -> Seq<u8> {
    seq![
        115u8, 101u8, 116u8, 32u8, 45u8, 101u8, 59u8, 32u8, 32u8, 101u8, 99u8, 104u8, 111u8,
        32u8, 39u8, 32u8, 32u8,
    ]
}

/// Builds `"set -e;  echo '  "` as bytes.
pub fn trace_prefix() -> (r: Vec<u8>)
    ensures
        r@ == spec_trace_prefix(),
{
    let mut r: Vec<u8> = Vec::new();
    r.push(115);
    r.push(101);
    r.push(116);
    r.push(32);
    r.push(45);
    r.push(101);
    r.push(59);
    r.push(32);
    r.push(32);
    r.push(101);
    r.push(99);
    r.push(104);
    r.push(111);
    r.push(32);
    r.push(39);
    r.push(32);
    r.push(32);
    proof {
        assert(r@ =~= spec_trace_prefix());
    }
    r
}

/// What one trace line denotes.
pub enum TraceLineClass {
    /// A line that does not echo a task.
    Skip,
    /// A task: rule, target, command.
    Task(Seq<u8>, Seq<u8>, Seq<u8>),
    /// An echo line the format does not allow.
    Malformed,
}

/// Classifies one trace line (without its newline).
pub open spec fn classify_trace_line(line: Seq<u8>) -> TraceLineClass {
    if !spec_trace_prefix().is_prefix_of(line) {
        TraceLineClass::Skip
    } else {
        let echoed = spec_trim(line.subrange(17, line.len() as int));
        if !has_byte(echoed, 39) {
            TraceLineClass::Malformed
        } else {
            let head = echoed.subrange(0, first_index(echoed, 39));
            let rule = spec_token(head);
            let target = spec_token(spec_after_token(head));
            if rule.len() == 0 || target.len() == 0 {
                TraceLineClass::Malformed
            } else if !has_byte(echoed, 59) {
                TraceLineClass::Malformed
            } else {
                TraceLineClass::Task(
                    rule,
                    target,
                    spec_trim(echoed.subrange(first_index(echoed, 59) + 1, echoed.len() as int)),
                )
            }
        }
    }
}

/// The tasks that a sequence of trace lines denotes, in order, or nothing
/// when some echo line is malformed.
pub open spec fn trace_tasks(lines: Seq<Seq<u8>>) -> Option<Seq<(Seq<u8>, Seq<u8>, Seq<u8>)>>
    decreases lines.len(),
{
    if lines.len() == 0 {
        Some(Seq::empty())
    } else {
        match trace_tasks(lines.drop_last()) {
            None => None,
            Some(ts) => match classify_trace_line(lines.last()) {
                TraceLineClass::Malformed => None,
                TraceLineClass::Skip => Some(ts),
                TraceLineClass::Task(rule, target, cmd) => Some(ts.push((rule, target, cmd))),
            },
        }
    }
}

/// The tasks that a whole trace file denotes.
pub open spec fn spec_parse_trace(contents: Seq<u8>) -> Option<Seq<(Seq<u8>, Seq<u8>, Seq<u8>)>> {
    trace_tasks(spec_split(contents, 10))
}

/// The nested rule table that a task sequence denotes.
pub open spec fn table_of(ts: Seq<(Seq<u8>, Seq<u8>, Seq<u8>)>) -> Map<
    Seq<u8>,
    Map<Seq<u8>, Seq<u8>>,
>
    decreases ts.len(),
{
    if ts.len() == 0 {
        Map::empty()
    } else {
        let m = table_of(ts.drop_last());
        let t = ts.last();
        let inner = if m.dom().contains(t.0) {
            m[t.0]
        } else {
            Map::empty()
        };
        m.insert(t.0, inner.insert(t.1, t.2))
    }
}

/// A table of build tasks: rules mapping each target to its command.
pub struct TraceTable {
    rules: Vec<(Vec<u8>, Configuration)>,
}

impl View for TraceTable {
    type V = Map<Seq<u8>, Map<Seq<u8>, Seq<u8>>>;

    open spec fn view(&self) -> Map<Seq<u8>, Map<Seq<u8>, Seq<u8>>> {
        map_of_entries(self.rules_view())
    }
}

impl TraceTable {
    /// The rules in insertion order, each with its target table.
    pub closed spec fn rules_view(self) -> Seq<(Seq<u8>, Map<Seq<u8>, Seq<u8>>)> {
        self.rules@.map_values(|p: (Vec<u8>, Configuration)| (p.0@, p.1@))
    }

    /// The same rules with their concrete target tables.
    pub closed spec fn rules_full(self) -> Seq<(Seq<u8>, Configuration)> {
        self.rules@.map_values(|p: (Vec<u8>, Configuration)| (p.0@, p.1))
    }

    /// Well-formed: no rule occurs twice, and every target table is
    /// well-formed.
    pub open spec fn wf(self) -> bool {
        &&& unique_keys(self.rules_view())
        &&& forall|i: int|
            0 <= i < self.rules_view().len() ==> (#[trigger] self.rules_full()[i]).1.wf()
    }

    /// An empty table.
    pub fn new() -> (r: TraceTable)
        ensures
            r.wf(),
            r@ == Map::<Seq<u8>, Map<Seq<u8>, Seq<u8>>>::empty(),
    {
        let r = TraceTable { rules: Vec::new() };
        proof {
            assert(r.rules_view() =~= Seq::<(Seq<u8>, Map<Seq<u8>, Seq<u8>>)>::empty());
        }
        r
    }

    /// How many rules the table holds.
    pub fn rule_count(&self) -> (r: usize)
        ensures
            r == self.rules_view().len(),
    {
        self.rules.len()
    }

    /// The rule and its target table at a position.
    pub fn rule_at(&self, i: usize) -> (r: (&Vec<u8>, &Configuration))
        requires
            i < self.rules_view().len(),
        ensures
            r.0@ == self.rules_view()[i as int].0,
            *r.1 == self.rules_full()[i as int].1,
            r.1@ == self.rules_view()[i as int].1,
    {
        let p = &self.rules[i];
        (&p.0, &p.1)
    }

    /// Index of the rule `k`, if any.
    fn position_of(&self, k: &[u8]) -> (r: Option<usize>)
        ensures
            match r {
                Some(i) => i < self.rules_view().len() && self.rules_view()[i as int].0 == k@,
                None => forall|i: int|
                    0 <= i < self.rules_view().len() ==> (#[trigger] self.rules_view()[i]).0 != k@,
            },
    {
        let mut i: usize = 0;
        while i < self.rules.len()
            invariant
                0 <= i <= self.rules_view().len(),
                self.rules_view().len() == self.rules@.len(),
                forall|j: int| 0 <= j < i ==> (#[trigger] self.rules_view()[j]).0 != k@,
            decreases self.rules@.len() - i,
        {
            if crate::bytes::bytes_eq(self.rules[i].0.as_slice(), k) {
                return Some(i);
            }
            i += 1;
        }
        None
    }

    /// Records that `rule` builds `target` with `cmd`; a prior command for
    /// the same rule and target is replaced.
    pub fn insert(&mut self, rule: Vec<u8>, target: Vec<u8>, cmd: Vec<u8>)
        requires
            old(self).wf(),
        ensures
            final(self).wf(),
            final(self)@ == old(self)@.insert(
                rule@,
                if old(self)@.dom().contains(rule@) {
                    old(self)@[rule@]
                } else {
                    Map::<Seq<u8>, Seq<u8>>::empty()
                }.insert(target@, cmd@),
            ),
    {
        let ghost old_rv = self.rules_view();
        match self.position_of(rule.as_slice()) {
            Some(i) => {
                proof {
                    lemma_map_at_entry(old_rv, i as int);
                }
                let (name, mut conf) = self.rules.remove(i);
                proof {
                    assert(conf == old(self).rules_full()[i as int].1);
                    assert(old(self).rules_full()[i as int].1.wf());
                }
                conf.insert(target, cmd);
                self.rules.insert(i, (name, conf));
                proof {
                    assert(self.rules_view() =~= old_rv.update(
                        i as int,
                        (rule@, old_rv[i as int].1.insert(target@, cmd@)),
                    ));
                    lemma_insert_update(
                        old_rv,
                        i as int,
                        rule@,
                        old_rv[i as int].1.insert(target@, cmd@),
                    );
                    assert forall|j: int| 0 <= j < self.rules_view().len() implies (
                    #[trigger] self.rules_full()[j]).1.wf() by {
                        if j != i {
                            assert(self.rules_full()[j] == old(self).rules_full()[j]);
                        }
                    }
                }
            },
            None => {
                let mut conf = Configuration::new();
                conf.insert(target, cmd);
                self.rules.push((rule, conf));
                proof {
                    assert(self.rules_view() =~= old_rv.push((rule@, conf@)));
                    assert(self.rules_view().drop_last() =~= old_rv);
                    lemma_map_domain(old_rv, rule@);
                    assert(!old(self)@.dom().contains(rule@));
                    assert(conf@ =~= Map::<Seq<u8>, Seq<u8>>::empty().insert(target@, cmd@));
                    assert forall|j: int| 0 <= j < self.rules_view().len() implies (
                    #[trigger] self.rules_full()[j]).1.wf() by {
                        if j < old_rv.len() {
                            assert(self.rules_full()[j] == old(self).rules_full()[j]);
                        }
                    }
                }
            },
        }
    }
}

/// The executable mirror of `TraceLineClass`.
enum ParsedTraceLine {
    Skip,
    Task(Vec<u8>, Vec<u8>, Vec<u8>),
    Malformed,
}

/// Classifies one trace line (without its newline).
fn classify_trace(line: &[u8]) -> (r: ParsedTraceLine)
    ensures
        match r {
            ParsedTraceLine::Skip => classify_trace_line(line@) is Skip,
            ParsedTraceLine::Task(rule, target, cmd) => classify_trace_line(line@)
                == TraceLineClass::Task(rule@, target@, cmd@),
            ParsedTraceLine::Malformed => classify_trace_line(line@) is Malformed,
        },
{
    let pfx = trace_prefix();
    if !starts_with(line, pfx.as_slice()) {
        return ParsedTraceLine::Skip;
    }
    let after = subvec(line, 17, line.len());
    let echoed = trim(after.as_slice());
    proof {
        assert(after@ =~= line@.subrange(17, line@.len() as int));
    }
    let quote = match find_byte(echoed.as_slice(), 39) {
        Some(q) => q,
        None => {
            return ParsedTraceLine::Malformed;
        },
    };
    proof {
        lemma_first_index(echoed@, 39);
    }
    let head = subvec(echoed.as_slice(), 0, quote);
    let (rule, rest) = take_token(head.as_slice());
    let (target, _rest2) = take_token(rest.as_slice());
    if rule.len() == 0 || target.len() == 0 {
        return ParsedTraceLine::Malformed;
    }
    let semi = match find_byte(echoed.as_slice(), 59) {
        Some(s) => s,
        None => {
            return ParsedTraceLine::Malformed;
        },
    };
    proof {
        lemma_first_index(echoed@, 59);
        assert(semi < echoed@.len());
    }
    let elen = echoed.len();
    let tail = subvec(echoed.as_slice(), semi + 1, elen);
    let cmd = trim(tail.as_slice());
    proof {
        assert(tail@ =~= echoed@.subrange(first_index(echoed@, 59) + 1, echoed@.len() as int));
    }
    ParsedTraceLine::Task(rule, target, cmd)
}

/// A malformed echo line anywhere makes the whole trace malformed.
proof fn lemma_trace_tasks_malformed(lines: Seq<Seq<u8>>, i: int)
    requires
        0 <= i < lines.len(),
        classify_trace_line(lines[i]) is Malformed,
    ensures
        trace_tasks(lines) is None,
    decreases lines.len(),
{
    if i == lines.len() - 1 {
    } else {
        assert(lines.drop_last()[i] == lines[i]);
        lemma_trace_tasks_malformed(lines.drop_last(), i);
    }
}

/// Digests a dry-run trace into a table of rules, targets and commands.
/// Succeeds exactly when every task-echo line is well formed.
pub fn mkf_ni_trace(contents: &[u8]) -> (r: Result<TraceTable, TraceError>)
    ensures
        match r {
            Ok(t) => {
                &&& spec_parse_trace(contents@) is Some
                &&& t.wf()
                &&& t@ == table_of(spec_parse_trace(contents@).unwrap())
            },
            Err(_) => spec_parse_trace(contents@) is None,
        },
{
    let lines = split_on(contents, 10);
    let ghost lviews = views_of(lines@);
    let mut table = TraceTable::new();
    let mut i: usize = 0;
    while i < lines.len()
        invariant
            i <= lines@.len(),
            lviews == views_of(lines@),
            lviews == spec_split(contents@, 10),
            trace_tasks(lviews.subrange(0, i as int)) is Some,
            table.wf(),
            table@ == table_of(trace_tasks(lviews.subrange(0, i as int)).unwrap()),
        decreases lines@.len() - i,
    {
        let ghost prefix = lviews.subrange(0, i as int);
        let ghost next_prefix = lviews.subrange(0, i + 1);
        proof {
            assert(next_prefix.drop_last() =~= prefix);
            assert(next_prefix.last() == lviews[i as int]);
        }
        match classify_trace(lines[i].as_slice()) {
            ParsedTraceLine::Skip => {
                proof {
                    assert(trace_tasks(next_prefix) == trace_tasks(prefix));
                }
            },
            ParsedTraceLine::Malformed => {
                proof {
                    lemma_trace_tasks_malformed(lviews, i as int);
                }
                return Err(TraceError::MalformedLine);
            },
            ParsedTraceLine::Task(rule, target, cmd) => {
                let ghost ts = trace_tasks(prefix).unwrap();
                proof {
                    assert(trace_tasks(next_prefix) == Some(ts.push((rule@, target@, cmd@))));
                    assert(ts.push((rule@, target@, cmd@)).drop_last() =~= ts);
                }
                table.insert(rule, target, cmd);
            },
        }
        i += 1;
    }
    proof {
        assert(lviews.subrange(0, lines@.len() as int) =~= lviews);
    }
    Ok(table)
}

/// The total number of targets over all rules.
pub open spec fn spec_total(rv: Seq<(Seq<u8>, Map<Seq<u8>, Seq<u8>>)>) -> nat
    decreases rv.len(),
{
    if rv.len() == 0 {
        0
    } else {
        spec_total(rv.drop_last()) + rv.last().1.dom().len()
    }
}

/// Counts every target of every rule, saturating at the machine limit.
pub fn mkf_ni_trace_total(table: &TraceTable) -> (r: usize)
    requires
        table.wf(),
    ensures
        spec_total(table.rules_view()) <= usize::MAX ==> r == spec_total(table.rules_view()),
        spec_total(table.rules_view()) > usize::MAX ==> r == usize::MAX,
{
    let ghost rv = table.rules_view();
    let mut total: usize = 0;
    let n = table.rule_count();
    let mut i: usize = 0;
    while i < n
        invariant
            i <= n,
            n == rv.len(),
            rv == table.rules_view(),
            table.wf(),
            spec_total(rv.subrange(0, i as int)) <= usize::MAX ==> total == spec_total(
                rv.subrange(0, i as int),
            ),
            spec_total(rv.subrange(0, i as int)) > usize::MAX ==> total == usize::MAX,
        decreases n - i,
    {
        let (_, conf) = table.rule_at(i);
        let k = conf.len();
        proof {
            assert(rv.subrange(0, i + 1).drop_last() =~= rv.subrange(0, i as int));
            assert(rv.subrange(0, i + 1).last() == rv[i as int]);
            assert(k == rv[i as int].1.dom().len());
        }
        if total <= usize::MAX - k {
            total = total + k;
        } else {
            total = usize::MAX;
        }
        i += 1;
    }
    proof {
        assert(rv.subrange(0, rv.len() as int) =~= rv);
    }
    total
}

} // verus!
