//! Configuration diffing.
//!
//! Compares two canonical configurations and classifies every option into
//! one of four partitions: unchanged (same value in both), added (only in
//! the second), removed (only in the first), or changed (in both with
//! different values, recording the old value, a directional marker, and the
//! new value).

use vstd::prelude::*;
use crate::bytes::{append_bytes, bytes_eq, to_vec};
use crate::config::{map_of_entries, readconfig, spec_parse, ConfigError, Configuration};

verus! {

/// `" -> "`: the marker between a changed option's old and new values.
pub open spec fn spec_arrow() -> Seq<u8> {
    seq![32u8, 45u8, 62u8, 32u8]
}

/// Builds `" -> "` as bytes.
pub fn arrow() -> (r: Vec<u8>)
    ensures
        r@ == spec_arrow(),
{
    let mut r: Vec<u8> = Vec::new();
    r.push(32);
    r.push(45);
    r.push(62);
    r.push(32);
    proof {
        assert(r@ =~= spec_arrow());
    }
    r
}

/// Options held by both configurations with the same value.
pub open spec fn spec_unchanged(a: Map<Seq<u8>, Seq<u8>>, b: Map<Seq<u8>, Seq<u8>>) -> Map<
    Seq<u8>,
    Seq<u8>,
> {
    Map::new(|k: Seq<u8>| a.dom().contains(k) && b.dom().contains(k) && a[k] == b[k], |k| a[k])
}

/// Options held only by the second configuration.
pub open spec fn spec_added(a: Map<Seq<u8>, Seq<u8>>, b: Map<Seq<u8>, Seq<u8>>) -> Map<
    Seq<u8>,
    Seq<u8>,
> {
    Map::new(|k: Seq<u8>| b.dom().contains(k) && !a.dom().contains(k), |k| b[k])
}

/// Options held only by the first configuration.
pub open spec fn spec_removed(a: Map<Seq<u8>, Seq<u8>>, b: Map<Seq<u8>, Seq<u8>>) -> Map<
    Seq<u8>,
    Seq<u8>,
> {
    Map::new(|k: Seq<u8>| a.dom().contains(k) && !b.dom().contains(k), |k| a[k])
}

/// Options held by both configurations with different values, recording
/// old value, marker, new value.
pub open spec fn spec_changed(a: Map<Seq<u8>, Seq<u8>>, b: Map<Seq<u8>, Seq<u8>>) -> Map<
    Seq<u8>,
    Seq<u8>,
> {
    Map::new(
        |k: Seq<u8>| a.dom().contains(k) && b.dom().contains(k) && a[k] != b[k],
        |k: Seq<u8>| a[k] + spec_arrow() + b[k],
    )
}

/// The four-way partition that comparing two configurations produces.
pub struct DiffResult {
    pub unchanged: Configuration,
    pub added: Configuration,
    pub removed: Configuration,
    pub changed: Configuration,
}

impl DiffResult {
    /// Each partition holds every option at most once.
    pub open spec fn wf(self) -> bool {
        self.unchanged.wf() && self.added.wf() && self.removed.wf() && self.changed.wf()
    }
}

/// The set of keys among the first `n` entries.
spec fn keys_before(es: Seq<(Seq<u8>, Seq<u8>)>, n: int) -> Set<Seq<u8>> {
    Set::new(|k: Seq<u8>| exists|j: int| 0 <= j < n && (#[trigger] es[j]).0 == k)
}

/// Compares two configurations and classifies every option of either into
/// exactly one of the four partitions.
pub fn diffconfig(c1: &Configuration, c2: &Configuration) -> (r: DiffResult)
    requires
        c1.wf(),
        c2.wf(),
    ensures
        r.wf(),
        r.unchanged@ == spec_unchanged(c1@, c2@),
        r.added@ == spec_added(c1@, c2@),
        r.removed@ == spec_removed(c1@, c2@),
        r.changed@ == spec_changed(c1@, c2@),
{
    let ghost a = c1@;
    let ghost b = c2@;
    let ghost ev1 = c1.entries_view();
    let ghost ev2 = c2.entries_view();
    let mut unchanged = Configuration::new();
    let mut removed = Configuration::new();
    let mut changed = Configuration::new();
    let mut added = Configuration::new();
    let n1 = c1.len();
    let mut i: usize = 0;
    proof {
        assert(unchanged@ =~= spec_unchanged(a, b).restrict(keys_before(ev1, 0)));
        assert(removed@ =~= spec_removed(a, b).restrict(keys_before(ev1, 0)));
        assert(changed@ =~= spec_changed(a, b).restrict(keys_before(ev1, 0)));
    }
    while i < n1
        invariant
            i <= n1,
            n1 == ev1.len(),
            a == c1@,
            b == c2@,
            ev1 == c1.entries_view(),
            c1.wf(),
            c2.wf(),
            unchanged.wf(),
            removed.wf(),
            changed.wf(),
            unchanged@ == spec_unchanged(a, b).restrict(keys_before(ev1, i as int)),
            removed@ == spec_removed(a, b).restrict(keys_before(ev1, i as int)),
            changed@ == spec_changed(a, b).restrict(keys_before(ev1, i as int)),
        decreases n1 - i,
    {
        let (k, v) = c1.entry_at(i);
        proof {
            crate::config::lemma_map_at_entry(ev1, i as int);
            assert(keys_before(ev1, i + 1) =~= keys_before(ev1, i as int).insert(ev1[i as int].0));
        }
        let kc = to_vec(k.as_slice());
        match c2.get(k.as_slice()) {
            Some(v2) => {
                if bytes_eq(v.as_slice(), v2.as_slice()) {
                    unchanged.insert(kc, to_vec(v.as_slice()));
                    proof {
                        assert(unchanged@ =~= spec_unchanged(a, b).restrict(
                            keys_before(ev1, i + 1),
                        ));
                    }
                } else {
                    let mut text = to_vec(v.as_slice());
                    let ar = arrow();
                    append_bytes(&mut text, ar.as_slice());
                    append_bytes(&mut text, v2.as_slice());
                    proof {
                        assert(text@ =~= a[ev1[i as int].0] + spec_arrow() + b[ev1[i as int].0]);
                    }
                    changed.insert(kc, text);
                    proof {
                        assert(changed@ =~= spec_changed(a, b).restrict(keys_before(ev1, i + 1)));
                    }
                }
            },
            None => {
                removed.insert(kc, to_vec(v.as_slice()));
                proof {
                    assert(removed@ =~= spec_removed(a, b).restrict(keys_before(ev1, i + 1)));
                }
            },
        }
        proof {
            if c2@.dom().contains(ev1[i as int].0) && a[ev1[i as int].0] == b[ev1[i as int].0] {
                assert(removed@ =~= spec_removed(a, b).restrict(keys_before(ev1, i + 1)));
                assert(changed@ =~= spec_changed(a, b).restrict(keys_before(ev1, i + 1)));
            } else if c2@.dom().contains(ev1[i as int].0) {
                assert(unchanged@ =~= spec_unchanged(a, b).restrict(keys_before(ev1, i + 1)));
                assert(removed@ =~= spec_removed(a, b).restrict(keys_before(ev1, i + 1)));
            } else {
                assert(unchanged@ =~= spec_unchanged(a, b).restrict(keys_before(ev1, i + 1)));
                assert(changed@ =~= spec_changed(a, b).restrict(keys_before(ev1, i + 1)));
            }
        }
        i += 1;
    }
    proof {
        lemma_keys_cover(ev1, a);
        assert(unchanged@ =~= spec_unchanged(a, b));
        assert(removed@ =~= spec_removed(a, b));
        assert(changed@ =~= spec_changed(a, b));
    }
    let n2 = c2.len();
    let mut j: usize = 0;
    proof {
        assert(added@ =~= spec_added(a, b).restrict(keys_before(ev2, 0)));
    }
    while j < n2
        invariant
            j <= n2,
            n2 == ev2.len(),
            a == c1@,
            b == c2@,
            ev2 == c2.entries_view(),
            c1.wf(),
            c2.wf(),
            added.wf(),
            added@ == spec_added(a, b).restrict(keys_before(ev2, j as int)),
        decreases n2 - j,
    {
        let (k, v) = c2.entry_at(j);
        proof {
            crate::config::lemma_map_at_entry(ev2, j as int);
            assert(keys_before(ev2, j + 1) =~= keys_before(ev2, j as int).insert(ev2[j as int].0));
        }
        if !c1.contains_key(k.as_slice()) {
            added.insert(to_vec(k.as_slice()), to_vec(v.as_slice()));
            proof {
                assert(added@ =~= spec_added(a, b).restrict(keys_before(ev2, j + 1)));
            }
        } else {
            proof {
                assert(added@ =~= spec_added(a, b).restrict(keys_before(ev2, j + 1)));
            }
        }
        j += 1;
    }
    proof {
        lemma_keys_cover(ev2, b);
        assert(added@ =~= spec_added(a, b));
    }
    DiffResult { unchanged, added, removed, changed }
}

/// Parses two build-option files and compares them.  A malformed file is
/// an error: no meaningful comparison exists for it.
pub fn diff_files(before: &[u8], after: &[u8]) -> (r: Result<DiffResult, ConfigError>)
    ensures
        match r {
            Ok(d) => {
                &&& spec_parse(before@) is Some
                &&& spec_parse(after@) is Some
                &&& d.wf()
                &&& d.unchanged@ == spec_unchanged(
                    map_of_entries(spec_parse(before@).unwrap()),
                    map_of_entries(spec_parse(after@).unwrap()),
                )
                &&& d.added@ == spec_added(
                    map_of_entries(spec_parse(before@).unwrap()),
                    map_of_entries(spec_parse(after@).unwrap()),
                )
                &&& d.removed@ == spec_removed(
                    map_of_entries(spec_parse(before@).unwrap()),
                    map_of_entries(spec_parse(after@).unwrap()),
                )
                &&& d.changed@ == spec_changed(
                    map_of_entries(spec_parse(before@).unwrap()),
                    map_of_entries(spec_parse(after@).unwrap()),
                )
            },
            Err(_) => spec_parse(before@) is None || spec_parse(after@) is None,
        },
{
    let c1 = match readconfig(before) {
        Ok(c) => c,
        Err(e) => {
            return Err(e);
        },
    };
    let c2 = match readconfig(after) {
        Ok(c) => c,
        Err(e) => {
            return Err(e);
        },
    };
    Ok(diffconfig(&c1, &c2))
}

/// Every key of the denoted mapping appears among the entries.
proof fn lemma_keys_cover(es: Seq<(Seq<u8>, Seq<u8>)>, m: Map<Seq<u8>, Seq<u8>>)
    requires
        m == crate::config::map_of_entries(es),
    ensures
        forall|k: Seq<u8>| m.dom().contains(k) ==> keys_before(es, es.len() as int).contains(k),
{
    assert forall|k: Seq<u8>| m.dom().contains(k) implies keys_before(
        es,
        es.len() as int,
    ).contains(k) by {
        crate::config::lemma_map_domain(es, k);
    }
}

/// THE DIFF IS A PARTITION: the four key-sets are pairwise disjoint; the
/// removed, unchanged and changed key-sets together are exactly the first
/// configuration's; the added, unchanged and changed key-sets together are
/// exactly the second's.
pub proof fn lemma_diff_partition(a: Map<Seq<u8>, Seq<u8>>, b: Map<Seq<u8>, Seq<u8>>)
    ensures
        spec_unchanged(a, b).dom().disjoint(spec_added(a, b).dom()),
        spec_unchanged(a, b).dom().disjoint(spec_removed(a, b).dom()),
        spec_unchanged(a, b).dom().disjoint(spec_changed(a, b).dom()),
        spec_added(a, b).dom().disjoint(spec_removed(a, b).dom()),
        spec_added(a, b).dom().disjoint(spec_changed(a, b).dom()),
        spec_removed(a, b).dom().disjoint(spec_changed(a, b).dom()),
        spec_removed(a, b).dom() + spec_unchanged(a, b).dom() + spec_changed(a, b).dom()
            == a.dom(),
        spec_added(a, b).dom() + spec_unchanged(a, b).dom() + spec_changed(a, b).dom() == b.dom(),
{
    assert(spec_removed(a, b).dom() + spec_unchanged(a, b).dom() + spec_changed(a, b).dom()
        =~= a.dom());
    assert(spec_added(a, b).dom() + spec_unchanged(a, b).dom() + spec_changed(a, b).dom()
        =~= b.dom());
}

/// DIFFING A CONFIGURATION AGAINST ITSELF changes nothing: the added,
/// removed and changed partitions are empty and the unchanged partition is
/// the configuration itself.
pub proof fn lemma_diff_self(a: Map<Seq<u8>, Seq<u8>>)
    ensures
        spec_added(a, a) == Map::<Seq<u8>, Seq<u8>>::empty(),
        spec_removed(a, a) == Map::<Seq<u8>, Seq<u8>>::empty(),
        spec_changed(a, a) == Map::<Seq<u8>, Seq<u8>>::empty(),
        spec_unchanged(a, a) == a,
{
    assert(spec_added(a, a) =~= Map::<Seq<u8>, Seq<u8>>::empty());
    assert(spec_removed(a, a) =~= Map::<Seq<u8>, Seq<u8>>::empty());
    assert(spec_changed(a, a) =~= Map::<Seq<u8>, Seq<u8>>::empty());
    assert(spec_unchanged(a, a) =~= a);
}

} // verus!
