//! Verified byte-string utilities.
//!
//! Configuration names, branch labels and file contents are handled as byte
//! strings throughout the library; these are the shared primitives for
//! scanning, splitting and assembling them.

use vstd::prelude::*;

verus! {

/// True when `b` occurs somewhere in `s`.
pub open spec fn has_byte(s: Seq<u8>, b: u8) -> bool {
    exists|i: int| 0 <= i < s.len() && s[i] == b
}

/// Index of the first occurrence of `b` in `s` (meaningful when `has_byte`).
pub open spec fn first_index(s: Seq<u8>, b: u8) -> int
    decreases s.len(),
{
    if s.len() == 0 {
        0
    } else if s[0] == b {
        0
    } else {
        1 + first_index(s.subrange(1, s.len() as int), b)
    }
}

/// Index of the last occurrence of `b` in `s` (meaningful when `has_byte`).
pub open spec fn last_index(s: Seq<u8>, b: u8) -> int
    decreases s.len(),
{
    if s.len() == 0 {
        -1
    } else if s[s.len() - 1] == b {
        s.len() - 1
    } else {
        last_index(s.subrange(0, s.len() - 1), b)
    }
}

/// Number of occurrences of `b` in `s`.
pub open spec fn count_byte(s: Seq<u8>, b: u8) -> nat
    decreases s.len(),
{
    if s.len() == 0 {
        0
    } else {
        count_byte(s.drop_last(), b) + if s.last() == b { 1nat } else { 0nat }
    }
}

/// When `b` occurs in `s`, `first_index` points at its first occurrence.
pub proof fn lemma_first_index(s: Seq<u8>, b: u8)
    requires
        has_byte(s, b),
    ensures
        0 <= first_index(s, b) < s.len(),
        s[first_index(s, b)] == b,
        forall|j: int| 0 <= j < first_index(s, b) ==> s[j] != b,
    decreases s.len(),
{
    if s.len() == 0 {
    } else if s[0] == b {
    } else {
        let rest = s.subrange(1, s.len() as int);
        assert(has_byte(rest, b)) by {
            let i = choose|i: int| 0 <= i < s.len() && s[i] == b;
            assert(rest[i - 1] == b);
        }
        lemma_first_index(rest, b);
        assert forall|j: int| 0 <= j < first_index(s, b) implies s[j] != b by {
            if j >= 1 {
                assert(rest[j - 1] == s[j]);
            }
        }
    }
}

/// When `b` occurs in `s`, `last_index` points at its last occurrence.
pub proof fn lemma_last_index(s: Seq<u8>, b: u8)
    requires
        has_byte(s, b),
    ensures
        0 <= last_index(s, b) < s.len(),
        s[last_index(s, b)] == b,
        forall|j: int| last_index(s, b) < j < s.len() ==> s[j] != b,
    decreases s.len(),
{
    if s.len() == 0 {
    } else if s[s.len() - 1] == b {
    } else {
        let rest = s.subrange(0, s.len() - 1);
        assert(has_byte(rest, b)) by {
            let i = choose|i: int| 0 <= i < s.len() && s[i] == b;
            assert(rest[i] == b);
        }
        lemma_last_index(rest, b);
        assert forall|j: int| last_index(s, b) < j < s.len() implies s[j] != b by {
            if j < s.len() - 1 {
                assert(rest[j] == s[j]);
            }
        }
    }
}

/// Two byte slices hold the same bytes.
pub fn bytes_eq(a: &[u8], b: &[u8]) -> (r: bool)
    ensures
        r == (a@ == b@),
{
    if a.len() != b.len() {
        assert(a@ != b@);
        return false;
    }
    let mut i: usize = 0;
    while i < a.len()
        invariant
            0 <= i <= a.len(),
            a.len() == b.len(),
            forall|j: int| 0 <= j < i ==> a@[j] == b@[j],
        decreases a.len() - i,
    {
        if a[i] != b[i] {
            return false;
        }
        i += 1;
    }
    assert(a@ =~= b@);
    true
}

/// `p` is an initial run of `s`.
pub fn starts_with(s: &[u8], p: &[u8]) -> (r: bool)
    ensures
        r == p@.is_prefix_of(s@),
{
    if p.len() > s.len() {
        return false;
    }
    let mut i: usize = 0;
    while i < p.len()
        invariant
            0 <= i <= p.len() <= s.len(),
            forall|j: int| 0 <= j < i ==> s@[j] == p@[j],
        decreases p.len() - i,
    {
        if s[i] != p[i] {
            assert(s@.subrange(0, p@.len() as int)[i as int] != p@[i as int]);
            return false;
        }
        i += 1;
    }
    assert(s@.subrange(0, p@.len() as int) =~= p@);
    true
}

/// `p` is a final run of `s`.
pub fn ends_with(s: &[u8], p: &[u8]) -> (r: bool)
    ensures
        r == p@.is_suffix_of(s@),
{
    if p.len() > s.len() {
        return false;
    }
    let off: usize = s.len() - p.len();
    let mut i: usize = 0;
    while i < p.len()
        invariant
            0 <= i <= p.len() <= s.len(),
            off == s.len() - p.len(),
            forall|j: int| 0 <= j < i ==> s@[off + j] == p@[j],
        decreases p.len() - i,
    {
        if s[off + i] != p[i] {
            assert(s@.subrange(s@.len() - p@.len(), s@.len() as int)[i as int] != p@[i as int]);
            return false;
        }
        i += 1;
    }
    assert(s@.subrange(s@.len() - p@.len(), s@.len() as int) =~= p@);
    true
}

/// First occurrence of `b` in `s`, if any.
pub fn find_byte(s: &[u8], b: u8) -> (r: Option<usize>)
    ensures
        match r {
            Some(i) => has_byte(s@, b) && i == first_index(s@, b),
            None => !has_byte(s@, b),
        },
{
    let mut i: usize = 0;
    while i < s.len()
        invariant
            0 <= i <= s.len(),
            forall|j: int| 0 <= j < i ==> s@[j] != b,
        decreases s.len() - i,
    {
        if s[i] == b {
            proof {
                lemma_first_index(s@, b);
                if first_index(s@, b) < i {
                    assert(s@[first_index(s@, b)] == b);
                }
                if first_index(s@, b) > i {
                    assert(s@[i as int] != b);
                }
            }
            return Some(i);
        }
        i += 1;
    }
    None
}

/// Last occurrence of `b` in `s`, if any.
pub fn rfind_byte(s: &[u8], b: u8) -> (r: Option<usize>)
    ensures
        match r {
            Some(i) => has_byte(s@, b) && i == last_index(s@, b),
            None => !has_byte(s@, b),
        },
{
    let mut i: usize = s.len();
    while i > 0
        invariant
            0 <= i <= s.len(),
            forall|j: int| i <= j < s.len() ==> s@[j] != b,
        decreases i,
    {
        i -= 1;
        if s[i] == b {
            proof {
                lemma_last_index(s@, b);
                if last_index(s@, b) < i {
                    assert(s@[i as int] != b);
                }
                if last_index(s@, b) > i {
                    assert(s@[last_index(s@, b)] == b);
                }
            }
            return Some(i);
        }
    }
    None
}

/// A fresh vector holding `s[i..j]`.
pub fn subvec(s: &[u8], i: usize, j: usize) -> (r: Vec<u8>)
    requires
        i <= j <= s@.len(),
    ensures
        r@ == s@.subrange(i as int, j as int),
{
    let mut r: Vec<u8> = Vec::new();
    let mut k: usize = i;
    while k < j
        invariant
            i <= k <= j <= s@.len(),
            r@ == s@.subrange(i as int, k as int),
        decreases j - k,
    {
        r.push(s[k]);
        assert(r@ =~= s@.subrange(i as int, k + 1));
        k += 1;
    }
    r
}

/// A fresh vector holding all of `s`.
pub fn to_vec(s: &[u8]) -> (r: Vec<u8>)
    ensures
        r@ == s@,
{
    let r = subvec(s, 0, s.len());
    assert(s@.subrange(0, s@.len() as int) =~= s@);
    r
}

/// Appends all of `src` to `dst`.
pub fn append_bytes(dst: &mut Vec<u8>, src: &[u8])
    ensures
        final(dst)@ == old(dst)@ + src@,
{
    let mut k: usize = 0;
    while k < src.len()
        invariant
            0 <= k <= src@.len(),
            dst@ == old(dst)@ + src@.subrange(0, k as int),
        decreases src.len() - k,
    {
        dst.push(src[k]);
        assert(dst@ =~= old(dst)@ + src@.subrange(0, k + 1));
        k += 1;
    }
    assert(dst@ =~= old(dst)@ + src@);
}

/// If `i` holds `b` and nothing before `i` does, then `i` is the first index.
pub proof fn lemma_first_index_is(s: Seq<u8>, b: u8, i: int)
    requires
        0 <= i < s.len(),
        s[i] == b,
        forall|j: int| 0 <= j < i ==> s[j] != b,
    ensures
        has_byte(s, b),
        first_index(s, b) == i,
{
    assert(has_byte(s, b));
    lemma_first_index(s, b);
    let fi = first_index(s, b);
    if fi < i {
        assert(s[fi] != b);
    }
    if fi > i {
        assert(s[i] != b);
    }
}

/// The parts of `s` split on `sep`, in order; never empty.
pub open spec fn spec_split(s: Seq<u8>, sep: u8) -> Seq<Seq<u8>>
    decreases s.len(),
    via spec_split_decreases
{
    if !has_byte(s, sep) {
        seq![s]
    } else {
        seq![s.subrange(0, first_index(s, sep))] + spec_split(
            s.subrange(first_index(s, sep) + 1, s.len() as int),
            sep,
        )
    }
}

#[via_fn]
proof fn spec_split_decreases(s: Seq<u8>, sep: u8) {
    if has_byte(s, sep) {
        lemma_first_index(s, sep);
    }
}

/// The parts joined with `sep` between each pair.
pub open spec fn spec_join(parts: Seq<Seq<u8>>, sep: u8) -> Seq<u8>
    decreases parts.len(),
{
    if parts.len() == 0 {
        Seq::empty()
    } else if parts.len() == 1 {
        parts[0]
    } else {
        parts[0] + seq![sep] + spec_join(parts.drop_first(), sep)
    }
}

/// Splitting has at least one part, and no part holds the separator.
pub proof fn lemma_split_parts(s: Seq<u8>, sep: u8)
    ensures
        spec_split(s, sep).len() >= 1,
        forall|i: int|
            0 <= i < spec_split(s, sep).len() ==> !has_byte(#[trigger] spec_split(s, sep)[i], sep),
    decreases s.len(),
{
    if has_byte(s, sep) {
        lemma_first_index(s, sep);
        let fi = first_index(s, sep);
        let head = s.subrange(0, fi);
        let tail = s.subrange(fi + 1, s.len() as int);
        assert(!has_byte(head, sep)) by {
            if has_byte(head, sep) {
                let j = choose|j: int| 0 <= j < head.len() && head[j] == sep;
                assert(s[j] == sep);
            }
        }
        lemma_split_parts(tail, sep);
        assert forall|i: int|
            0 <= i < spec_split(s, sep).len() implies !has_byte(
            #[trigger] spec_split(s, sep)[i],
            sep,
        ) by {
            if i >= 1 {
                assert(spec_split(s, sep)[i] == spec_split(tail, sep)[i - 1]);
            }
        }
    }
}

/// Splitting a join recovers the parts, when no part holds the separator.
pub proof fn lemma_split_of_join(parts: Seq<Seq<u8>>, sep: u8)
    requires
        parts.len() >= 1,
        forall|i: int| 0 <= i < parts.len() ==> !has_byte(#[trigger] parts[i], sep),
    ensures
        spec_split(spec_join(parts, sep), sep) == parts,
    decreases parts.len(),
{
    let s = spec_join(parts, sep);
    if parts.len() == 1 {
        assert(s == parts[0]);
        assert(spec_split(s, sep) =~= parts);
    } else {
        let rest = parts.drop_first();
        let joined_rest = spec_join(rest, sep);
        assert(s == parts[0] + seq![sep] + joined_rest);
        let p0len = parts[0].len() as int;
        assert(s[p0len] == sep);
        assert forall|j: int| 0 <= j < p0len implies s[j] != sep by {
            assert(s[j] == parts[0][j]);
        }
        lemma_first_index_is(s, sep, p0len);
        assert(s.subrange(0, p0len) =~= parts[0]);
        assert(s.subrange(p0len + 1, s.len() as int) =~= joined_rest);
        lemma_split_of_join(rest, sep);
        assert(spec_split(s, sep) =~= seq![parts[0]] + spec_split(joined_rest, sep));
        assert(spec_split(s, sep) =~= parts);
    }
}

/// A byte is absent exactly when its count is zero.
pub proof fn lemma_count_zero(s: Seq<u8>, b: u8)
    ensures
        (count_byte(s, b) == 0) == !has_byte(s, b),
    decreases s.len(),
{
    if s.len() == 0 {
        assert(!has_byte(s, b));
    } else {
        lemma_count_zero(s.drop_last(), b);
        if s.last() == b {
            assert(has_byte(s, b));
        } else {
            if has_byte(s, b) {
                let i = choose|i: int| 0 <= i < s.len() && s[i] == b;
                assert(s.drop_last()[i] == b);
                assert(has_byte(s.drop_last(), b));
            }
            if has_byte(s.drop_last(), b) {
                let i = choose|i: int| 0 <= i < s.len() - 1 && s.drop_last()[i] == b;
                assert(s[i] == b);
            }
        }
    }
}

/// A byte counted once occurs exactly at the first index.
pub proof fn lemma_count_one(s: Seq<u8>, b: u8)
    requires
        count_byte(s, b) == 1,
    ensures
        has_byte(s, b),
        forall|j: int| 0 <= j < s.len() && j != first_index(s, b) ==> s[j] != b,
    decreases s.len(),
{
    if s.last() == b {
        lemma_count_zero(s.drop_last(), b);
        assert(has_byte(s, b));
        lemma_first_index(s, b);
        assert(first_index(s, b) == s.len() - 1) by {
            if first_index(s, b) < s.len() - 1 {
                assert(s.drop_last()[first_index(s, b)] == b);
            }
        }
        assert forall|j: int| 0 <= j < s.len() && j != first_index(s, b) implies s[j] != b by {
            assert(s.drop_last()[j] == s[j]);
            if s.drop_last()[j] == b {
                assert(has_byte(s.drop_last(), b));
            }
        }
    } else {
        lemma_count_one(s.drop_last(), b);
        let i = choose|i: int| 0 <= i < s.len() - 1 && s.drop_last()[i] == b;
        assert(s[i] == b);
        assert(has_byte(s, b));
        lemma_first_index(s, b);
        lemma_first_index(s.drop_last(), b);
        let fi = first_index(s, b);
        let fid = first_index(s.drop_last(), b);
        assert(s[fid] == b);
        assert(fi == fid) by {
            if fi < fid {
                assert(s.drop_last()[fi] == b);
            }
            if fi > fid {
                assert(s[fid] != b);
            }
        }
        assert forall|j: int| 0 <= j < s.len() && j != fi implies s[j] != b by {
            if j < s.len() - 1 {
                assert(s.drop_last()[j] == s[j]);
            }
        }
    }
}

/// A byte occurs in a concatenation exactly when it occurs in a part.
pub proof fn lemma_has_byte_concat(a: Seq<u8>, b: Seq<u8>, x: u8)
    ensures
        has_byte(a + b, x) == (has_byte(a, x) || has_byte(b, x)),
{
    if has_byte(a + b, x) {
        let i = choose|i: int| 0 <= i < (a + b).len() && (a + b)[i] == x;
        if i < a.len() {
            assert(a[i] == x);
        } else {
            assert(b[i - a.len()] == x);
        }
    }
    if has_byte(a, x) {
        let i = choose|i: int| 0 <= i < a.len() && a[i] == x;
        assert((a + b)[i] == x);
    }
    if has_byte(b, x) {
        let i = choose|i: int| 0 <= i < b.len() && b[i] == x;
        assert((a + b)[a.len() + i] == x);
    }
}

/// Joining one more part appends a separator and the part.
pub proof fn lemma_join_push(parts: Seq<Seq<u8>>, x: Seq<u8>, sep: u8)
    ensures
        spec_join(parts.push(x), sep) == if parts.len() == 0 {
            x
        } else {
            spec_join(parts, sep) + seq![sep] + x
        },
    decreases parts.len(),
{
    if parts.len() == 0 {
        assert(parts.push(x).len() == 1);
        assert(parts.push(x)[0] == x);
    } else {
        let whole = parts.push(x);
        assert(whole.len() >= 2);
        assert(whole[0] == parts[0]);
        assert(whole.drop_first() =~= parts.drop_first().push(x));
        lemma_join_push(parts.drop_first(), x, sep);
        if parts.len() == 1 {
            assert(spec_join(whole, sep) == parts[0] + seq![sep] + x);
            assert(spec_join(parts, sep) == parts[0]);
        } else {
            assert(spec_join(whole, sep) == parts[0] + seq![sep] + (spec_join(
                parts.drop_first(),
                sep,
            ) + seq![sep] + x));
            assert(spec_join(parts, sep) == parts[0] + seq![sep] + spec_join(
                parts.drop_first(),
                sep,
            ));
            assert(parts[0] + seq![sep] + (spec_join(parts.drop_first(), sep) + seq![sep] + x)
                =~= (parts[0] + seq![sep] + spec_join(parts.drop_first(), sep)) + seq![sep] + x);
        }
    }
}

/// The views of the parts that `split_on` returns.
pub open spec fn views_of(parts: Seq<Vec<u8>>) -> Seq<Seq<u8>> {
    parts.map_values(|v: Vec<u8>| v@)
}

/// Splits `s` on every occurrence of `sep`.
pub fn split_on(s: &[u8], sep: u8) -> (r: Vec<Vec<u8>>)
    ensures
        views_of(r@) == spec_split(s@, sep),
{
    let ghost whole = s@;
    let mut parts: Vec<Vec<u8>> = Vec::new();
    let mut start: usize = 0;
    proof {
        assert(s@.subrange(0, s@.len() as int) =~= s@);
        assert(views_of(parts@) + spec_split(s@, sep) =~= spec_split(s@, sep));
    }
    loop
        invariant_except_break
            start <= s@.len(),
            spec_split(s@, sep) == views_of(parts@) + spec_split(
                s@.subrange(start as int, s@.len() as int),
                sep,
            ),
        ensures
            views_of(parts@) == spec_split(s@, sep),
        decreases s@.len() - start,
    {
        let rem = subvec(s, start, s.len());
        let ghost rem_view = rem@;
        match find_byte(&rem, sep) {
            Some(i) => {
                proof {
                    lemma_first_index(rem_view, sep);
                }
                let part = subvec(s, start, start + i);
                proof {
                    assert(rem_view.subrange(0, i as int) =~= s@.subrange(
                        start as int,
                        start + i,
                    ));
                    assert(rem_view.subrange(i + 1, rem_view.len() as int) =~= s@.subrange(
                        start + i + 1,
                        s@.len() as int,
                    ));
                    assert(views_of(parts@.push(part)) =~= views_of(parts@) + seq![part@]);
                    assert(views_of(parts@) + spec_split(rem_view, sep) =~= (views_of(parts@)
                        + seq![part@]) + spec_split(
                        s@.subrange(start + i + 1, s@.len() as int),
                        sep,
                    ));
                }
                parts.push(part);
                start = start + i + 1;
            },
            None => {
                proof {
                    assert(spec_split(rem_view, sep) =~= seq![rem_view]);
                    assert(views_of(parts@.push(rem)) =~= views_of(parts@) + seq![rem_view]);
                    assert(views_of(parts@) + spec_split(rem_view, sep) =~= views_of(
                        parts@.push(rem),
                    ));
                }
                parts.push(rem);
                break ;
            },
        }
    }
    parts
}

/// An ASCII whitespace byte: space, tab, line feed, vertical tab, form
/// feed or carriage return.
pub open spec fn is_ws(b: u8) -> bool {
    b == 32 || (9 <= b && b <= 13)
}

/// Whether `b` is ASCII whitespace.
pub fn is_ws_byte(b: u8) -> (r: bool)
    ensures
        r == is_ws(b),
{
    b == 32 || (9 <= b && b <= 13)
}

/// `s` without its leading whitespace.
pub open spec fn spec_trim_front(s: Seq<u8>) -> Seq<u8>
    decreases s.len(),
{
    if s.len() > 0 && is_ws(s[0]) {
        spec_trim_front(s.subrange(1, s.len() as int))
    } else {
        s
    }
}

/// `s` without its trailing whitespace.
pub open spec fn spec_trim_back(s: Seq<u8>) -> Seq<u8>
    decreases s.len(),
{
    if s.len() > 0 && is_ws(s[s.len() - 1]) {
        spec_trim_back(s.subrange(0, s.len() - 1))
    } else {
        s
    }
}

/// `s` without leading and trailing whitespace.
pub open spec fn spec_trim(s: Seq<u8>) -> Seq<u8> {
    spec_trim_back(spec_trim_front(s))
}

/// Trimming the front keeps everything from the first non-whitespace byte.
pub proof fn lemma_trim_front_is(s: Seq<u8>, a: int)
    requires
        0 <= a <= s.len(),
        forall|j: int| 0 <= j < a ==> is_ws(s[j]),
        a == s.len() || !is_ws(s[a]),
    ensures
        spec_trim_front(s) == s.subrange(a, s.len() as int),
    decreases a,
{
    if a == 0 {
        if s.len() > 0 && is_ws(s[0]) {
            assert(false);
        }
        assert(s.subrange(0, s.len() as int) =~= s);
    } else {
        let rest = s.subrange(1, s.len() as int);
        assert(is_ws(s[0]));
        assert forall|j: int| 0 <= j < a - 1 implies is_ws(rest[j]) by {
            assert(rest[j] == s[j + 1]);
        }
        lemma_trim_front_is(rest, a - 1);
        assert(rest.subrange(a - 1, rest.len() as int) =~= s.subrange(a, s.len() as int));
    }
}

/// Trimming the back keeps everything up to the last non-whitespace byte.
pub proof fn lemma_trim_back_is(s: Seq<u8>, b: int)
    requires
        0 <= b <= s.len(),
        forall|j: int| b <= j < s.len() ==> is_ws(s[j]),
        b == 0 || !is_ws(s[b - 1]),
    ensures
        spec_trim_back(s) == s.subrange(0, b),
    decreases s.len() - b,
{
    if b == s.len() {
        if s.len() > 0 && is_ws(s[s.len() - 1]) {
            assert(false);
        }
        assert(s.subrange(0, s.len() as int) =~= s);
    } else {
        let rest = s.subrange(0, s.len() - 1);
        assert(is_ws(s[s.len() - 1]));
        assert forall|j: int| b <= j < rest.len() implies is_ws(rest[j]) by {
            assert(rest[j] == s[j]);
        }
        lemma_trim_back_is(rest, b);
        assert(rest.subrange(0, b) =~= s.subrange(0, b));
    }
}

/// Removes leading and trailing whitespace.
pub fn trim(s: &[u8]) -> (r: Vec<u8>)
    ensures
        r@ == spec_trim(s@),
{
    let mut a: usize = 0;
    while a < s.len() && is_ws_byte(s[a])
        invariant
            a <= s@.len(),
            forall|j: int| 0 <= j < a ==> is_ws(s@[j]),
        decreases s@.len() - a,
    {
        a += 1;
    }
    proof {
        lemma_trim_front_is(s@, a as int);
    }
    let mut b: usize = s.len();
    while b > a && is_ws_byte(s[b - 1])
        invariant
            a <= b <= s@.len(),
            forall|j: int| b <= j < s@.len() ==> is_ws(s@[j]),
        decreases b,
    {
        b -= 1;
    }
    let ghost front = s@.subrange(a as int, s@.len() as int);
    proof {
        assert forall|j: int| b - a <= j < front.len() implies is_ws(front[j]) by {
            assert(front[j] == s@[a + j]);
        }
        if b > a {
            assert(front[b - a - 1] == s@[b - 1]);
        }
        lemma_trim_back_is(front, b - a);
        assert(front.subrange(0, b - a) =~= s@.subrange(a as int, b as int));
    }
    subvec(s, a, b)
}

/// Whether some byte of `s` is whitespace.
pub open spec fn has_ws(s: Seq<u8>) -> bool {
    exists|i: int| 0 <= i < s.len() && is_ws(s[i])
}

/// Index of the first whitespace byte (meaningful when `has_ws`).
pub open spec fn first_ws(s: Seq<u8>) -> int
    decreases s.len(),
{
    if s.len() == 0 {
        0
    } else if is_ws(s[0]) {
        0
    } else {
        1 + first_ws(s.subrange(1, s.len() as int))
    }
}

/// When whitespace occurs, `first_ws` points at its first occurrence.
pub proof fn lemma_first_ws(s: Seq<u8>)
    requires
        has_ws(s),
    ensures
        0 <= first_ws(s) < s.len(),
        is_ws(s[first_ws(s)]),
        forall|j: int| 0 <= j < first_ws(s) ==> !is_ws(s[j]),
    decreases s.len(),
{
    if s.len() == 0 {
    } else if is_ws(s[0]) {
    } else {
        let rest = s.subrange(1, s.len() as int);
        assert(has_ws(rest)) by {
            let i = choose|i: int| 0 <= i < s.len() && is_ws(s[i]);
            assert(rest[i - 1] == s[i]);
        }
        lemma_first_ws(rest);
        assert forall|j: int| 0 <= j < first_ws(s) implies !is_ws(s[j]) by {
            if j >= 1 {
                assert(rest[j - 1] == s[j]);
            }
        }
    }
}

/// If whitespace first occurs at `i`, then `first_ws` is `i`.
pub proof fn lemma_first_ws_is(s: Seq<u8>, i: int)
    requires
        0 <= i < s.len(),
        is_ws(s[i]),
        forall|j: int| 0 <= j < i ==> !is_ws(s[j]),
    ensures
        has_ws(s),
        first_ws(s) == i,
{
    assert(has_ws(s));
    lemma_first_ws(s);
    let fi = first_ws(s);
    if fi < i {
        assert(!is_ws(s[fi]));
    }
    if fi > i {
        assert(!is_ws(s[i]));
    }
}

/// The first whitespace-delimited token of `s`: the first maximal
/// non-whitespace run, or empty when there is none.
pub open spec fn spec_token(s: Seq<u8>) -> Seq<u8> {
    let t = spec_trim_front(s);
    if has_ws(t) {
        t.subrange(0, first_ws(t))
    } else {
        t
    }
}

/// What follows the first token of `s`, whitespace included.
pub open spec fn spec_after_token(s: Seq<u8>) -> Seq<u8> {
    let t = spec_trim_front(s);
    if has_ws(t) {
        t.subrange(first_ws(t), t.len() as int)
    } else {
        Seq::empty()
    }
}

/// The first whitespace-delimited token of `s` and everything after it.
pub fn take_token(s: &[u8]) -> (r: (Vec<u8>, Vec<u8>))
    ensures
        r.0@ == spec_token(s@),
        r.1@ == spec_after_token(s@),
{
    let mut a: usize = 0;
    while a < s.len() && is_ws_byte(s[a])
        invariant
            a <= s@.len(),
            forall|j: int| 0 <= j < a ==> is_ws(s@[j]),
        decreases s@.len() - a,
    {
        a += 1;
    }
    proof {
        lemma_trim_front_is(s@, a as int);
    }
    let ghost t = s@.subrange(a as int, s@.len() as int);
    let mut e: usize = a;
    while e < s.len() && !is_ws_byte(s[e])
        invariant
            a <= e <= s@.len(),
            forall|j: int| a <= j < e ==> !is_ws(s@[j]),
        decreases s@.len() - e,
    {
        e += 1;
    }
    proof {
        assert forall|j: int| 0 <= j < e - a implies !is_ws(t[j]) by {
            assert(t[j] == s@[a + j]);
        }
        if e < s.len() {
            assert(t[e - a] == s@[e as int]);
            lemma_first_ws_is(t, e - a);
            assert(t.subrange(0, e - a) =~= s@.subrange(a as int, e as int));
            assert(t.subrange(e - a, t.len() as int) =~= s@.subrange(e as int, s@.len() as int));
        } else {
            assert(!has_ws(t)) by {
                if has_ws(t) {
                    let j = choose|j: int| 0 <= j < t.len() && is_ws(t[j]);
                    assert(!is_ws(t[j]));
                }
            }
            assert(t =~= s@.subrange(a as int, e as int));
        }
    }
    (subvec(s, a, e), subvec(s, e, s.len()))
}

/// Joins the parts with `sep` between each pair.
pub fn join_with(parts: &Vec<Vec<u8>>, sep: u8) -> (r: Vec<u8>)
    ensures
        r@ == spec_join(views_of(parts@), sep),
{
    let mut r: Vec<u8> = Vec::new();
    if parts.len() == 0 {
        proof {
            assert(views_of(parts@) =~= Seq::<Seq<u8>>::empty());
        }
        return r;
    }
    let mut i: usize = 0;
    while i < parts.len()
        invariant
            0 < parts@.len(),
            i <= parts@.len(),
            r@ == spec_join(views_of(parts@).subrange(0, i as int), sep),
        decreases parts@.len() - i,
    {
        let ghost prefix = views_of(parts@).subrange(0, i as int);
        let ghost part = parts@[i as int]@;
        if i > 0 {
            r.push(sep);
        }
        append_bytes(&mut r, parts[i].as_slice());
        proof {
            assert(views_of(parts@).subrange(0, i + 1) =~= prefix.push(part));
            lemma_join_push(prefix, part, sep);
            if i > 0 {
                assert(r@ =~= spec_join(prefix, sep) + seq![sep] + part);
            } else {
                assert(r@ =~= part);
            }
        }
        i += 1;
    }
    proof {
        assert(views_of(parts@).subrange(0, parts@.len() as int) =~= views_of(parts@));
    }
    r
}

/// Decimal digit sequence of `n`, most significant first.
pub open spec fn spec_decimal(n: nat) -> Seq<u8>
    decreases n,
{
    if n < 10 {
        seq![(n + 0x30) as u8]
    } else {
        spec_decimal(n / 10) + seq![(n % 10 + 0x30) as u8]
    }
}

/// Renders `n` in decimal notation.
pub fn usize_to_decimal(n: usize) -> (r: Vec<u8>)
    ensures
        r@ == spec_decimal(n as nat),
    decreases n,
{
    if n < 10 {
        let mut r: Vec<u8> = Vec::new();
        r.push(0x30 + (n as u8));
        assert(r@ =~= spec_decimal(n as nat));
        r
    } else {
        let mut r = usize_to_decimal(n / 10);
        r.push(0x30 + ((n % 10) as u8));
        assert(r@ =~= spec_decimal(n as nat));
        r
    }
}

} // verus!
