//! Seeding vocabulary candidates: every substring of at most
//! `max_token_len` bytes that starts and ends at character boundaries is
//! counted, per word unit of each line.
use vstd::prelude::*;
use vstd::utf8::{encode_scalar, encode_utf8, is_scalar};
use crate::trainer::counts::{keep, sat_add, SubstringCounts};
pub use crate::trainer::counts::is_single_unicode;

verus! {

/// The first position from `i` on that holds no space (or the end).
pub open spec fn skip_spaces(l: Seq<u8>, i: int) -> int
    decreases l.len() - i,
{
    if 0 <= i < l.len() && l[i] == 32 {
        skip_spaces(l, i + 1)
    } else {
        i
    }
}

/// The first position from `i` on that holds a space (or the end).
pub open spec fn skip_word(l: Seq<u8>, i: int) -> int
    decreases l.len() - i,
{
    if 0 <= i < l.len() && l[i] != 32 {
        skip_word(l, i + 1)
    } else {
        i
    }
}

/// The word units of `l` from `i` on: a run of two or more spaces is a unit
/// of its own (and the word after it another); a single space stays with
/// the word that follows it.
pub open spec fn units_from(l: Seq<u8>, i: int) -> Seq<Seq<u8>>
    decreases l.len() - i,
{
    if i < 0 || i >= l.len() {
        seq![]
    } else {
        let j = skip_spaces(l, i);
        let k = skip_word(l, j);
        if k <= i || k > l.len() {
            seq![]
        } else if j - i > 1 {
            seq![l.subrange(i, j)] + (if k > j {
                seq![l.subrange(j, k)]
            } else {
                Seq::<Seq<u8>>::empty()
            }) + units_from(l, k)
        } else {
            seq![l.subrange(i, k)] + units_from(l, k)
        }
    }
}

proof fn lemma_skip_spaces(l: Seq<u8>, i: int)
    requires
        0 <= i <= l.len(),
    ensures
        i <= skip_spaces(l, i) <= l.len(),
        forall|q: int| i <= q < skip_spaces(l, i) ==> l[q] == 32,
        skip_spaces(l, i) < l.len() ==> l[skip_spaces(l, i)] != 32,
    decreases l.len() - i,
{
    if i < l.len() && l[i] == 32 {
        lemma_skip_spaces(l, i + 1);
    }
}

proof fn lemma_skip_word(l: Seq<u8>, i: int)
    requires
        0 <= i <= l.len(),
    ensures
        i <= skip_word(l, i) <= l.len(),
        forall|q: int| i <= q < skip_word(l, i) ==> l[q] != 32,
        skip_word(l, i) < l.len() ==> l[skip_word(l, i)] == 32,
    decreases l.len() - i,
{
    if i < l.len() && l[i] != 32 {
        lemma_skip_word(l, i + 1);
    }
}

/// Byte `b` can start a UTF-8 character: it is no continuation byte.
pub open spec fn char_start(b: u8) -> bool {
    !(0x80 <= b && b <= 0xBF)
}

/// The positions below `k` where characters of `u` start.
pub open spec fn starts_upto(u: Seq<u8>, k: int) -> Seq<int>
    decreases k,
{
    if k <= 0 {
        seq![]
    } else {
        starts_upto(u, k - 1) + if char_start(u[k - 1]) {
            seq![k - 1]
        } else {
            Seq::<int>::empty()
        }
    }
}

/// Where an end candidate `ei` of the substrings of `u` lies: at the
/// `ei`-th character start, or at the end of `u`.
pub open spec fn end_at(u: Seq<u8>, st: Seq<int>, ei: int) -> int {
    if ei < st.len() {
        st[ei]
    } else {
        u.len() as int
    }
}

/// The substrings of `u` that start at character start `si` and end at the
/// candidates `ei, ei + 1, ...`, as long as they are at most `max` bytes.
pub open spec fn subs_at(u: Seq<u8>, st: Seq<int>, max: int, si: int, ei: int) -> Seq<Seq<u8>>
    decreases st.len() + 1 - ei,
{
    if ei < 0 || ei > st.len() {
        seq![]
    } else if end_at(u, st, ei) - st[si] > max {
        seq![]
    } else {
        seq![u.subrange(st[si], end_at(u, st, ei))] + subs_at(u, st, max, si, ei + 1)
    }
}

/// The substrings counted for the character starts `si, si + 1, ...`.
pub open spec fn subs_from(u: Seq<u8>, st: Seq<int>, max: int, si: int) -> Seq<Seq<u8>>
    decreases st.len() - si,
{
    if si < 0 || si >= st.len() {
        seq![]
    } else {
        subs_at(u, st, max, si, si + 1) + subs_from(u, st, max, si + 1)
    }
}

/// The substrings counted in one unit `u`: from each character start, each
/// substring that ends at a later character start or at the end of `u`,
/// shortest first, up to `max` bytes.
pub open spec fn unit_subs(u: Seq<u8>, max: int) -> Seq<Seq<u8>> {
    subs_from(u, starts_upto(u, u.len() as int), max, 0)
}

/// The bytes of a unit that are counted: a single leading space is dropped
/// (the encoder folds it into the flag).
pub open spec fn count_part(u: Seq<u8>) -> Seq<u8> {
    if u.len() >= 2 && u[0] == 32 && u[1] != 32 {
        u.subrange(1, u.len() as int)
    } else {
        u
    }
}

/// The substrings counted in the units `us`, in order.
pub open spec fn units_subs(us: Seq<Seq<u8>>, max: int) -> Seq<Seq<u8>>
    decreases us.len(),
{
    if us.len() == 0 {
        seq![]
    } else {
        unit_subs(count_part(us[0]), max) + units_subs(us.drop_first(), max)
    }
}

/// A line without its trailing `\r`, if any.
pub open spec fn strip_cr(l: Seq<u8>) -> Seq<u8> {
    if l.len() > 0 && l.last() == 13 {
        l.drop_last()
    } else {
        l
    }
}

/// The substrings counted in one line.
pub open spec fn line_subs(l: Seq<u8>, max: int) -> Seq<Seq<u8>> {
    units_subs(units_from(strip_cr(l), 0), max)
}

/// The first newline from `i` on (or the end).
pub open spec fn first_newline(d: Seq<u8>, i: int) -> int
    decreases d.len() - i,
{
    if 0 <= i < d.len() && d[i] != 10 {
        first_newline(d, i + 1)
    } else {
        i
    }
}

/// The lines of `d` from `i` on, split at newlines (a trailing newline
/// leaves an empty last line).
pub open spec fn lines_from(d: Seq<u8>, i: int) -> Seq<Seq<u8>>
    decreases d.len() - i,
{
    if i < 0 || i > d.len() {
        seq![]
    } else if first_newline(d, i) >= d.len() {
        seq![d.subrange(i, d.len() as int)]
    } else if first_newline(d, i) < i {
        seq![]
    } else {
        seq![d.subrange(i, first_newline(d, i))] + lines_from(d, first_newline(d, i) + 1)
    }
}

/// The substrings counted in the lines `ls`, in order.
pub open spec fn lines_subs(ls: Seq<Seq<u8>>, max: int) -> Seq<Seq<u8>>
    decreases ls.len(),
{
    if ls.len() == 0 {
        seq![]
    } else {
        line_subs(ls[0], max) + lines_subs(ls.drop_first(), max)
    }
}

/// The substrings counted in a text, in order.
pub open spec fn text_subs(d: Seq<u8>, max: int) -> Seq<Seq<u8>> {
    lines_subs(lines_from(d, 0), max)
}

/// How often `t` occurs in `xs`.
pub open spec fn occ(xs: Seq<Seq<u8>>, t: Seq<u8>) -> nat
    decreases xs.len(),
{
    if xs.len() == 0 {
        0
    } else {
        occ(xs.drop_last(), t) + if xs.last() == t {
            1nat
        } else {
            0nat
        }
    }
}

/// Counting `a` and then `b` counts `a + b`.
pub proof fn lemma_occ_concat(a: Seq<Seq<u8>>, b: Seq<Seq<u8>>, t: Seq<u8>)
    ensures
        occ(a + b, t) == occ(a, t) + occ(b, t),
    decreases b.len(),
{
    if b.len() > 0 {
        lemma_occ_concat(a, b.drop_last(), t);
        assert((a + b).drop_last() =~= a + b.drop_last());
    } else {
        assert(a + b =~= a);
    }
}

/// Adding in two steps adds the sum (saturating at `u64::MAX`).
pub proof fn lemma_sat_twice(c: int, a: int, b: int)
    requires
        0 <= c <= u64::MAX,
        0 <= a,
        0 <= b,
    ensures
        sat_add(sat_add(c, a), b) == sat_add(c, a + b),
{
}

/// Counts after adding the occurrences in `xs` to `c0`.
pub open spec fn counted(c0: SubstringCounts, c: SubstringCounts, xs: Seq<Seq<u8>>) -> bool {
    forall|t: Seq<u8>| #[trigger] c.count_of(t) == sat_add(c0.count_of(t) as int, occ(xs, t) as int)
}

/// Counting `a` and then `b` on top of it counts `a + b`.
proof fn lemma_counted_concat(
    c0: SubstringCounts,
    c1: SubstringCounts,
    c2: SubstringCounts,
    a: Seq<Seq<u8>>,
    b: Seq<Seq<u8>>,
)
    requires
        counted(c0, c1, a),
        counted(c1, c2, b),
    ensures
        counted(c0, c2, a + b),
{
    assert forall|t: Seq<u8>| #[trigger] c2.count_of(t) == sat_add(c0.count_of(t) as int, occ(a + b, t) as int) by {
        lemma_occ_concat(a, b, t);
        assert(c1.count_of(t) == sat_add(c0.count_of(t) as int, occ(a, t) as int));
        c0.lemma_count_bound(t);
        lemma_sat_twice(c0.count_of(t) as int, occ(a, t) as int, occ(b, t) as int);
    }
}

/// Counting one string `x` adds one to its count.
proof fn lemma_counted_one(c0: SubstringCounts, c1: SubstringCounts, x: Seq<u8>)
    requires
        c1.count_of(x) == sat_add(c0.count_of(x) as int, 1),
        forall|q: Seq<u8>| q != x ==> #[trigger] c1.count_of(q) == c0.count_of(q),
    ensures
        counted(c0, c1, seq![x]),
{
    assert forall|t: Seq<u8>| #[trigger] c1.count_of(t) == sat_add(c0.count_of(t) as int, occ(seq![x], t) as int) by {
        assert(seq![x].drop_last() =~= Seq::<Seq<u8>>::empty());
        assert(seq![x].last() == x);
        assert(occ(Seq::<Seq<u8>>::empty(), t) == 0);
        assert(occ(seq![x], t) == occ(seq![x].drop_last(), t) + if x == t {
            1nat
        } else {
            0nat
        });
        c0.lemma_count_bound(t);
    }
}

/// Counting nothing changes nothing.
proof fn lemma_counted_empty(c: SubstringCounts)
    ensures
        counted(c, c, Seq::<Seq<u8>>::empty()),
{
    assert forall|t: Seq<u8>| #[trigger] c.count_of(t) == sat_add(c.count_of(t) as int, occ(Seq::<Seq<u8>>::empty(), t) as int) by {
        c.lemma_count_bound(t);
    }
}

/// Splits one line into word units (see `units_from`).
pub fn split_line_into_units(line: &[u8]) -> (r: Vec<&[u8]>)
    ensures
        r@.len() == units_from(line@, 0).len(),
        forall|k: int| 0 <= k < r@.len() ==> (#[trigger] r@[k])@ == units_from(line@, 0)[k],
{
    let ghost l = line@;
    let n = line.len();
    let mut units: Vec<&[u8]> = Vec::new();
    let mut i: usize = 0;
    let ghost mut done: Seq<Seq<u8>> = seq![];
    proof {
        assert(done + units_from(l, 0) =~= units_from(l, 0));
    }
    while i < n
        invariant
            l == line@,
            n == l.len(),
            0 <= i <= n,
            units@.len() == done.len(),
            forall|k: int| 0 <= k < done.len() ==> (#[trigger] units@[k])@ == done[k],
            done + units_from(l, i as int) == units_from(l, 0),
        decreases n - i,
    {
        let start = i;
        while i < n && line[i] == 32
            invariant
                l == line@,
                n == l.len(),
                start <= i <= n,
                skip_spaces(l, start as int) == skip_spaces(l, i as int),
            decreases n - i,
        {
            i = i + 1;
        }
        let j = i;
        proof {
            lemma_skip_spaces(l, start as int);
        }
        let ghost rest_before = units_from(l, start as int);
        if j - start > 1 {
            units.push(&line[start..j]);
            let word_start = i;
            while i < n && line[i] != 32
                invariant
                    l == line@,
                    n == l.len(),
                    word_start <= i <= n,
                    skip_word(l, word_start as int) == skip_word(l, i as int),
                decreases n - i,
            {
                i = i + 1;
            }
            proof {
                lemma_skip_word(l, word_start as int);
            }
            if i > word_start {
                units.push(&line[word_start..i]);
            }
            proof {
                let added = seq![l.subrange(start as int, j as int)] + (if i > j {
                    seq![l.subrange(j as int, i as int)]
                } else {
                    Seq::<Seq<u8>>::empty()
                });
                assert(rest_before == added + units_from(l, i as int));
                assert(done + rest_before =~= (done + added) + units_from(l, i as int));
                done = done + added;
            }
        } else {
            while i < n && line[i] != 32
                invariant
                    l == line@,
                    n == l.len(),
                    j <= i <= n,
                    skip_word(l, j as int) == skip_word(l, i as int),
                decreases n - i,
            {
                i = i + 1;
            }
            proof {
                lemma_skip_word(l, j as int);
            }
            if i > start {
                units.push(&line[start..i]);
            }
            proof {
                assert(i > start);
                let added = seq![l.subrange(start as int, i as int)];
                assert(rest_before == added + units_from(l, i as int));
                assert(done + rest_before =~= (done + added) + units_from(l, i as int));
                done = done + added;
            }
        }
    }
    proof {
        assert(units_from(l, n as int) =~= Seq::<Seq<u8>>::empty());
        assert(done + Seq::<Seq<u8>>::empty() =~= done);
    }
    units
}


/// The character starts of `u` are increasing positions inside `u`.
proof fn lemma_starts(u: Seq<u8>, k: int)
    requires
        0 <= k <= u.len(),
    ensures
        forall|a: int| 0 <= a < starts_upto(u, k).len() ==> 0 <= #[trigger] starts_upto(u, k)[a] < k,
        forall|a: int, b: int|
            0 <= a < b < starts_upto(u, k).len() ==> #[trigger] starts_upto(u, k)[a] < #[trigger] starts_upto(
                u,
                k,
            )[b],
        starts_upto(u, k).len() <= k,
    decreases k,
{
    if k > 0 {
        lemma_starts(u, k - 1);
    }
}

/// Every string in `xs` is at most `max` bytes long.
pub open spec fn all_short(xs: Seq<Seq<u8>>, max: int) -> bool {
    forall|k: int| 0 <= k < xs.len() ==> #[trigger] xs[k].len() <= max
}

proof fn lemma_short_concat(a: Seq<Seq<u8>>, b: Seq<Seq<u8>>, max: int)
    requires
        all_short(a, max),
        all_short(b, max),
    ensures
        all_short(a + b, max),
{
    assert forall|k: int| 0 <= k < (a + b).len() implies #[trigger] (a + b)[k].len() <= max by {
        if k < a.len() {
            assert((a + b)[k] == a[k]);
        } else {
            assert((a + b)[k] == b[k - a.len()]);
        }
    }
}

proof fn lemma_subs_at_short(u: Seq<u8>, st: Seq<int>, max: int, si: int, ei: int)
    requires
        st == starts_upto(u, u.len() as int),
        0 <= si < st.len(),
        si < ei,
    ensures
        all_short(subs_at(u, st, max, si, ei), max),
    decreases st.len() + 1 - ei,
{
    lemma_starts(u, u.len() as int);
    if 0 <= ei <= st.len() && !(end_at(u, st, ei) - st[si] > max) {
        lemma_subs_at_short(u, st, max, si, ei + 1);
        let e = end_at(u, st, ei);
        assert(st[si] < e <= u.len());
        let head = seq![u.subrange(st[si], e)];
        assert(head[0].len() == e - st[si]);
        lemma_short_concat(head, subs_at(u, st, max, si, ei + 1), max);
    }
}

proof fn lemma_subs_from_short(u: Seq<u8>, st: Seq<int>, max: int, si: int)
    requires
        st == starts_upto(u, u.len() as int),
        0 <= si,
    ensures
        all_short(subs_from(u, st, max, si), max),
    decreases st.len() - si,
{
    if si < st.len() {
        lemma_subs_at_short(u, st, max, si, si + 1);
        lemma_subs_from_short(u, st, max, si + 1);
        lemma_short_concat(subs_at(u, st, max, si, si + 1), subs_from(u, st, max, si + 1), max);
    }
}

/// No substring counted in a unit is longer than `max` bytes.
pub proof fn lemma_unit_subs_short(u: Seq<u8>, max: int)
    ensures
        all_short(unit_subs(u, max), max),
{
    lemma_subs_from_short(u, starts_upto(u, u.len() as int), max, 0);
}

proof fn lemma_units_subs_short(us: Seq<Seq<u8>>, max: int)
    ensures
        all_short(units_subs(us, max), max),
    decreases us.len(),
{
    if us.len() > 0 {
        lemma_unit_subs_short(count_part(us[0]), max);
        lemma_units_subs_short(us.drop_first(), max);
        lemma_short_concat(unit_subs(count_part(us[0]), max), units_subs(us.drop_first(), max), max);
    }
}

proof fn lemma_lines_subs_short(ls: Seq<Seq<u8>>, max: int)
    ensures
        all_short(lines_subs(ls, max), max),
    decreases ls.len(),
{
    if ls.len() > 0 {
        lemma_units_subs_short(units_from(strip_cr(ls[0]), 0), max);
        lemma_lines_subs_short(ls.drop_first(), max);
        lemma_short_concat(line_subs(ls[0], max), lines_subs(ls.drop_first(), max), max);
    }
}

/// No substring counted in a text is longer than `max` bytes.
pub proof fn lemma_text_subs_short(d: Seq<u8>, max: int)
    ensures
        all_short(text_subs(d, max), max),
{
    lemma_lines_subs_short(lines_from(d, 0), max);
}

/// Every character start of `u` below `k` is listed by `starts_upto`.
proof fn lemma_start_index(u: Seq<u8>, k: int, p: int)
    requires
        0 <= p < k <= u.len(),
        char_start(u[p]),
    ensures
        exists|j: int| 0 <= j < starts_upto(u, k).len() && starts_upto(u, k)[j] == p,
    decreases k,
{
    let prev = starts_upto(u, k - 1);
    if p == k - 1 {
        assert(starts_upto(u, k)[prev.len() as int] == p);
    } else {
        lemma_start_index(u, k - 1, p);
        let j = choose|j: int| 0 <= j < prev.len() && prev[j] == p;
        assert(starts_upto(u, k)[j] == p);
    }
}

proof fn lemma_subs_at_has(u: Seq<u8>, st: Seq<int>, max: int, si: int, ei0: int, ei: int)
    requires
        st == starts_upto(u, u.len() as int),
        0 <= si < st.len(),
        si < ei0 <= ei <= st.len(),
        end_at(u, st, ei) - st[si] <= max,
    ensures
        exists|k: int|
            0 <= k < subs_at(u, st, max, si, ei0).len() && subs_at(u, st, max, si, ei0)[k] == u.subrange(
                st[si],
                end_at(u, st, ei),
            ),
    decreases ei - ei0,
{
    lemma_starts(u, u.len() as int);
    assert(end_at(u, st, ei0) <= end_at(u, st, ei));
    let xs = subs_at(u, st, max, si, ei0);
    let rest = subs_at(u, st, max, si, ei0 + 1);
    assert(xs == seq![u.subrange(st[si], end_at(u, st, ei0))] + rest);
    if ei0 == ei {
        assert(xs[0] == u.subrange(st[si], end_at(u, st, ei)));
    } else {
        lemma_subs_at_has(u, st, max, si, ei0 + 1, ei);
        let k = choose|k: int| 0 <= k < rest.len() && rest[k] == u.subrange(st[si], end_at(u, st, ei));
        assert(xs[k + 1] == rest[k]);
    }
}

proof fn lemma_subs_from_has(u: Seq<u8>, st: Seq<int>, max: int, si0: int, si: int, t: Seq<u8>)
    requires
        0 <= si0 <= si < st.len(),
        exists|k: int| 0 <= k < subs_at(u, st, max, si, si + 1).len() && #[trigger] subs_at(u, st, max, si, si + 1)[k] == t,
    ensures
        exists|k: int| 0 <= k < subs_from(u, st, max, si0).len() && #[trigger] subs_from(u, st, max, si0)[k] == t,
    decreases si - si0,
{
    let here = subs_at(u, st, max, si0, si0 + 1);
    let rest = subs_from(u, st, max, si0 + 1);
    assert(subs_from(u, st, max, si0) == here + rest);
    if si0 == si {
        let k = choose|k: int| 0 <= k < here.len() && here[k] == t;
        assert((here + rest)[k] == t);
    } else {
        lemma_subs_from_has(u, st, max, si0 + 1, si, t);
        let k = choose|k: int| 0 <= k < rest.len() && rest[k] == t;
        assert((here + rest)[here.len() + k] == t);
    }
}

/// Every substring of a unit that starts and ends at character boundaries
/// and is at most `max` bytes long is counted.
pub proof fn lemma_unit_subs_complete(u: Seq<u8>, max: int, a: int, b: int)
    requires
        0 <= a < b <= u.len(),
        char_start(u[a]),
        b == u.len() || char_start(u[b]),
        b - a <= max,
    ensures
        exists|k: int| 0 <= k < unit_subs(u, max).len() && unit_subs(u, max)[k] == u.subrange(a, b),
{
    let st = starts_upto(u, u.len() as int);
    lemma_starts(u, u.len() as int);
    lemma_start_index(u, u.len() as int, a);
    let si = choose|j: int| 0 <= j < st.len() && st[j] == a;
    let ei = if b == u.len() {
        st.len() as int
    } else {
        lemma_start_index(u, u.len() as int, b);
        choose|j: int| 0 <= j < st.len() && st[j] == b
    };
    assert(end_at(u, st, ei) == b);
    if ei <= si {
        if ei < st.len() {
            assert(st[ei] <= st[si]);
        }
    }
    lemma_subs_at_has(u, st, max, si, si + 1, ei);
    assert(u.subrange(st[si], end_at(u, st, ei)) == u.subrange(a, b));
    lemma_subs_from_has(u, st, max, 0, si, u.subrange(a, b));
    assert(unit_subs(u, max) == subs_from(u, st, max, 0));
    let k = choose|k: int| 0 <= k < subs_from(u, st, max, 0).len() && #[trigger] subs_from(u, st, max, 0)[k] == u.subrange(a, b);
    assert(unit_subs(u, max)[k] == u.subrange(a, b));
}

/// A string that occurs in `xs` is one of its elements.
proof fn lemma_occ_member(xs: Seq<Seq<u8>>, t: Seq<u8>)
    requires
        occ(xs, t) > 0,
    ensures
        exists|k: int| 0 <= k < xs.len() && xs[k] == t,
    decreases xs.len(),
{
    if xs.last() == t {
        assert(xs[xs.len() - 1] == t);
    } else {
        lemma_occ_member(xs.drop_last(), t);
        let k = choose|k: int| 0 <= k < xs.drop_last().len() && xs.drop_last()[k] == t;
        assert(xs[k] == t);
    }
}

/// Counts the substrings of one unit (see `unit_subs`); `starts_buf` is
/// scratch space.
fn count_unit(u: &[u8], max_token_len: usize, counts: &mut SubstringCounts, starts_buf: &mut Vec<usize>)
    requires
        old(counts).wf(),
    ensures
        final(counts).wf(),
        counted(*old(counts), *final(counts), unit_subs(u@, max_token_len as int)),
{
    let ghost uq = u@;
    let ghost max = max_token_len as int;
    let n = u.len();
    starts_buf.clear();
    let mut i: usize = 0;
    while i < n
        invariant
            uq == u@,
            n == uq.len(),
            0 <= i <= n,
            starts_buf@.len() == starts_upto(uq, i as int).len(),
            forall|k: int| 0 <= k < starts_buf@.len() ==> #[trigger] starts_buf@[k] as int == starts_upto(uq, i as int)[k],
        decreases n - i,
    {
        let b = u[i];
        if !(0x80 <= b && b <= 0xBF) {
            starts_buf.push(i);
        }
        i = i + 1;
        proof {
            assert(starts_upto(uq, i as int) == starts_upto(uq, i - 1) + if char_start(uq[i - 1]) {
                seq![i - 1]
            } else {
                Seq::<int>::empty()
            });
        }
    }
    let ghost st = starts_upto(uq, n as int);
    proof {
        lemma_starts(uq, n as int);
        lemma_counted_empty(*counts);
        assert(Seq::<Seq<u8>>::empty() + subs_from(uq, st, max, 0) =~= subs_from(uq, st, max, 0));
    }
    let ns = starts_buf.len();
    let ghost c0 = *counts;
    let ghost mut done: Seq<Seq<u8>> = seq![];
    let mut si: usize = 0;
    while si < ns
        invariant
            uq == u@,
            n == uq.len(),
            max == max_token_len,
            st == starts_upto(uq, n as int),
            ns == st.len(),
            starts_buf@.len() == ns,
            forall|k: int| 0 <= k < ns ==> #[trigger] starts_buf@[k] as int == st[k],
            forall|a: int| 0 <= a < st.len() ==> 0 <= #[trigger] st[a] < n,
            forall|a: int, b: int| 0 <= a < b < st.len() ==> #[trigger] st[a] < #[trigger] st[b],
            0 <= si <= ns,
            c0.wf(),
            counts.wf(),
            counted(c0, *counts, done),
            done + subs_from(uq, st, max, si as int) == subs_from(uq, st, max, 0),
        decreases ns - si,
    {
        let s = starts_buf[si];
        let mut ei = si + 1;
        let mut open = true;
        let ghost c1 = *counts;
        let ghost mut here: Seq<Seq<u8>> = seq![];
        proof {
            lemma_counted_empty(*counts);
            assert(here + subs_at(uq, st, max, si as int, ei as int) =~= subs_at(uq, st, max, si as int, si + 1));
        }
        while ei < ns && open
            invariant
                uq == u@,
                n == uq.len(),
                max == max_token_len,
                st == starts_upto(uq, n as int),
                ns == st.len(),
                starts_buf@.len() == ns,
                forall|k: int| 0 <= k < ns ==> #[trigger] starts_buf@[k] as int == st[k],
                forall|a: int| 0 <= a < st.len() ==> 0 <= #[trigger] st[a] < n,
                forall|a: int, b: int| 0 <= a < b < st.len() ==> #[trigger] st[a] < #[trigger] st[b],
                0 <= si < ns,
                s as int == st[si as int],
                si + 1 <= ei <= ns,
                c1.wf(),
                counts.wf(),
                counted(c1, *counts, here),
                here + (if open {
                    subs_at(uq, st, max, si as int, ei as int)
                } else {
                    Seq::<Seq<u8>>::empty()
                }) == subs_at(uq, st, max, si as int, si + 1),
            decreases ns - ei + (if open { 1int } else { 0int }),
        {
            let e = starts_buf[ei];
            if e - s > max_token_len {
                open = false;
            } else {
                let ghost c2 = *counts;
                let piece = &u[s..e];
                counts.add_one(piece);
                proof {
                    let x = uq.subrange(s as int, e as int);
                    assert(piece@ == x);
                    lemma_counted_one(c2, *counts, x);
                    lemma_counted_concat(c1, c2, *counts, here, seq![x]);
                    assert(here + seq![x] + subs_at(uq, st, max, si as int, ei + 1) =~= here + subs_at(uq, st, max, si as int, ei as int));
                    here = here + seq![x];
                }
                ei = ei + 1;
            }
        }
        if open {
            if n - s <= max_token_len {
                let ghost c2 = *counts;
                let piece = &u[s..n];
                counts.add_one(piece);
                proof {
                    let x = uq.subrange(s as int, n as int);
                    assert(piece@ == x);
                    lemma_counted_one(c2, *counts, x);
                    lemma_counted_concat(c1, c2, *counts, here, seq![x]);
                    assert(subs_at(uq, st, max, si as int, ns + 1) =~= Seq::<Seq<u8>>::empty());
                    assert(here + seq![x] =~= here + subs_at(uq, st, max, si as int, ns as int));
                    here = here + seq![x];
                }
            } else {
                proof {
                    assert(subs_at(uq, st, max, si as int, ns as int) =~= Seq::<Seq<u8>>::empty());
                }
            }
        }
        proof {
            assert(here + Seq::<Seq<u8>>::empty() =~= here);
            lemma_counted_concat(c0, c1, *counts, done, here);
            assert(done + here + subs_from(uq, st, max, si + 1) =~= done + subs_from(uq, st, max, si as int));
            done = done + here;
        }
        si = si + 1;
    }
    proof {
        assert(done + Seq::<Seq<u8>>::empty() =~= done);
    }
}


/// Counts the substrings of one line (see `line_subs`).
fn count_line(line: &[u8], max_token_len: usize, counts: &mut SubstringCounts, starts_buf: &mut Vec<usize>)
    requires
        old(counts).wf(),
    ensures
        final(counts).wf(),
        counted(*old(counts), *final(counts), line_subs(line@, max_token_len as int)),
{
    let ghost max = max_token_len as int;
    let n = line.len();
    let l: &[u8] = if n > 0 && line[n - 1] == 13 {
        &line[0..n - 1]
    } else {
        line
    };
    proof {
        if n > 0 && line@[n - 1] == 13 {
            assert(l@ =~= line@.drop_last());
        }
        assert(l@ == strip_cr(line@));
    }
    let units = split_line_into_units(l);
    let ghost us = units_from(l@, 0);
    let ghost c0 = *counts;
    let ghost mut done: Seq<Seq<u8>> = seq![];
    proof {
        lemma_counted_empty(*counts);
        assert(us.subrange(0, us.len() as int) =~= us);
        assert(done + units_subs(us.subrange(0, us.len() as int), max) =~= units_subs(us, max));
    }
    let mut k: usize = 0;
    while k < units.len()
        invariant
            max == max_token_len,
            us == units_from(l@, 0),
            units@.len() == us.len(),
            forall|j: int| 0 <= j < us.len() ==> (#[trigger] units@[j])@ == us[j],
            0 <= k <= us.len(),
            c0.wf(),
            counts.wf(),
            counted(c0, *counts, done),
            done + units_subs(us.subrange(k as int, us.len() as int), max) == units_subs(us, max),
        decreases us.len() - k,
    {
        let u: &[u8] = units[k];
        let cp: &[u8] = if u.len() >= 2 && u[0] == 32 && u[1] != 32 {
            &u[1..u.len()]
        } else {
            u
        };
        let ghost rest = us.subrange(k as int, us.len() as int);
        proof {
            assert(cp@ == count_part(u@));
            assert(rest[0] == us[k as int]);
            assert(rest.drop_first() =~= us.subrange(k + 1, us.len() as int));
        }
        let ghost c1 = *counts;
        if cp.len() > 0 {
            count_unit(cp, max_token_len, counts, starts_buf);
        } else {
            proof {
                lemma_counted_empty(*counts);
                assert(unit_subs(cp@, max) =~= Seq::<Seq<u8>>::empty());
            }
        }
        proof {
            lemma_counted_concat(c0, c1, *counts, done, unit_subs(cp@, max));
            assert(done + unit_subs(cp@, max) + units_subs(us.subrange(k + 1, us.len() as int), max) =~= done
                + units_subs(rest, max));
            done = done + unit_subs(cp@, max);
        }
        k = k + 1;
    }
    proof {
        assert(us.subrange(k as int, us.len() as int) =~= Seq::<Seq<u8>>::empty());
        assert(done + Seq::<Seq<u8>>::empty() =~= done);
    }
}

/// The first newline from `i` is `k` when `[i, k)` holds none and `k` is a
/// newline or the end.
proof fn lemma_first_newline_is(d: Seq<u8>, i: int, k: int)
    requires
        0 <= i <= k <= d.len(),
        forall|q: int| i <= q < k ==> d[q] != 10,
        k == d.len() || d[k] == 10,
    ensures
        first_newline(d, i) == k,
    decreases k - i,
{
    if i < k {
        lemma_first_newline_is(d, i + 1, k);
    }
}

/// Counts every substring of `data` that the seeding considers: per line
/// (split at `\n`, a trailing `\r` dropped), per word unit, from each
/// character start to each later character start or unit end, up to
/// `max_token_len` bytes.  `starts_buf` is scratch space.
pub fn count_text_substrings(
    data: &[u8],
    max_token_len: usize,
    counts: &mut SubstringCounts,
    starts_buf: &mut Vec<usize>,
)
    requires
        old(counts).wf(),
    ensures
        final(counts).wf(),
        counted(*old(counts), *final(counts), text_subs(data@, max_token_len as int)),
        forall|t: Seq<u8>| #[trigger] final(counts).count_of(t) > old(counts).count_of(t) ==> t.len() <= max_token_len,
{
    let ghost d = data@;
    let ghost max = max_token_len as int;
    let n = data.len();
    let mut start: usize = 0;
    let mut i: usize = 0;
    let ghost c0 = *counts;
    let ghost mut done: Seq<Seq<u8>> = seq![];
    proof {
        lemma_counted_empty(*counts);
        assert(done + lines_subs(lines_from(d, 0), max) =~= text_subs(d, max));
    }
    while i < n
        invariant
            d == data@,
            n == d.len(),
            max == max_token_len,
            0 <= start <= i <= n,
            forall|q: int| start <= q < i ==> d[q] != 10,
            c0.wf(),
            counts.wf(),
            counted(c0, *counts, done),
            done + lines_subs(lines_from(d, start as int), max) == text_subs(d, max),
        decreases n - i,
    {
        if data[i] == 10 {
            let ghost c1 = *counts;
            let line = &data[start..i];
            count_line(line, max_token_len, counts, starts_buf);
            proof {
                lemma_first_newline_is(d, start as int, i as int);
                let ls = lines_from(d, start as int);
                assert(ls == seq![d.subrange(start as int, i as int)] + lines_from(d, i + 1));
                assert(ls[0] == line@);
                assert(ls.drop_first() =~= lines_from(d, i + 1));
                lemma_counted_concat(c0, c1, *counts, done, line_subs(line@, max));
                assert(done + line_subs(line@, max) + lines_subs(lines_from(d, i + 1), max) =~= done
                    + lines_subs(ls, max));
                done = done + line_subs(line@, max);
            }
            start = i + 1;
        }
        i = i + 1;
    }
    let ghost c1 = *counts;
    let line = &data[start..n];
    count_line(line, max_token_len, counts, starts_buf);
    proof {
        lemma_first_newline_is(d, start as int, n as int);
        let ls = lines_from(d, start as int);
        assert(ls == seq![d.subrange(start as int, n as int)]);
        assert(ls[0] == line@);
        assert(ls.drop_first() =~= Seq::<Seq<u8>>::empty());
        assert(lines_subs(Seq::<Seq<u8>>::empty(), max) == Seq::<Seq<u8>>::empty());
        assert(lines_subs(ls, max) == line_subs(line@, max) + lines_subs(ls.drop_first(), max));
        assert(lines_subs(ls, max) =~= line_subs(line@, max) + Seq::<Seq<u8>>::empty());
        lemma_counted_concat(c0, c1, *counts, done, line_subs(line@, max));
        assert(done + line_subs(line@, max) =~= done + lines_subs(ls, max));
    }
    proof {
        let xs = text_subs(d, max);
        lemma_text_subs_short(d, max);
        assert forall|t: Seq<u8>| #[trigger] counts.count_of(t) > old(counts).count_of(t) implies t.len()
            <= max_token_len by {
            old(counts).lemma_count_bound(t);
            if occ(xs, t) > 0 {
                lemma_occ_member(xs, t);
                let k = choose|k: int| 0 <= k < xs.len() && xs[k] == t;
                assert(xs[k].len() <= max);
            }
        }
    }
}


/// Texts are counted in batches of this many; each batch is pruned on its
/// own before the batches are added up.
pub const BATCH_SIZE: usize = 2000;

/// The bytes of each text.
pub open spec fn text_bytes(texts: Seq<String>) -> Seq<Seq<u8>> {
    texts.map_values(|s: String| encode_utf8(s@))
}

/// The substrings counted in the texts `ts`, in order.
pub open spec fn texts_subs(ts: Seq<Seq<u8>>, max: int) -> Seq<Seq<u8>>
    decreases ts.len(),
{
    if ts.len() == 0 {
        seq![]
    } else {
        text_subs(ts[0], max) + texts_subs(ts.drop_first(), max)
    }
}

proof fn lemma_texts_subs_short(ts: Seq<Seq<u8>>, max: int)
    ensures
        all_short(texts_subs(ts, max), max),
    decreases ts.len(),
{
    if ts.len() > 0 {
        lemma_text_subs_short(ts[0], max);
        lemma_texts_subs_short(ts.drop_first(), max);
        lemma_short_concat(text_subs(ts[0], max), texts_subs(ts.drop_first(), max), max);
    }
}

/// A string longer than `max` bytes is never counted in a batch.
proof fn lemma_long_not_in_batch(ts: Seq<Seq<u8>>, max: int, min_freq: u64, t: Seq<u8>)
    requires
        t.len() > max,
    ensures
        batch_value(ts, max, min_freq, t) == 0,
{
    let xs = texts_subs(ts, max);
    lemma_texts_subs_short(ts, max);
    if occ(xs, t) > 0 {
        lemma_occ_member(xs, t);
        let k = choose|k: int| 0 <= k < xs.len() && xs[k] == t;
        assert(xs[k].len() <= max);
    }
}

/// A string longer than `max` bytes is never counted in any batch.
pub proof fn lemma_long_not_counted(ts: Seq<Seq<u8>>, max: int, min_freq: u64, t: Seq<u8>)
    requires
        t.len() > max,
    ensures
        batches_sum(ts, max, min_freq, t) == 0,
        batch_value(ts, max, min_freq, t) == 0,
    decreases ts.len(),
{
    lemma_long_not_in_batch(ts, max, min_freq, t);
    if ts.len() > BATCH_SIZE {
        lemma_long_not_in_batch(ts.subrange(0, BATCH_SIZE as int), max, min_freq, t);
        lemma_long_not_counted(ts.subrange(BATCH_SIZE as int, ts.len() as int), max, min_freq, t);
    }
}

/// `c` if `keep` accepts it, else 0.
pub open spec fn pruned(t: Seq<u8>, c: nat, min_freq: u64) -> nat {
    if keep(t, c, min_freq) {
        c
    } else {
        0
    }
}

/// The count of `t` in one batch, after the batch's pruning.
pub open spec fn batch_value(ts: Seq<Seq<u8>>, max: int, min_freq: u64, t: Seq<u8>) -> nat {
    pruned(t, sat_add(0, occ(texts_subs(ts, max), t) as int) as nat, min_freq)
}

/// The pruned batch counts of `t`, summed over the batches of `ts`.
pub open spec fn batches_sum(ts: Seq<Seq<u8>>, max: int, min_freq: u64, t: Seq<u8>) -> nat
    decreases ts.len(),
{
    if ts.len() == 0 {
        0
    } else if ts.len() <= BATCH_SIZE {
        batch_value(ts, max, min_freq, t)
    } else {
        batch_value(ts.subrange(0, BATCH_SIZE as int), max, min_freq, t) + batches_sum(
            ts.subrange(BATCH_SIZE as int, ts.len() as int),
            max,
            min_freq,
            t,
        )
    }
}

/// Counts the substrings of each text, then prunes (see `keep`).
pub fn count_batch(texts: &[String], max_token_len: usize, min_freq: usize) -> (r: SubstringCounts)
    ensures
        r.wf(),
        forall|t: Seq<u8>| #[trigger] r.count_of(t) > 0 ==> t.len() <= max_token_len,
        forall|t: Seq<u8>|
            #[trigger] r.count_of(t) == batch_value(
                text_bytes(texts@),
                max_token_len as int,
                min_freq as u64,
                t,
            ),
{
    let ghost ts = text_bytes(texts@);
    let ghost max = max_token_len as int;
    let mut counts = SubstringCounts::new();
    let mut starts_buf: Vec<usize> = Vec::new();
    let ghost c0 = counts;
    let ghost mut done: Seq<Seq<u8>> = seq![];
    proof {
        lemma_counted_empty(counts);
        assert(ts.subrange(0, ts.len() as int) =~= ts);
        assert(done + texts_subs(ts.subrange(0, ts.len() as int), max) =~= texts_subs(ts, max));
    }
    let mut k: usize = 0;
    while k < texts.len()
        invariant
            ts == text_bytes(texts@),
            max == max_token_len,
            0 <= k <= ts.len(),
            c0.wf(),
            forall|t: Seq<u8>| c0.count_of(t) == 0,
            counts.wf(),
            counted(c0, counts, done),
            done + texts_subs(ts.subrange(k as int, ts.len() as int), max) == texts_subs(ts, max),
        decreases ts.len() - k,
    {
        let bytes = texts[k].as_str().as_bytes();
        let ghost c1 = counts;
        count_text_substrings(bytes, max_token_len, &mut counts, &mut starts_buf);
        proof {
            let rest = ts.subrange(k as int, ts.len() as int);
            assert(rest[0] == bytes@);
            assert(rest.drop_first() =~= ts.subrange(k + 1, ts.len() as int));
            lemma_counted_concat(c0, c1, counts, done, text_subs(bytes@, max));
            assert(done + text_subs(bytes@, max) + texts_subs(ts.subrange(k + 1, ts.len() as int), max) =~= done
                + texts_subs(rest, max));
            done = done + text_subs(bytes@, max);
        }
        k = k + 1;
    }
    proof {
        assert(ts.subrange(k as int, ts.len() as int) =~= Seq::<Seq<u8>>::empty());
        assert(done + Seq::<Seq<u8>>::empty() =~= done);
    }
    let ghost before = counts;
    counts.prune(min_freq as u64);
    proof {
        assert forall|t: Seq<u8>| #[trigger] counts.count_of(t) == batch_value(ts, max, min_freq as u64, t) by {
            assert(before.count_of(t) == sat_add(0, occ(texts_subs(ts, max), t) as int));
        }
    }
    proof {
        assert forall|t: Seq<u8>| #[trigger] counts.count_of(t) > 0 implies t.len() <= max_token_len by {
            if t.len() > max_token_len {
                lemma_long_not_counted(text_bytes(texts@), max_token_len as int, min_freq as u64, t);
            }
        }
    }
    counts
}

/// Adds every count of `other` to `total` (stopping at `u64::MAX`).
pub fn merge_into(total: &mut SubstringCounts, other: &SubstringCounts)
    requires
        old(total).wf(),
        other.wf(),
    ensures
        final(total).wf(),
        forall|t: Seq<u8>|
            #[trigger] final(total).count_of(t) == sat_add(
                old(total).count_of(t) as int,
                other.count_of(t) as int,
            ),
{
    let entries = other.entries();
    let mut k: usize = 0;
    while k < entries.len()
        invariant
            total.wf(),
            other.wf(),
            0 <= k <= entries@.len(),
            forall|i: int|
                0 <= i < entries@.len() ==> (#[trigger] entries@[i]).1 > 0 && entries@[i].1 == other.count_of(
                    entries@[i].0@,
                ),
            forall|i: int, j: int| 0 <= i < j < entries@.len() ==> (#[trigger] entries@[i]).0@ != (#[trigger] entries@[j]).0@,
            forall|t: Seq<u8>|
                other.count_of(t) > 0 ==> exists|i: int| 0 <= i < entries@.len() && (#[trigger] entries@[i]).0@ == t,
            forall|t: Seq<u8>|
                #[trigger] total.count_of(t) == if exists|i: int| 0 <= i < k && (#[trigger] entries@[i]).0@ == t {
                    sat_add(old(total).count_of(t) as int, other.count_of(t) as int) as nat
                } else {
                    old(total).count_of(t)
                },
        decreases entries@.len() - k,
    {
        let ghost pre = *total;
        let key = &entries[k].0;
        let c = entries[k].1;
        total.add_count(key.as_slice(), c);
        proof {
            assert forall|t: Seq<u8>|
                #[trigger] total.count_of(t) == if exists|i: int| 0 <= i < k + 1 && (#[trigger] entries@[i]).0@ == t {
                    sat_add(old(total).count_of(t) as int, other.count_of(t) as int) as nat
                } else {
                    old(total).count_of(t)
                } by {
                if t == key@ {
                    assert(entries@[k as int].0@ == t);
                    if exists|i: int| 0 <= i < k && (#[trigger] entries@[i]).0@ == t {
                        let i = choose|i: int| 0 <= i < k && (#[trigger] entries@[i]).0@ == t;
                        assert(entries@[i].0@ != entries@[k as int].0@);
                    }
                } else {
                    if exists|i: int| 0 <= i < k + 1 && (#[trigger] entries@[i]).0@ == t {
                        let i = choose|i: int| 0 <= i < k + 1 && (#[trigger] entries@[i]).0@ == t;
                        assert(i < k);
                    }
                }
            }
        }
        k = k + 1;
    }
    proof {
        assert forall|t: Seq<u8>|
            #[trigger] total.count_of(t) == sat_add(old(total).count_of(t) as int, other.count_of(t) as int) by {
            old(total).lemma_count_bound(t);
            if other.count_of(t) > 0 {
                let i = choose|i: int| 0 <= i < entries@.len() && (#[trigger] entries@[i]).0@ == t;
                assert(exists|i: int| 0 <= i < k && (#[trigger] entries@[i]).0@ == t);
            }
        }
    }
}

/// Seeds the candidate counts of `texts`: the texts are counted in batches
/// of `BATCH_SIZE`, each batch is pruned, the batches are added up, and the
/// sum is pruned again.
pub fn seed_candidates(texts: &[String], max_token_len: usize, min_freq: usize) -> (r: SubstringCounts)
    ensures
        r.wf(),
        forall|t: Seq<u8>| #[trigger] r.count_of(t) > 0 ==> t.len() <= max_token_len,
        forall|t: Seq<u8>|
            #[trigger] r.count_of(t) == pruned(
                t,
                sat_add(0, batches_sum(text_bytes(texts@), max_token_len as int, min_freq as u64, t) as int)
                    as nat,
                min_freq as u64,
            ),
{
    let ghost ts = text_bytes(texts@);
    let ghost max = max_token_len as int;
    let ghost minf = min_freq as u64;
    let n = texts.len();
    let mut total = SubstringCounts::new();
    let mut b: usize = 0;
    proof {
        assert(ts.subrange(0, n as int) =~= ts);
    }
    while b < n
        invariant
            ts == text_bytes(texts@),
            n == ts.len(),
            max == max_token_len,
            minf == min_freq as u64,
            0 <= b <= n,
            total.wf(),
            forall|t: Seq<u8>|
                #[trigger] total.count_of(t) == sat_add(
                    0,
                    batches_sum(ts, max, minf, t) - batches_sum(ts.subrange(b as int, n as int), max, minf, t),
                ),
            forall|t: Seq<u8>|
                batches_sum(ts.subrange(b as int, n as int), max, minf, t) <= #[trigger] batches_sum(ts, max, minf, t),
        decreases n - b,
    {
        let end = if n - b > BATCH_SIZE {
            b + BATCH_SIZE
        } else {
            n
        };
        let batch = count_batch(&texts[b..end], max_token_len, min_freq);
        let ghost pre = total;
        merge_into(&mut total, &batch);
        proof {
            let rest = ts.subrange(b as int, n as int);
            let chunk = ts.subrange(b as int, end as int);
            assert(text_bytes(texts@.subrange(b as int, end as int)) =~= chunk);
            assert forall|t: Seq<u8>| batches_sum(rest, max, minf, t) == batch_value(chunk, max, minf, t)
                + batches_sum(ts.subrange(end as int, n as int), max, minf, t) by {
                if rest.len() <= BATCH_SIZE {
                    assert(rest =~= chunk);
                    assert(ts.subrange(end as int, n as int) =~= Seq::<Seq<u8>>::empty());
                } else {
                    assert(rest.subrange(0, BATCH_SIZE as int) =~= chunk);
                    assert(rest.subrange(BATCH_SIZE as int, rest.len() as int) =~= ts.subrange(end as int, n as int));
                }
            }
            assert forall|t: Seq<u8>|
                #[trigger] total.count_of(t) == sat_add(
                    0,
                    batches_sum(ts, max, minf, t) - batches_sum(ts.subrange(end as int, n as int), max, minf, t),
                ) by {
                assert(batch.count_of(t) == batch_value(chunk, max, minf, t));
            }
        }
        b = end;
    }
    let ghost before = total;
    total.prune(min_freq as u64);
    proof {
        assert forall|t: Seq<u8>|
            #[trigger] total.count_of(t) == pruned(t, sat_add(0, batches_sum(ts, max, minf, t) as int) as nat, minf) by {
            assert(ts.subrange(n as int, n as int) =~= Seq::<Seq<u8>>::empty());
            assert(before.count_of(t) == sat_add(0, batches_sum(ts, max, minf, t) as int));
        }
    }
    proof {
        assert forall|t: Seq<u8>| #[trigger] total.count_of(t) > 0 implies t.len() <= max_token_len by {
            if t.len() > max_token_len {
                lemma_long_not_counted(text_bytes(texts@), max_token_len as int, min_freq as u64, t);
            }
        }
    }
    total
}

/// The code point ranges whose characters seeding always adds: Latin
/// Extended, Greek and Coptic, Cyrillic with its supplement, and the first
/// 256 CJK ideographs.
pub open spec fn in_guaranteed_ranges(cp: u32) -> bool {
    ||| 0x80 <= cp < 0x250
    ||| 0x370 <= cp < 0x400
    ||| 0x400 <= cp < 0x530
    ||| 0x4E00 <= cp < 0x4F00
}

/// The single-character strings seeding always adds: every ASCII byte and
/// the UTF-8 encoding of every character in the guaranteed ranges.
pub open spec fn guaranteed(t: Seq<u8>) -> bool {
    ||| (t.len() == 1 && t[0] < 128)
    ||| exists|cp: u32| #[trigger] in_guaranteed_ranges(cp) && t == encode_scalar(cp)
}

/// The UTF-8 encoding of the scalar value `cp`.
fn scalar_utf8(cp: u32) -> (r: Vec<u8>)
    requires
        is_scalar(cp),
    ensures
        r@ == encode_scalar(cp),
{
    let mut r: Vec<u8> = Vec::new();
    if cp <= 0x7F {
        r.push((cp & 0x7F) as u8);
    } else if cp <= 0x7FF {
        r.push(0xC0 | ((cp >> 6) & 0x1F) as u8);
        r.push(0x80 | (cp & 0x3F) as u8);
    } else if cp <= 0xFFFF {
        r.push(0xE0 | ((cp >> 12) & 0x0F) as u8);
        r.push(0x80 | ((cp >> 6) & 0x3F) as u8);
        r.push(0x80 | (cp & 0x3F) as u8);
    } else {
        r.push(0xF0 | ((cp >> 18) & 0x7) as u8);
        r.push(0x80 | ((cp >> 12) & 0x3F) as u8);
        r.push(0x80 | ((cp >> 6) & 0x3F) as u8);
        r.push(0x80 | (cp & 0x3F) as u8);
    }
    proof {
        assert(r@ =~= encode_scalar(cp));
    }
    r
}

/// Gives count 1 to each string of the characters `start..end` that has no
/// count yet.
fn add_range(counts: &mut SubstringCounts, start: u32, end: u32)
    requires
        old(counts).wf(),
        start <= end <= 0xD800,
    ensures
        final(counts).wf(),
        forall|t: Seq<u8>|
            #[trigger] final(counts).count_of(t) == if old(counts).count_of(t) == 0 && exists|cp: u32|
                start <= cp < end && t == #[trigger] encode_scalar(cp) {
                1
            } else {
                old(counts).count_of(t)
            },
{
    let mut cp = start;
    while cp < end
        invariant
            counts.wf(),
            start <= cp <= end <= 0xD800,
            forall|t: Seq<u8>|
                #[trigger] counts.count_of(t) == if old(counts).count_of(t) == 0 && exists|c: u32|
                    start <= c < cp && t == #[trigger] encode_scalar(c) {
                    1
                } else {
                    old(counts).count_of(t)
                },
        decreases end - cp,
    {
        let bytes = scalar_utf8(cp);
        let ghost pre = *counts;
        counts.insert_if_absent(bytes.as_slice(), 1);
        proof {
            assert forall|t: Seq<u8>|
                #[trigger] counts.count_of(t) == if old(counts).count_of(t) == 0 && exists|c: u32|
                    start <= c < cp + 1 && t == #[trigger] encode_scalar(c) {
                    1
                } else {
                    old(counts).count_of(t)
                } by {
                if t == bytes@ {
                    assert(start <= cp < cp + 1 && t == encode_scalar(cp));
                } else {
                    if exists|c: u32| start <= c < cp + 1 && t == #[trigger] encode_scalar(c) {
                        let c = choose|c: u32| start <= c < cp + 1 && t == #[trigger] encode_scalar(c);
                        assert(c != cp);
                    }
                }
            }
        }
        cp = cp + 1;
    }
}

/// Gives count 1 to every guaranteed single-character string (see
/// `guaranteed`) that has no count yet, so that the encoder can always
/// fall back to single characters.
pub fn add_guaranteed_tokens(counts: &mut SubstringCounts)
    requires
        old(counts).wf(),
    ensures
        final(counts).wf(),
        forall|b: u8| b < 128 ==> #[trigger] final(counts).count_of(seq![b]) >= 1,
        forall|cp: u32|
            ((0x80 <= cp && cp < 0x250) || (0x370 <= cp && cp < 0x530) || (0x4E00 <= cp && cp < 0x4F00)) ==> #[trigger] final(counts).count_of(encode_scalar(cp)) >= 1,
        forall|t: Seq<u8>| old(counts).count_of(t) > 0 ==> #[trigger] final(counts).count_of(t) == old(counts).count_of(t),
        forall|t: Seq<u8>|
            #[trigger] final(counts).count_of(t) == if old(counts).count_of(t) == 0 && guaranteed(t) {
                1
            } else {
                old(counts).count_of(t)
            },
{
    let mut b: u8 = 0;
    while b < 128
        invariant
            counts.wf(),
            b <= 128,
            forall|t: Seq<u8>|
                #[trigger] counts.count_of(t) == if old(counts).count_of(t) == 0 && t.len() == 1 && t[0] < b {
                    1
                } else {
                    old(counts).count_of(t)
                },
        decreases 128 - b,
    {
        let one = [b];
        let ghost pre = *counts;
        counts.insert_if_absent(&one, 1);
        proof {
            assert(one@ =~= seq![b]);
            assert forall|t: Seq<u8>|
                #[trigger] counts.count_of(t) == if old(counts).count_of(t) == 0 && t.len() == 1 && t[0] < b + 1 {
                    1
                } else {
                    old(counts).count_of(t)
                } by {
                if t.len() == 1 && t[0] == b {
                    assert(t =~= seq![b]);
                }
            }
        }
        b = b + 1;
    }
    let ghost ascii = *counts;
    add_range(counts, 0x80, 0x250);
    let ghost r1 = *counts;
    add_range(counts, 0x370, 0x400);
    let ghost r2 = *counts;
    add_range(counts, 0x400, 0x530);
    let ghost r3 = *counts;
    add_range(counts, 0x4E00, 0x4F00);
    proof {
        assert forall|t: Seq<u8>|
            #[trigger] counts.count_of(t) == if old(counts).count_of(t) == 0 && guaranteed(t) {
                1
            } else {
                old(counts).count_of(t)
            } by {
            if exists|cp: u32| #[trigger] in_guaranteed_ranges(cp) && t == encode_scalar(cp) {
                let cp = choose|cp: u32| #[trigger] in_guaranteed_ranges(cp) && t == encode_scalar(cp);
                if 0x80 <= cp < 0x250 {
                    assert(0x80 <= cp < 0x250 && t == encode_scalar(cp));
                } else if 0x370 <= cp < 0x400 {
                    assert(0x370 <= cp < 0x400 && t == encode_scalar(cp));
                } else if 0x400 <= cp < 0x530 {
                    assert(0x400 <= cp < 0x530 && t == encode_scalar(cp));
                } else {
                    assert(0x4E00 <= cp < 0x4F00 && t == encode_scalar(cp));
                }
            }
            if exists|c: u32| 0x80 <= c < 0x250 && t == #[trigger] encode_scalar(c) {
                let c = choose|c: u32| 0x80 <= c < 0x250 && t == #[trigger] encode_scalar(c);
                assert(in_guaranteed_ranges(c));
            }
            if exists|c: u32| 0x370 <= c < 0x400 && t == #[trigger] encode_scalar(c) {
                let c = choose|c: u32| 0x370 <= c < 0x400 && t == #[trigger] encode_scalar(c);
                assert(in_guaranteed_ranges(c));
            }
            if exists|c: u32| 0x400 <= c < 0x530 && t == #[trigger] encode_scalar(c) {
                let c = choose|c: u32| 0x400 <= c < 0x530 && t == #[trigger] encode_scalar(c);
                assert(in_guaranteed_ranges(c));
            }
            if exists|c: u32| 0x4E00 <= c < 0x4F00 && t == #[trigger] encode_scalar(c) {
                let c = choose|c: u32| 0x4E00 <= c < 0x4F00 && t == #[trigger] encode_scalar(c);
                assert(in_guaranteed_ranges(c));
            }
        }
    }
    proof {
        assert forall|b: u8| b < 128 implies #[trigger] counts.count_of(seq![b]) >= 1 by {
            assert(guaranteed(seq![b]));
            old(counts).lemma_count_bound(seq![b]);
        }
        assert forall|cp: u32| ((0x80 <= cp && cp < 0x250) || (0x370 <= cp && cp < 0x530) || (0x4E00 <= cp && cp < 0x4F00)) implies #[trigger] counts.count_of(encode_scalar(cp)) >= 1 by {
            assert(in_guaranteed_ranges(cp));
            assert(guaranteed(encode_scalar(cp)));
        }
    }
}

} // verus!
