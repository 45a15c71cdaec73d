//! Why chunked encoding gives the same ids as encoding the whole text.
//!
//! A chunk ends where a space follows a non-space byte.  When no token has a
//! non-space byte followed by a space, no piece can straddle such a point, so
//! the best segmentation of the text is the best segmentation of its part
//! before the point followed by that of its part after it.
use vstd::prelude::*;
use crate::encoder::{
    best, chunk_bounds, chunk_end, chunked_encoding, chunks_encodable, encodable, encodable_from, encoding, encoding_from, lemma_next_stop, lemma_pretok_end, next_stop, pass_encodable, pass_encoding, pretok_end, run_at, spaces_end, oov_at, cont_end, char_end, unk_id, stop_at,
    is_boundary, leads, lemma_best_bounds, lemma_best_origin, lemma_first_boundary, piece, scan,
    segment, start_value, text_encodable, text_encoding, Best, MIN_CHUNK_BYTES, PARALLEL_THRESHOLD,
};
use crate::vocab::{id_of, lemma_id_of, VocabTrie, VocabView};

verus! {

/// No token has a non-space byte directly followed by a space: spaces only
/// lead tokens or stand in runs of their own.
pub open spec fn spaces_lead(v: VocabView) -> bool {
    forall|k: int, j: int|
        0 <= k < v.tokens.len() && 0 <= j && j + 1 < v.tokens[k].len() ==> !(
        #[trigger] v.tokens[k][j] != 32 && v.tokens[k][j + 1] == 32)
}

/// Whether no token of `trie` has a non-space byte directly followed by a
/// space, so that encoding word chunks gives the ids of the whole text
/// (`lemma_chunked_matches_whole`).
pub fn spaces_lead_holds(trie: &VocabTrie) -> (r: bool)
    requires
        trie.wf(),
    ensures
        r == spaces_lead(trie@),
{
    let tb = trie.token_bytes();
    let ghost ts = trie.tokens();
    let mut k: usize = 0;
    while k < tb.len()
        invariant
            tb@.map_values(|v: Vec<u8>| v@) == ts,
            ts == trie@.tokens,
            0 <= k <= tb@.len(),
            forall|k2: int, j: int|
                0 <= k2 < k && 0 <= j && j + 1 < ts[k2].len() ==> !(#[trigger] ts[k2][j] != 32 && ts[k2][j + 1]
                    == 32),
        decreases tb@.len() - k,
    {
        let t = &tb[k];
        proof {
            assert(t@ == ts[k as int]);
        }
        let mut j: usize = 0;
        while j < t.len() && j + 1 < t.len()
            invariant
                tb@.map_values(|v: Vec<u8>| v@) == ts,
                ts == trie@.tokens,
                t@ == ts[k as int],
                0 <= k < tb@.len(),
                0 <= j,
                j <= t@.len(),
                forall|j2: int| 0 <= j2 < j && j2 + 1 < t@.len() ==> !(#[trigger] t@[j2] != 32 && t@[j2 + 1] == 32),
            decreases t@.len() - j,
        {
            if t[j] != 32 && t[j + 1] == 32 {
                proof {
                    assert(ts.len() == tb@.len());
                    assert(ts[k as int][j as int] != 32 && ts[k as int][j + 1] == 32);
                    assert(!spaces_lead(trie@));
                }
                return false;
            }
            j = j + 1;
        }
        proof {
            assert forall|k2: int, j2: int|
                0 <= k2 < k + 1 && 0 <= j2 && j2 + 1 < ts[k2].len() implies !(#[trigger] ts[k2][j2] != 32
                && ts[k2][j2 + 1] == 32) by {
                if k2 == k {
                    assert(t@[j2] == ts[k2][j2]);
                }
            }
        }
        k = k + 1;
    }
    proof {
        assert(ts.len() == tb@.len());
    }
    true
}

/// `x` moved behind a segmentation of value `base` that ends at `p`.
pub open spec fn shifted(x: Option<Best>, base: Best, p: int) -> Option<Best> {
    match x {
        None => None,
        Some(b) => Some(
            Best { count: b.count + base.count, cost: b.cost + base.cost, prev: b.prev + p, id: b.id },
        ),
    }
}

/// A byte string with a non-space byte followed by a space is no token.
proof fn lemma_no_token_with_gap(v: VocabView, t: Seq<u8>, j: int)
    requires
        spaces_lead(v),
        0 <= j,
        j + 1 < t.len(),
        t[j] != 32,
        t[j + 1] == 32,
    ensures
        id_of(v.tokens, t) is None,
{
    lemma_id_of(v.tokens, t);
    if let Some(k) = id_of(v.tokens, t) {
        assert(v.tokens[k as int] == t);
        assert(!(v.tokens[k as int][j] != 32 && v.tokens[k as int][j + 1] == 32));
    }
}

/// No piece straddles a word boundary.
proof fn lemma_no_crossing(v: VocabView, s: Seq<u8>, p: int, i: int, e: int)
    requires
        spaces_lead(v),
        is_boundary(s, p),
        0 <= i < p < e <= s.len(),
    ensures
        piece(v, s, i, e) is None,
{
    let t = s.subrange(i, e);
    let j = p - 1 - i;
    assert(t[j] == s[p - 1]);
    assert(t[j + 1] == s[p]);
    lemma_no_token_with_gap(v, t, j);
    if s[i] == 32 && i + 2 <= e {
        let t2 = s.subrange(i + 1, e);
        assert(i != p - 1);
        let j2 = p - 1 - (i + 1);
        assert(t2[j2] == s[p - 1]);
        assert(t2[j2 + 1] == s[p]);
        lemma_no_token_with_gap(v, t2, j2);
    }
}

/// Pieces after `p` are the same in `s` and in `s[p..]`.
proof fn lemma_piece_suffix(v: VocabView, s: Seq<u8>, p: int, i: int, e: int)
    requires
        0 <= p <= i < e <= s.len(),
    ensures
        piece(v, s, i, e) == piece(v, s.subrange(p, s.len() as int), i - p, e - p),
{
    let s2 = s.subrange(p, s.len() as int);
    assert(s2[i - p] == s[i]);
    assert(leads(s, i) == leads(s2, i - p));
    assert(s.subrange(i + 1, e) =~= s2.subrange(i - p + 1, e - p));
    assert(s.subrange(i, e) =~= s2.subrange(i - p, e - p));
}

/// Pieces that end by `q` are the same in `s` and in `s[..q]` when `q` is
/// the end or follows a non-space byte.
proof fn lemma_piece_prefix(v: VocabView, s: Seq<u8>, q: int, i: int, e: int)
    requires
        0 < q <= s.len(),
        q == s.len() || s[q - 1] != 32,
        e <= q,
    ensures
        piece(v, s, i, e) == piece(v, s.subrange(0, q), i, e),
{
    let s1 = s.subrange(0, q);
    if 0 <= i < e {
        assert(s1[i] == s[i]);
        assert(leads(s, i) == leads(s1, i));
        assert(s.subrange(i + 1, e) =~= s1.subrange(i + 1, e));
        assert(s.subrange(i, e) =~= s1.subrange(i, e));
    }
}

/// Prefix `s[..q]` has the same DP values as `s` up to `q`.
proof fn lemma_prefix_best(v: VocabView, s: Seq<u8>, q: int, e: int)
    requires
        0 < q <= s.len(),
        q == s.len() || s[q - 1] != 32,
        e <= q,
    ensures
        best(v, s, e) == best(v, s.subrange(0, q), e),
    decreases e, 1int,
{
    if e > 0 {
        lemma_prefix_scan(v, s, q, e, e);
    }
}

proof fn lemma_prefix_scan(v: VocabView, s: Seq<u8>, q: int, e: int, m: int)
    requires
        0 < q <= s.len(),
        q == s.len() || s[q - 1] != 32,
        0 <= m <= e <= q,
    ensures
        scan(v, s, e, m) == scan(v, s.subrange(0, q), e, m),
    decreases m, 0int,
{
    if m > 0 {
        lemma_prefix_scan(v, s, q, e, m - 1);
        lemma_prefix_best(v, s, q, m - 1);
        lemma_piece_prefix(v, s, q, m - 1, e);
    }
}

/// The segmentation read back from `e <= q` is the same in `s[..q]`.
proof fn lemma_prefix_segment(v: VocabView, s: Seq<u8>, q: int, e: int)
    requires
        0 < q <= s.len(),
        q == s.len() || s[q - 1] != 32,
        e <= q,
    ensures
        segment(v, s, e) == segment(v, s.subrange(0, q), e),
    decreases e,
{
    if e > 0 {
        lemma_prefix_best(v, s, q, e);
        if let Some(b) = best(v, s, e) {
            if 0 <= b.prev < e {
                lemma_prefix_segment(v, s, q, b.prev);
            }
        }
    }
}

/// Before a boundary `p`, no position offers anything to positions after it.
proof fn lemma_scan_before(v: VocabView, s: Seq<u8>, p: int, e: int, m: int)
    requires
        spaces_lead(v),
        is_boundary(s, p),
        0 <= m <= p < e <= s.len(),
    ensures
        scan(v, s, e, m) is None,
    decreases m,
{
    if m > 0 {
        lemma_scan_before(v, s, p, e, m - 1);
        lemma_no_crossing(v, s, p, m - 1, e);
    }
}

/// Split at a boundary `p`: the DP values after `p` are those of `s[p..]`
/// moved behind the DP value of `p`.
proof fn lemma_split_best(v: VocabView, s: Seq<u8>, p: int, e: int)
    requires
        spaces_lead(v),
        is_boundary(s, p),
        p <= e <= s.len(),
    ensures
        best(v, s, e) is Some <==> (best(v, s, p) is Some && best(v, s.subrange(p, s.len() as int), e - p) is Some),
        best(v, s, e) is Some ==> best(v, s, e)->0.count == best(v, s, p)->0.count + best(
            v,
            s.subrange(p, s.len() as int),
            e - p,
        )->0.count && best(v, s, e)->0.cost == best(v, s, p)->0.cost + best(
            v,
            s.subrange(p, s.len() as int),
            e - p,
        )->0.cost,
        e > p ==> best(v, s, e) == (if best(v, s, p) is Some {
            shifted(best(v, s.subrange(p, s.len() as int), e - p), best(v, s, p)->0, p)
        } else {
            None
        }),
    decreases e, 1int,
{
    if e > p {
        lemma_split_scan(v, s, p, e, e);
    }
}

proof fn lemma_split_scan(v: VocabView, s: Seq<u8>, p: int, e: int, m: int)
    requires
        spaces_lead(v),
        is_boundary(s, p),
        p <= m <= e <= s.len(),
        p < e,
    ensures
        scan(v, s, e, m) == (if best(v, s, p) is Some {
            shifted(scan(v, s.subrange(p, s.len() as int), e - p, m - p), best(v, s, p)->0, p)
        } else {
            None
        }),
    decreases m, 0int,
{
    let s2 = s.subrange(p, s.len() as int);
    if m == p {
        lemma_scan_before(v, s, p, e, m);
    } else {
        let i = m - 1;
        lemma_split_scan(v, s, p, e, m - 1);
        lemma_split_best(v, s, p, i);
        lemma_piece_suffix(v, s, p, i, e);
        if i == p {
            assert(best(v, s2, 0) == Some(start_value()));
        }
    }
}

/// The segmentation read back from `e >= p` is the one of `p` followed by
/// the one of `s[p..]` read back from `e - p`.
proof fn lemma_split_segment(v: VocabView, s: Seq<u8>, p: int, e: int)
    requires
        spaces_lead(v),
        is_boundary(s, p),
        p <= e <= s.len(),
        best(v, s, e) is Some,
    ensures
        segment(v, s, e) == segment(v, s, p) + segment(v, s.subrange(p, s.len() as int), e - p),
    decreases e,
{
    let s2 = s.subrange(p, s.len() as int);
    if e == p {
        assert(segment(v, s, p) + segment(v, s2, 0) =~= segment(v, s, p));
    } else {
        lemma_split_best(v, s, p, e);
        let b = best(v, s, e)->0;
        let b2 = best(v, s2, e - p)->0;
        lemma_best_bounds(v, s2, e - p);
        assert(b.prev == b2.prev + p);
        lemma_best_origin(v, s, e);
        lemma_split_segment(v, s, p, b.prev);
        assert(segment(v, s, e) == segment(v, s, b.prev).push(b.id));
        assert(segment(v, s2, e - p) == segment(v, s2, b2.prev).push(b2.id));
        assert(segment(v, s, e) =~= segment(v, s, p) + segment(v, s2, e - p));
    }
}

/// Encoding splits at a word boundary `p`.
proof fn lemma_split_encoding(v: VocabView, s: Seq<u8>, p: int)
    requires
        spaces_lead(v),
        is_boundary(s, p),
    ensures
        pass_encodable(v, s) <==> (pass_encodable(v, s.subrange(0, p)) && pass_encodable(
            v,
            s.subrange(p, s.len() as int),
        )),
        pass_encodable(v, s) ==> pass_encoding(v, s) == pass_encoding(v, s.subrange(0, p)) + pass_encoding(
            v,
            s.subrange(p, s.len() as int),
        ),
{
    let n = s.len() as int;
    let s2 = s.subrange(p, n);
    lemma_split_best(v, s, p, n);
    lemma_prefix_best(v, s, p, p);
    if pass_encodable(v, s) {
        lemma_split_segment(v, s, p, n);
        lemma_prefix_segment(v, s, p, p);
    }
}

/// Continuation bytes end at the same place in `s[p..]` as in `s`.
proof fn lemma_shift_cont(s: Seq<u8>, p: int, j: int, left: nat)
    requires
        0 <= p <= s.len(),
        0 <= j,
    ensures
        cont_end(s.subrange(p, s.len() as int), j, left) == cont_end(s, p + j, left) - p,
    decreases left,
{
    let t = s.subrange(p, s.len() as int);
    if j < t.len() {
        assert(t[j] == s[p + j]);
    }
    if left > 0 && j < t.len() && 0x80 <= t[j] < 0xc0 {
        lemma_shift_cont(s, p, j + 1, (left - 1) as nat);
    }
}

/// The pre-tokenizer reads `s[p..]` as it reads `s` from `p` on.
proof fn lemma_shift_scan(v: VocabView, s: Seq<u8>, p: int, k: int)
    requires
        0 <= p <= s.len(),
        0 <= k <= s.len() - p,
    ensures
        run_at(s.subrange(p, s.len() as int), k) == run_at(s, p + k),
        oov_at(v, s.subrange(p, s.len() as int), k) == oov_at(v, s, p + k),
        spaces_end(s.subrange(p, s.len() as int), k) == spaces_end(s, p + k) - p,
        char_end(s.subrange(p, s.len() as int), k) == char_end(s, p + k) - p,
        next_stop(v, s.subrange(p, s.len() as int), k) == next_stop(v, s, p + k) - p,
        pretok_end(v, s.subrange(p, s.len() as int), k) == pretok_end(v, s, p + k) - p,
    decreases s.len() - p - k,
{
    let t = s.subrange(p, s.len() as int);
    lemma_shift_cont(s, p, k + 1, 3);
    if k < t.len() {
        lemma_shift_scan(v, s, p, k + 1);
        assert(t[k] == s[p + k]);
        if k + 1 < t.len() {
            assert(t[k + 1] == s[p + k + 1]);
        }
    }
}

/// The encoding of `s[p..]` from `k` is that of `s` from `p + k`.
proof fn lemma_shift_encoding(v: VocabView, s: Seq<u8>, p: int, k: int)
    requires
        0 <= p <= s.len(),
        0 <= k <= s.len() - p,
    ensures
        encoding_from(v, s.subrange(p, s.len() as int), k) == encoding_from(v, s, p + k),
        encodable_from(v, s.subrange(p, s.len() as int), k) == encodable_from(v, s, p + k),
    decreases s.len() - p - k,
{
    let t = s.subrange(p, s.len() as int);
    if k < t.len() {
        lemma_shift_scan(v, s, p, k);
        lemma_pretok_end(v, t, k);
        let e = pretok_end(v, t, k);
        lemma_shift_encoding(v, s, p, e);
        assert(t.subrange(k, e) =~= s.subrange(p + k, p + e));
    }
}

/// Before a boundary `p`, spaces end at the same place in `s[..p]` and `s`,
/// and before `p`.
proof fn lemma_prefix_spaces(s: Seq<u8>, p: int, i: int)
    requires
        is_boundary(s, p),
        0 <= i <= p - 1,
    ensures
        spaces_end(s.subrange(0, p), i) == spaces_end(s, i),
        spaces_end(s, i) <= p - 1,
    decreases p - i,
{
    let u = s.subrange(0, p);
    assert(u[i] == s[i]);
    if s[i] == 32 {
        lemma_prefix_spaces(s, p, i + 1);
    }
}

/// Before a boundary `p`, continuation bytes end at the same place in
/// `s[..p]` and `s`, by `p`.
proof fn lemma_prefix_cont(s: Seq<u8>, p: int, j: int, left: nat)
    requires
        is_boundary(s, p),
        0 <= j <= p,
    ensures
        cont_end(s.subrange(0, p), j, left) == cont_end(s, j, left),
        cont_end(s, j, left) <= p,
    decreases left,
{
    let u = s.subrange(0, p);
    if j < p {
        assert(u[j] == s[j]);
        if left > 0 && 0x80 <= s[j] < 0xc0 {
            lemma_prefix_cont(s, p, j + 1, (left - 1) as nat);
        }
    }
}

/// Before a boundary `p`, `s[..p]` cuts where `s` cuts before `p`.
proof fn lemma_prefix_stops(v: VocabView, s: Seq<u8>, p: int, i: int)
    requires
        is_boundary(s, p),
        0 <= i <= p,
    ensures
        forall|q: int| 0 <= q < p ==> run_at(s.subrange(0, p), q) == run_at(s, q),
        forall|q: int| 0 <= q < p ==> oov_at(v, s.subrange(0, p), q) == oov_at(v, s, q),
        next_stop(v, s.subrange(0, p), i) == (if next_stop(v, s, i) < p {
            next_stop(v, s, i)
        } else {
            p
        }),
    decreases p - i,
{
    let u = s.subrange(0, p);
    assert forall|q: int| 0 <= q < p implies run_at(u, q) == run_at(s, q) && oov_at(v, u, q) == oov_at(v, s, q) by {
        assert(u[q] == s[q]);
        if q + 1 < p {
            assert(u[q + 1] == s[q + 1]);
        }
    }
    lemma_next_stop(v, s, i);
    if i < p {
        lemma_prefix_stops(v, s, p, i + 1);
    }
}

/// The pre-tokenizer encoding splits at a word boundary `p`, from any
/// `i < p`.
#[verifier::rlimit(40)]
proof fn lemma_pretok_split_from(v: VocabView, s: Seq<u8>, p: int, i: int)
    requires
        spaces_lead(v),
        is_boundary(s, p),
        0 <= i < p,
    ensures
        encodable_from(v, s, i) <==> (encodable_from(v, s.subrange(0, p), i) && encodable(
            v,
            s.subrange(p, s.len() as int),
        )),
        encodable_from(v, s, i) ==> encoding_from(v, s, i) == encoding_from(v, s.subrange(0, p), i)
            + encoding(v, s.subrange(p, s.len() as int)),
    decreases p - i,
{
    let n = s.len() as int;
    let u = s.subrange(0, p);
    let t = s.subrange(p, n);
    lemma_pretok_end(v, s, i);
    lemma_pretok_end(v, u, i);
    lemma_prefix_stops(v, s, p, i);
    lemma_next_stop(v, s, i);
    lemma_prefix_cont(s, p, i + 1, 3);
    lemma_shift_encoding(v, s, p, 0);
    let e = pretok_end(v, s, i);
    if run_at(s, i) {
        lemma_prefix_spaces(s, p, i);
    }
    assert(run_at(u, i) == run_at(s, i));
    assert(oov_at(v, u, i) == oov_at(v, s, i));
    if run_at(s, i) || oov_at(v, s, i) || next_stop(v, s, i) < p {
        assert(pretok_end(v, u, i) == e);
        assert(e <= p);
        assert(u.subrange(i, e) =~= s.subrange(i, e));
        let head = if oov_at(v, s, i) {
            seq![unk_id(v)]
        } else {
            pass_encoding(v, s.subrange(i, e))
        };
        assert(encoding_from(v, s, i) == head + encoding_from(v, s, e));
        assert(encoding_from(v, u, i) == head + encoding_from(v, u, e));
        if e < p {
            lemma_pretok_split_from(v, s, p, e);
            if encodable_from(v, s, i) {
                assert(head + (encoding_from(v, u, e) + encoding(v, t)) =~= head + encoding_from(v, u, e)
                    + encoding(v, t));
            }
        } else {
            assert(encoding_from(v, u, p) =~= Seq::<u32>::empty());
            assert(encodable_from(v, u, p));
            assert(head + encoding_from(v, s, p) =~= head + Seq::<u32>::empty() + encoding(v, t));
        }
    } else {
        assert(pretok_end(v, u, i) == p);
        assert(u.subrange(i, p) =~= s.subrange(i, p));
        assert(encoding_from(v, u, p) =~= Seq::<u32>::empty());
        assert(encodable_from(v, u, p));
        assert(s[p] == 32);
        assert(!oov_at(v, s, p));
        if run_at(s, p) {
            assert(stop_at(v, s, p));
            assert(e == p);
        } else {
            let b = e;
            lemma_next_stop(v, s, p);
            assert(next_stop(v, s, p) == b);
            assert(b > p);
            lemma_shift_scan(v, s, p, 0);
            assert(pretok_end(v, t, 0) == b - p);
            lemma_shift_encoding(v, s, p, b - p);
            let u2 = s.subrange(i, b);
            assert(is_boundary(u2, p - i)) by {
                assert(u2[p - i] == s[p]);
                assert(u2[p - i - 1] == s[p - 1]);
            }
            lemma_split_encoding(v, u2, p - i);
            assert(u2.subrange(0, p - i) =~= s.subrange(i, p));
            assert(u2.subrange(p - i, u2.len() as int) =~= s.subrange(p, b));
            assert(t.subrange(0, b - p) =~= s.subrange(p, b));
            let x = pass_encoding(v, s.subrange(i, p));
            let y = pass_encoding(v, s.subrange(p, b));
            assert(x + y + encoding_from(v, s, b) =~= x + Seq::<u32>::empty() + (y + encoding_from(v, s, b)));
        }
    }
}

/// The pre-tokenizer encoding splits at a word boundary `p`.
proof fn lemma_split_pretok(v: VocabView, s: Seq<u8>, p: int)
    requires
        spaces_lead(v),
        is_boundary(s, p),
    ensures
        encodable(v, s) <==> (encodable(v, s.subrange(0, p)) && encodable(v, s.subrange(p, s.len() as int))),
        encodable(v, s) ==> encoding(v, s) == encoding(v, s.subrange(0, p)) + encoding(
            v,
            s.subrange(p, s.len() as int),
        ),
{
    lemma_pretok_split_from(v, s, p, 0);
}

/// Concatenating chunk lists concatenates their encodings.
pub(crate) proof fn lemma_chunked_concat(v: VocabView, s: Seq<u8>, a: Seq<(int, int)>, b: Seq<(int, int)>)
    ensures
        chunked_encoding(v, s, a + b) == chunked_encoding(v, s, a) + chunked_encoding(v, s, b),
    decreases b.len(),
{
    if b.len() == 0 {
        assert(a + b =~= a);
        assert(chunked_encoding(v, s, a) + Seq::<u32>::empty() =~= chunked_encoding(v, s, a));
    } else {
        lemma_chunked_concat(v, s, a, b.drop_last());
        assert((a + b).drop_last() =~= a + b.drop_last());
        assert((a + b).last() == b.last());
    }
}

/// The chunks from `cs` on encode as `s[cs..]` does as a whole.
proof fn lemma_chunks_from(v: VocabView, s: Seq<u8>, min: int, cs: int)
    requires
        spaces_lead(v),
        0 <= cs < s.len(),
        cs == 0 || is_boundary(s, cs),
    ensures
        chunks_encodable(v, s, chunk_bounds(s, min, cs)) <==> encodable(
            v,
            s.subrange(cs, s.len() as int),
        ),
        encodable(v, s.subrange(cs, s.len() as int)) ==> chunked_encoding(
            v,
            s,
            chunk_bounds(s, min, cs),
        ) == encoding(v, s.subrange(cs, s.len() as int)),
    decreases s.len() - cs,
{
    let n = s.len() as int;
    let ce = chunk_end(s, min, cs);
    lemma_first_boundary(s, cs + if min > 1 { min } else { 1 });
    let cb = chunk_bounds(s, min, cs);
    let rest = chunk_bounds(s, min, ce);
    let u = s.subrange(cs, n);
    assert(cb == seq![(cs, ce)] + rest);
    lemma_chunked_concat(v, s, seq![(cs, ce)], rest);
    assert(chunked_encoding(v, s, seq![(cs, ce)]) =~= encoding(v, s.subrange(cs, ce))) by {
        let one = seq![(cs, ce)];
        assert(one.len() == 1);
        assert(one.last() == (cs, ce));
        assert(one.drop_last() =~= Seq::<(int, int)>::empty());
        assert(chunked_encoding(v, s, one.drop_last()) == Seq::<u32>::empty());
        assert(Seq::<u32>::empty() + encoding(v, s.subrange(cs, ce)) =~= encoding(v, s.subrange(cs, ce)));
    }
    if ce == n {
        assert(rest =~= Seq::<(int, int)>::empty());
        assert(cb =~= seq![(cs, n)]);
        assert(chunked_encoding(v, s, cb) =~= encoding(v, u));
        assert(chunks_encodable(v, s, cb) <==> encodable(v, u)) by {
            if chunks_encodable(v, s, cb) {
                assert(cb[0] == (cs, n));
            }
        }
    } else {
        lemma_chunks_from(v, s, min, ce);
        let p = ce - cs;
        assert(is_boundary(u, p)) by {
            assert(u[p] == s[ce]);
            assert(u[p - 1] == s[ce - 1]);
        }
        lemma_split_pretok(v, u, p);
        assert(u.subrange(0, p) =~= s.subrange(cs, ce));
        assert(u.subrange(p, u.len() as int) =~= s.subrange(ce, n));
        assert(chunks_encodable(v, s, cb) <==> (encodable(v, s.subrange(cs, ce)) && chunks_encodable(
            v,
            s,
            rest,
        ))) by {
            if chunks_encodable(v, s, cb) {
                assert(cb[0] == (cs, ce));
                assert forall|k: int| 0 <= k < rest.len() implies encodable(
                    v,
                    s.subrange(#[trigger] rest[k].0, rest[k].1),
                ) by {
                    assert(cb[k + 1] == rest[k]);
                }
            }
            if encodable(v, s.subrange(cs, ce)) && chunks_encodable(v, s, rest) {
                assert forall|k: int| 0 <= k < cb.len() implies encodable(
                    v,
                    s.subrange(#[trigger] cb[k].0, cb[k].1),
                ) by {
                    if k > 0 {
                        assert(cb[k] == rest[k - 1]);
                    }
                }
            }
        }
    }
}

/// Chunked encoding equals encoding the whole text: for a text below the
/// parallel threshold, or when no token has a non-space byte followed by a
/// space, `encode` succeeds exactly when the whole-text encoder does, and
/// returns the same ids.
pub proof fn lemma_chunked_matches_whole(v: VocabView, s: Seq<u8>)
    requires
        spaces_lead(v) || s.len() < PARALLEL_THRESHOLD,
    ensures
        text_encodable(v, s) <==> encodable(v, s),
        encodable(v, s) ==> text_encoding(v, s) == encoding(v, s),
{
    if s.len() >= PARALLEL_THRESHOLD {
        lemma_chunks_from(v, s, MIN_CHUNK_BYTES as int, 0);
        assert(s.subrange(0, s.len() as int) =~= s);
    }
}

} // verus!
