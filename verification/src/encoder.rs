//! Viterbi segmentation of text into token ids.
//!
//! The text is first cut by a pre-tokenizer: every run of two or more
//! spaces is a piece of its own, and every character whose first byte no
//! token holds is a piece of its own that becomes `<unk>`.  Each other
//! piece then gets a DP pass: position
//! `e` is reached by the segmentations of `s[..e]`, and the DP keeps, for
//! each position, the segmentation with the fewest pieces and, among those,
//! the smallest cost (the negated sum of the pieces' fixed-point
//! log-probabilities).  From each position the tokens that start there are
//! candidates; after a space followed by more text, so are the tokens that
//! start after it, emitted with `LEADING_SPACE_FLAG`.
use std::sync::Arc;
use vstd::prelude::*;
use vstd::utf8::encode_utf8;
use crate::logprob::{fixed_log_prob, fixed_value, lemma_magnitude_bound, FIXED_CAP};
use crate::vocab::{id_of, lemma_id_of, token_holds, VocabTrie, VocabView, NONE_ID};

verus! {

/// Bit set on a token id when the token is preceded by a space.
pub const LEADING_SPACE_FLAG: u32 = 0x40_0000;

/// Texts must be shorter than this many bytes: positions are `u32`s.
pub const MAX_TEXT_LEN: usize = 0xffff_fff0;

/// DP state of one text position.
#[derive(Clone, Copy)]
pub struct DpEntry {
    /// Number of pieces; `u32::MAX` while the position is unreachable.
    pub count: u32,
    /// Negated fixed-point log-probability of the segmentation.
    pub neg_log_prob: i128,
    /// Start of the last piece.
    pub prev_pos: u32,
    /// Id emitted for the last piece.
    pub token_id: u32,
}

impl DpEntry {
    /// A position that no segmentation reaches (yet).
    pub fn unreachable() -> (r: Self)
        ensures
            r.count == u32::MAX,
            r.neg_log_prob == 0,
            r.prev_pos == 0,
            r.token_id == NONE_ID,
    {
        DpEntry { count: u32::MAX, neg_log_prob: 0, prev_pos: 0, token_id: NONE_ID }
    }

    /// Fewer pieces, or as many pieces at a smaller cost.
    fn is_better_than(&self, other: &Self) -> (r: bool)
        ensures
            r == (self.count < other.count || (self.count == other.count && self.neg_log_prob
                < other.neg_log_prob)),
    {
        self.count < other.count || (self.count == other.count && self.neg_log_prob < other.neg_log_prob)
    }
}

/// The best segmentation of a prefix: its number of pieces, its cost, the
/// start of its last piece and the id emitted for that piece.
pub struct Best {
    pub count: int,
    pub cost: int,
    pub prev: int,
    pub id: u32,
}

/// The empty segmentation of the empty prefix.
pub open spec fn start_value() -> Best {
    Best { count: 0, cost: 0, prev: 0, id: 0 }
}

/// A space at `i` followed by more text can lead a flagged piece.
pub open spec fn leads(s: Seq<u8>, i: int) -> bool {
    s[i] == 32 && i + 1 < s.len()
}

/// The id (flagged or not) and fixed-point log-probability of token `p`.
pub open spec fn token_piece(v: VocabView, p: Seq<u8>, flagged: bool) -> Option<(u32, int)> {
    match id_of(v.tokens, p) {
        Some(k) => Some(
            (
                if flagged {
                    (k as u32) | LEADING_SPACE_FLAG
                } else {
                    k as u32
                },
                fixed_value(v.lps[k as int]),
            ),
        ),
        None => None,
    }
}

/// The token `s[i..e]` itself (it may start with a space).
pub open spec fn plain_piece(v: VocabView, s: Seq<u8>, i: int, e: int) -> Option<(u32, int)> {
    if 0 <= i < e <= s.len() {
        token_piece(v, s.subrange(i, e), false)
    } else {
        None
    }
}

/// After a space at `i`, the token `s[i+1..e]` (at least one byte) flagged
/// with `LEADING_SPACE_FLAG`.
pub open spec fn flagged_piece(v: VocabView, s: Seq<u8>, i: int, e: int) -> Option<(u32, int)> {
    if 0 <= i && i + 2 <= e <= s.len() && s[i] == 32 {
        token_piece(v, s.subrange(i + 1, e), true)
    } else {
        None
    }
}

/// The candidates of one walk from `i`: plain tokens, or flagged ones.
pub open spec fn walk_piece(v: VocabView, s: Seq<u8>, i: int, e: int, flagged: bool) -> Option<(u32, int)> {
    if flagged {
        flagged_piece(v, s, i, e)
    } else {
        plain_piece(v, s, i, e)
    }
}

/// The piece `s[i..e]` as the encoder emits it from position `i`: the
/// token `s[i..e]`, or after a space the flagged token `s[i+1..e]`; when
/// both exist the one with the higher log-probability, the plain one on a
/// tie.
pub open spec fn piece(v: VocabView, s: Seq<u8>, i: int, e: int) -> Option<(u32, int)> {
    match (plain_piece(v, s, i, e), flagged_piece(v, s, i, e)) {
        (Some(p), Some(f)) => if f.1 > p.1 {
            Some(f)
        } else {
            Some(p)
        },
        (Some(p), None) => Some(p),
        (None, f) => f,
    }
}

/// The value `a` of a position after the offer `c`: `c` wins when it is
/// strictly better.
pub open spec fn offer(a: Option<Best>, c: Option<Best>) -> Option<Best> {
    match c {
        Some(c) => if better(c, a) {
            Some(c)
        } else {
            a
        },
        None => a,
    }
}

/// Offering the plain candidate and then the flagged one is offering the
/// piece.
pub proof fn lemma_offer_both(a: Option<Best>, b: Option<Best>, v: VocabView, s: Seq<u8>, i: int, e: int)
    ensures
        offer(offer(a, extend(b, plain_piece(v, s, i, e), i)), extend(b, flagged_piece(v, s, i, e), i))
            == offer(a, extend(b, piece(v, s, i, e), i)),
{
}

/// `c` beats the current value `a` of a position.
pub open spec fn better(c: Best, a: Option<Best>) -> bool {
    match a {
        None => true,
        Some(a) => c.count < a.count || (c.count == a.count && c.cost < a.cost),
    }
}

/// Position `i` extended by the piece `s[i..e]`, if both exist.
pub open spec fn extend(b: Option<Best>, p: Option<(u32, int)>, i: int) -> Option<Best> {
    match (b, p) {
        (Some(b), Some((id, lp))) => Some(Best { count: b.count + 1, cost: b.cost - lp, prev: i, id }),
        _ => None,
    }
}

/// The value of position `e` once positions `0..m` have offered their
/// extensions, in that order; a later offer wins only when strictly better.
pub open spec fn scan(v: VocabView, s: Seq<u8>, e: int, m: int) -> Option<Best>
    decreases m, 0int,
{
    if m <= 0 {
        None
    } else {
        let a = scan(v, s, e, m - 1);
        match extend(best(v, s, m - 1), piece(v, s, m - 1, e), m - 1) {
            Some(c) => if better(c, a) {
                Some(c)
            } else {
                a
            },
            None => a,
        }
    }
}

/// The best segmentation of `s[..e]`.
pub open spec fn best(v: VocabView, s: Seq<u8>, e: int) -> Option<Best>
    decreases e, 1int,
{
    if e <= 0 {
        Some(start_value())
    } else {
        scan(v, s, e, e)
    }
}

/// The ids of the best segmentation of `s[..e]`, read back through `prev`.
pub open spec fn segment(v: VocabView, s: Seq<u8>, e: int) -> Seq<u32>
    decreases e,
{
    if e <= 0 {
        seq![]
    } else {
        match best(v, s, e) {
            Some(b) => if 0 <= b.prev < e {
                segment(v, s, b.prev).push(b.id)
            } else {
                seq![]
            },
            None => seq![],
        }
    }
}

/// Some segmentation covers all of `s`.
pub open spec fn pass_encodable(v: VocabView, s: Seq<u8>) -> bool {
    best(v, s, s.len() as int) is Some
}

/// The token ids that the encoder emits for `s`.
pub open spec fn pass_encoding(v: VocabView, s: Seq<u8>) -> Seq<u32> {
    segment(v, s, s.len() as int)
}

/// Two spaces in a row start at `i`.
pub open spec fn run_at(s: Seq<u8>, i: int) -> bool {
    0 <= i && i + 1 < s.len() && s[i] == 32 && s[i + 1] == 32
}

/// The first position from `i` on that holds no space (or the end).
pub open spec fn spaces_end(s: Seq<u8>, i: int) -> int
    decreases s.len() - i,
{
    if 0 <= i < s.len() && s[i] == 32 {
        spaces_end(s, i + 1)
    } else {
        i
    }
}

/// The bytes of the `<unk>` token.
pub open spec fn unk_token() -> Seq<u8> {
    seq![60u8, 117u8, 110u8, 107u8, 62u8]
}

/// The id emitted for a character outside the vocabulary: the id of
/// `<unk>`, or 0 when the vocabulary has no `<unk>`.
pub open spec fn unk_id(v: VocabView) -> u32 {
    match id_of(v.tokens, unk_token()) {
        Some(k) => k as u32,
        None => 0,
    }
}

/// A character outside the vocabulary starts at `i`: its first byte is no
/// space and no UTF-8 continuation byte, and no token holds that byte.
pub open spec fn oov_at(v: VocabView, s: Seq<u8>, i: int) -> bool {
    0 <= i < s.len() && s[i] != 32 && !(0x80 <= s[i] < 0xc0) && !token_holds(v.tokens, s[i])
}

/// The end of the UTF-8 continuation bytes from `j` on, taking at most
/// `left` of them.
pub open spec fn cont_end(s: Seq<u8>, j: int, left: nat) -> int
    decreases left,
{
    if left > 0 && 0 <= j < s.len() && 0x80 <= s[j] < 0xc0 {
        cont_end(s, j + 1, (left - 1) as nat)
    } else {
        j
    }
}

/// Where the character that starts at `i` ends: after its continuation
/// bytes (at most three).
pub open spec fn char_end(s: Seq<u8>, i: int) -> int {
    cont_end(s, i + 1, 3)
}

/// The pre-tokenizer cuts at `i`: two spaces in a row, or a character
/// outside the vocabulary, start there.
pub open spec fn stop_at(v: VocabView, s: Seq<u8>, i: int) -> bool {
    run_at(s, i) || oov_at(v, s, i)
}

/// The first position from `i` on where the pre-tokenizer cuts (or the
/// end).
pub open spec fn next_stop(v: VocabView, s: Seq<u8>, i: int) -> int
    decreases s.len() - i,
{
    if i < 0 || i >= s.len() {
        s.len() as int
    } else if stop_at(v, s, i) {
        i
    } else {
        next_stop(v, s, i + 1)
    }
}

/// Where the pre-tokenizer piece that starts at `i` ends: a run of two or
/// more spaces is a piece of its own, and so is a character outside the
/// vocabulary; other text reaches up to the next such piece.
pub open spec fn pretok_end(v: VocabView, s: Seq<u8>, i: int) -> int {
    if run_at(s, i) {
        spaces_end(s, i)
    } else if oov_at(v, s, i) {
        char_end(s, i)
    } else {
        next_stop(v, s, i)
    }
}

/// The ids of the pre-tokenizer pieces of `s` from `i` on: `<unk>` for a
/// character outside the vocabulary, one DP pass for every other piece.
pub open spec fn encoding_from(v: VocabView, s: Seq<u8>, i: int) -> Seq<u32>
    decreases s.len() - i,
{
    if i < 0 || i >= s.len() {
        seq![]
    } else {
        let e = pretok_end(v, s, i);
        if e <= i || e > s.len() {
            seq![]
        } else if oov_at(v, s, i) {
            seq![unk_id(v)] + encoding_from(v, s, e)
        } else {
            pass_encoding(v, s.subrange(i, e)) + encoding_from(v, s, e)
        }
    }
}

/// Every pre-tokenizer piece of `s` from `i` on that is no `<unk>` passes.
pub open spec fn encodable_from(v: VocabView, s: Seq<u8>, i: int) -> bool
    decreases s.len() - i,
{
    if i < 0 || i >= s.len() {
        true
    } else {
        let e = pretok_end(v, s, i);
        if e <= i || e > s.len() {
            true
        } else if oov_at(v, s, i) {
            encodable_from(v, s, e)
        } else {
            pass_encodable(v, s.subrange(i, e)) && encodable_from(v, s, e)
        }
    }
}

/// The encoder succeeds on `s`: every pre-tokenizer piece that is no
/// `<unk>` passes.
pub open spec fn encodable(v: VocabView, s: Seq<u8>) -> bool {
    encodable_from(v, s, 0)
}

/// The token ids that the encoder emits for `s`: runs of two or more spaces
/// are cut out as pieces of their own, a character outside the vocabulary
/// becomes `<unk>`, and every other piece gets its own DP pass.
pub open spec fn encoding(v: VocabView, s: Seq<u8>) -> Seq<u32> {
    encoding_from(v, s, 0)
}

/// No character of `s` is outside the vocabulary.
pub open spec fn no_oov(v: VocabView, s: Seq<u8>) -> bool {
    forall|q: int| !#[trigger] oov_at(v, s, q)
}

/// `spaces_end(s, i)` ends the spaces that start at `i`.
pub proof fn lemma_spaces_end(s: Seq<u8>, i: int)
    requires
        0 <= i <= s.len(),
    ensures
        i <= spaces_end(s, i) <= s.len(),
        forall|q: int| i <= q < spaces_end(s, i) ==> s[q] == 32,
        spaces_end(s, i) < s.len() ==> s[spaces_end(s, i)] != 32,
    decreases s.len() - i,
{
    if i < s.len() && s[i] == 32 {
        lemma_spaces_end(s, i + 1);
    }
}

/// `next_stop(v, s, i)` is the first place from `i` on where the
/// pre-tokenizer cuts.
pub proof fn lemma_next_stop(v: VocabView, s: Seq<u8>, i: int)
    requires
        0 <= i <= s.len(),
    ensures
        i <= next_stop(v, s, i) <= s.len(),
        forall|q: int| i <= q < next_stop(v, s, i) ==> !stop_at(v, s, q),
        next_stop(v, s, i) < s.len() ==> stop_at(v, s, next_stop(v, s, i)),
    decreases s.len() - i,
{
    if i < s.len() && !stop_at(v, s, i) {
        lemma_next_stop(v, s, i + 1);
    }
}

/// The continuation bytes from `j` on end within the text, after at most
/// `left` bytes, and are all continuation bytes.
pub proof fn lemma_cont_end(s: Seq<u8>, j: int, left: nat)
    requires
        0 <= j <= s.len(),
    ensures
        j <= cont_end(s, j, left) <= s.len(),
        cont_end(s, j, left) <= j + left,
        forall|q: int| j <= q < cont_end(s, j, left) ==> 0x80 <= #[trigger] s[q] < 0xc0,
    decreases left,
{
    if left > 0 && j < s.len() && 0x80 <= s[j] < 0xc0 {
        lemma_cont_end(s, j + 1, (left - 1) as nat);
    }
}

/// A pre-tokenizer piece is not empty and ends within the text.
pub proof fn lemma_pretok_end(v: VocabView, s: Seq<u8>, i: int)
    requires
        0 <= i < s.len(),
    ensures
        i < pretok_end(v, s, i) <= s.len(),
{
    lemma_spaces_end(s, i);
    lemma_spaces_end(s, i + 1);
    lemma_cont_end(s, i + 1, 3);
    lemma_next_stop(v, s, i);
    if !stop_at(v, s, i) {
        lemma_next_stop(v, s, i + 1);
    }
}

/// The encoding from `i` has at most as many ids as `s[i..]` has bytes.
pub proof fn lemma_encoding_from_len(v: VocabView, s: Seq<u8>, i: int)
    requires
        0 <= i <= s.len(),
        encodable_from(v, s, i),
    ensures
        encoding_from(v, s, i).len() <= s.len() - i,
    decreases s.len() - i,
{
    if i < s.len() {
        let e = pretok_end(v, s, i);
        lemma_pretok_end(v, s, i);
        if !oov_at(v, s, i) {
            lemma_pass_len(v, s.subrange(i, e));
        }
        lemma_encoding_from_len(v, s, e);
    }
}

/// An encoding has at most as many ids as the text has bytes.
pub proof fn lemma_encoding_len(v: VocabView, s: Seq<u8>)
    requires
        encodable(v, s),
    ensures
        encoding(v, s).len() <= s.len(),
{
    lemma_encoding_from_len(v, s, 0);
}

/// The empty text is encodable and encodes to no ids; an encodable text
/// that is not empty encodes to at least one id.
pub proof fn lemma_encoding_empty_iff(v: VocabView, s: Seq<u8>)
    ensures
        s.len() == 0 ==> encodable(v, s) && encoding(v, s).len() == 0,
        encodable(v, s) && s.len() > 0 ==> encoding(v, s).len() >= 1,
{
    if s.len() > 0 && encodable(v, s) {
        let e = pretok_end(v, s, 0);
        lemma_pretok_end(v, s, 0);
        if !oov_at(v, s, 0) {
            lemma_pass_empty_iff(v, s.subrange(0, e));
        }
    }
}

/// A character outside the vocabulary becomes exactly one `<unk>` id, and
/// the text after it is encoded as it would be on its own.
pub proof fn lemma_oov_unk(v: VocabView, s: Seq<u8>, i: int)
    requires
        oov_at(v, s, i),
    ensures
        i < char_end(s, i) <= s.len(),
        encoding_from(v, s, i) == seq![unk_id(v)] + encoding_from(v, s, char_end(s, i)),
        encodable_from(v, s, i) == encodable_from(v, s, char_end(s, i)),
{
    lemma_pretok_end(v, s, i);
}

/// The DP value that a cell holds.
pub open spec fn cell(d: DpEntry) -> Option<Best> {
    if d.count == u32::MAX {
        None
    } else {
        Some(Best { count: d.count as int, cost: d.neg_log_prob as int, prev: d.prev_pos as int, id: d.token_id })
    }
}

/// The value of position `e` once positions `0..m` made their offers.
pub open spec fn table(v: VocabView, s: Seq<u8>, e: int, m: int) -> Option<Best> {
    if e <= 0 || m >= e {
        best(v, s, e)
    } else {
        scan(v, s, e, m)
    }
}

/// Reachable values are small: at most `e` pieces, each of cost within
/// `FIXED_CAP`, and the last piece starts before `e`.
pub proof fn lemma_best_bounds(v: VocabView, s: Seq<u8>, e: int)
    ensures
        best(v, s, e) matches Some(b) ==> 0 <= b.count <= (if e < 0 { 0 } else { e }) && -b.count
            * FIXED_CAP <= b.cost <= b.count * FIXED_CAP && (e > 0 ==> 0 <= b.prev < e),
    decreases e, 1int,
{
    if e > 0 {
        lemma_scan_bounds(v, s, e, e);
    }
}

/// Bounds on the value of position `e` after the offers of `0..m`.
pub proof fn lemma_scan_bounds(v: VocabView, s: Seq<u8>, e: int, m: int)
    requires
        m <= e,
    ensures
        scan(v, s, e, m) matches Some(b) ==> 0 <= b.count <= e && -b.count * FIXED_CAP <= b.cost
            <= b.count * FIXED_CAP && 0 <= b.prev < m,
    decreases m, 0int,
{
    if m > 0 {
        lemma_scan_bounds(v, s, e, m - 1);
        lemma_best_bounds(v, s, m - 1);
        if let Some((id, lp)) = piece(v, s, m - 1, e) {
            lemma_piece_cost(v, s, m - 1, e);
            if let Some(b) = best(v, s, m - 1) {
                assert(-(b.count + 1) * FIXED_CAP == -b.count * FIXED_CAP - FIXED_CAP) by (nonlinear_arith);
                assert((b.count + 1) * FIXED_CAP == b.count * FIXED_CAP + FIXED_CAP) by (nonlinear_arith);
            }
        }
    }
}

/// The cost of a piece lies within `FIXED_CAP`.
pub proof fn lemma_piece_cost(v: VocabView, s: Seq<u8>, i: int, e: int)
    ensures
        piece(v, s, i, e) matches Some((id, lp)) ==> -FIXED_CAP <= lp <= FIXED_CAP,
{
    if let Some((id, lp)) = plain_piece(v, s, i, e) {
        lemma_magnitude_bound(v.lps[id_of(v.tokens, s.subrange(i, e))->0 as int]);
    }
    if let Some((id, lp)) = flagged_piece(v, s, i, e) {
        lemma_magnitude_bound(v.lps[id_of(v.tokens, s.subrange(i + 1, e))->0 as int]);
    }
}

/// A segmentation that ends at `e` in a piece from `i` where the offer of
/// `i` is the only one that changes `e` between `table(e, i)` and
/// `table(e, i + 1)`.
pub proof fn lemma_table_step(v: VocabView, s: Seq<u8>, e: int, i: int)
    requires
        0 <= i,
    ensures
        e > i ==> table(v, s, e, i + 1) == (match extend(best(v, s, i), piece(v, s, i, e), i) {
            Some(c) => if better(c, table(v, s, e, i)) {
                Some(c)
            } else {
                table(v, s, e, i)
            },
            None => table(v, s, e, i),
        }),
        e <= i ==> table(v, s, e, i + 1) == table(v, s, e, i),
{
}

/// The value of a position comes from the offer of its `prev`: the best
/// segmentation of `s[..prev]` extended by the piece `s[prev..e]`.
pub proof fn lemma_scan_origin(v: VocabView, s: Seq<u8>, e: int, m: int)
    ensures
        scan(v, s, e, m) matches Some(c) ==> 0 <= c.prev < m && extend(
            best(v, s, c.prev),
            piece(v, s, c.prev, e),
            c.prev,
        ) == Some(c),
    decreases m,
{
    if m > 0 {
        lemma_scan_origin(v, s, e, m - 1);
    }
}

/// The last piece of the best segmentation of a non-empty prefix.
pub proof fn lemma_best_origin(v: VocabView, s: Seq<u8>, e: int)
    requires
        e > 0,
    ensures
        best(v, s, e) matches Some(c) ==> 0 <= c.prev < e && best(v, s, c.prev) is Some && extend(
            best(v, s, c.prev),
            piece(v, s, c.prev, e),
            c.prev,
        ) == Some(c) && c.count == best(v, s, c.prev)->0.count + 1,
{
    lemma_scan_origin(v, s, e, e);
}

/// The segmentation read back from a reached position has as many ids as
/// the position's value counts pieces.
pub proof fn lemma_segment_len(v: VocabView, s: Seq<u8>, e: int)
    requires
        best(v, s, e) is Some,
    ensures
        segment(v, s, e).len() == best(v, s, e)->0.count,
    decreases e,
{
    if e > 0 {
        lemma_best_origin(v, s, e);
        let c = best(v, s, e)->0;
        lemma_segment_len(v, s, c.prev);
    }
}

/// `a` is at least as good as `c`: fewer pieces, or as many at no higher cost.
pub open spec fn no_worse(a: Best, c: Best) -> bool {
    a.count < c.count || (a.count == c.count && a.cost <= c.cost)
}

/// `cuts` splits `s[..cuts.last()]` into pieces the encoder may emit:
/// it starts at 0 and each step `cuts[j]..cuts[j+1]` is a piece.
pub open spec fn valid_cuts(v: VocabView, s: Seq<u8>, cuts: Seq<int>) -> bool {
    &&& cuts.len() >= 1
    &&& cuts[0] == 0
    &&& forall|j: int| 0 <= j < cuts.len() - 1 ==> #[trigger] piece(v, s, cuts[j], cuts[j + 1]) is Some
}

/// The value of a segmentation given by its cuts: its number of pieces and
/// its cost, with its last piece.
pub open spec fn cuts_value(v: VocabView, s: Seq<u8>, cuts: Seq<int>) -> Best
    decreases cuts.len(),
{
    if cuts.len() <= 1 {
        start_value()
    } else {
        let i = cuts[cuts.len() - 2];
        let e = cuts[cuts.len() - 1];
        let p = piece(v, s, i, e)->0;
        let b = cuts_value(v, s, cuts.drop_last());
        Best { count: b.count + 1, cost: b.cost - p.1, prev: i, id: p.0 }
    }
}

/// The cut points of the segmentation read back from position `e`.
pub open spec fn segment_cuts(v: VocabView, s: Seq<u8>, e: int) -> Seq<int>
    decreases e,
{
    if e <= 0 {
        seq![0int]
    } else {
        match best(v, s, e) {
            Some(b) => if 0 <= b.prev < e {
                segment_cuts(v, s, b.prev).push(e)
            } else {
                seq![0int]
            },
            None => seq![0int],
        }
    }
}

/// No offer to `e` from before `m` beats the value `e` holds after them.
proof fn lemma_scan_no_worse(v: VocabView, s: Seq<u8>, e: int, m: int, i: int)
    requires
        0 <= i < m,
        extend(best(v, s, i), piece(v, s, i, e), i) is Some,
    ensures
        scan(v, s, e, m) is Some,
        no_worse(scan(v, s, e, m)->0, extend(best(v, s, i), piece(v, s, i, e), i)->0),
    decreases m,
{
    if m - 1 > i {
        lemma_scan_no_worse(v, s, e, m - 1, i);
    }
}

/// Optimality: the DP value of `e` is no worse than any segmentation of
/// `s[..e]` into pieces the encoder may emit.
pub proof fn lemma_best_is_optimal(v: VocabView, s: Seq<u8>, cuts: Seq<int>)
    requires
        valid_cuts(v, s, cuts),
    ensures
        best(v, s, cuts.last()) is Some,
        no_worse(best(v, s, cuts.last())->0, cuts_value(v, s, cuts)),
    decreases cuts.len(),
{
    if cuts.len() > 1 {
        let pre = cuts.drop_last();
        let i = cuts[cuts.len() - 2];
        let e = cuts.last();
        assert(valid_cuts(v, s, pre)) by {
            assert forall|j: int| 0 <= j < pre.len() - 1 implies #[trigger] piece(v, s, pre[j], pre[j + 1]) is Some by {
                assert(piece(v, s, cuts[j], cuts[j + 1]) is Some);
            }
        }
        lemma_best_is_optimal(v, s, pre);
        let j = cuts.len() - 2;
        assert(piece(v, s, cuts[j], cuts[j + 1]) is Some);
        assert(pre.last() == i);
        lemma_scan_no_worse(v, s, e, e, i);
    }
}

/// The encoder's own segmentation of `s[..e]` is a valid one, and its value
/// is the DP value of `e`.
pub proof fn lemma_segment_cuts(v: VocabView, s: Seq<u8>, e: int)
    requires
        0 <= e,
        best(v, s, e) is Some,
    ensures
        valid_cuts(v, s, segment_cuts(v, s, e)),
        segment_cuts(v, s, e).last() == e,
        cuts_value(v, s, segment_cuts(v, s, e)) == best(v, s, e)->0,
    decreases e,
{
    if e > 0 {
        lemma_best_origin(v, s, e);
        let c = best(v, s, e)->0;
        lemma_segment_cuts(v, s, c.prev);
        let pc = segment_cuts(v, s, c.prev);
        let cuts = pc.push(e);
        assert(cuts.drop_last() =~= pc);
        assert forall|j: int| 0 <= j < cuts.len() - 1 implies #[trigger] piece(v, s, cuts[j], cuts[j + 1]) is Some by {
            if j < pc.len() - 1 {
                assert(cuts[j] == pc[j] && cuts[j + 1] == pc[j + 1]);
            } else {
                assert(cuts[j] == c.prev);
            }
        }
    }
}

/// Optimality of one pass: the ids it emits come from a valid segmentation
/// of `s`, and no valid segmentation of `s` (plain or flagged tokens,
/// chosen freely at every cut) has fewer pieces, or as many pieces at a
/// lower cost.
pub proof fn lemma_pass_optimal(v: VocabView, s: Seq<u8>, cuts: Seq<int>)
    requires
        valid_cuts(v, s, cuts),
        cuts.last() == s.len(),
    ensures
        pass_encodable(v, s),
        valid_cuts(v, s, segment_cuts(v, s, s.len() as int)),
        segment_cuts(v, s, s.len() as int).last() == s.len(),
        pass_encoding(v, s).len() == cuts_value(v, s, segment_cuts(v, s, s.len() as int)).count,
        no_worse(cuts_value(v, s, segment_cuts(v, s, s.len() as int)), cuts_value(v, s, cuts)),
{
    lemma_best_is_optimal(v, s, cuts);
    lemma_segment_cuts(v, s, s.len() as int);
    lemma_segment_len(v, s, s.len() as int);
}

/// Optimality of the output: the encoding from a pre-tokenizer piece
/// `s[i..e]` (no `<unk>`) on is that piece's pass followed by the rest, and the pass is
/// no worse than any valid segmentation `cuts` of the piece.
pub proof fn lemma_encoding_optimal(v: VocabView, s: Seq<u8>, i: int, cuts: Seq<int>)
    requires
        0 <= i < s.len(),
        !oov_at(v, s, i),
        valid_cuts(v, s.subrange(i, pretok_end(v, s, i)), cuts),
        cuts.last() == pretok_end(v, s, i) - i,
    ensures
        encoding_from(v, s, i) == pass_encoding(v, s.subrange(i, pretok_end(v, s, i))) + encoding_from(
            v,
            s,
            pretok_end(v, s, i),
        ),
        encodable_from(v, s, i) == encodable_from(v, s, pretok_end(v, s, i)),
        ({
            let part = s.subrange(i, pretok_end(v, s, i));
            &&& pass_encodable(v, part)
            &&& valid_cuts(v, part, segment_cuts(v, part, part.len() as int))
            &&& pass_encoding(v, part).len() == cuts_value(v, part, segment_cuts(v, part, part.len() as int)).count
            &&& no_worse(cuts_value(v, part, segment_cuts(v, part, part.len() as int)), cuts_value(v, part, cuts))
        }),
{
    lemma_pretok_end(v, s, i);
    let part = s.subrange(i, pretok_end(v, s, i));
    lemma_pass_optimal(v, part, cuts);
}

/// The value of a cut sequence counts one piece per step.
proof fn lemma_cuts_count(v: VocabView, s: Seq<u8>, cuts: Seq<int>)
    requires
        cuts.len() >= 1,
    ensures
        cuts_value(v, s, cuts).count == cuts.len() - 1,
    decreases cuts.len(),
{
    if cuts.len() > 1 {
        lemma_cuts_count(v, s, cuts.drop_last());
    }
}

/// Optimality against the vocabulary itself: whenever `s` can be cut into
/// pieces each of which is a token, or a space followed by a token, one
/// pass over `s` succeeds and emits no more ids than there are pieces.
pub proof fn lemma_token_cuts_bound(v: VocabView, s: Seq<u8>, cuts: Seq<int>)
    requires
        cuts.len() >= 1,
        cuts[0] == 0,
        cuts.last() == s.len(),
        forall|j: int| 0 <= j < cuts.len() - 1 ==> 0 <= #[trigger] cuts[j] < cuts[j + 1] <= s.len() && (id_of(
            v.tokens,
            s.subrange(cuts[j], cuts[j + 1]),
        ) is Some || (s[cuts[j]] == 32 && cuts[j] + 2 <= cuts[j + 1] && id_of(
            v.tokens,
            s.subrange(cuts[j] + 1, cuts[j + 1]),
        ) is Some)),
    ensures
        pass_encodable(v, s),
        pass_encoding(v, s).len() <= cuts.len() - 1,
{
    assert forall|j: int| 0 <= j < cuts.len() - 1 implies #[trigger] piece(v, s, cuts[j], cuts[j + 1]) is Some by {
        assert(0 <= cuts[j] < cuts[j + 1] <= s.len());
    }
    assert(valid_cuts(v, s, cuts));
    lemma_pass_optimal(v, s, cuts);
    lemma_cuts_count(v, s, cuts);
}

/// A text that is itself a token (and holds no two spaces in a row)
/// encodes to exactly one id, whatever its length.
pub proof fn lemma_token_text_one_id(v: VocabView, s: Seq<u8>)
    requires
        s.len() > 0,
        id_of(v.tokens, s) is Some,
        forall|q: int| 0 <= q && q + 1 < s.len() ==> !(#[trigger] s[q] == 32 && s[q + 1] == 32),
    ensures
        encodable(v, s),
        encoding(v, s).len() == 1,
{
    lemma_id_of(v.tokens, s);
    let k = id_of(v.tokens, s)->0;
    assert forall|q: int| !#[trigger] stop_at(v, s, q) by {
        if 0 <= q < s.len() {
            assert(v.tokens[k as int][q] == s[q]);
            assert(token_holds(v.tokens, s[q]));
        }
    }
    lemma_next_stop(v, s, 0);
    assert(pretok_end(v, s, 0) == s.len());
    lemma_pretok_end(v, s, 0);
    assert(s.subrange(0, s.len() as int) =~= s);
    assert(encoding_from(v, s, s.len() as int) =~= Seq::<u32>::empty());
    lemma_token_cuts_bound(v, s, seq![0, s.len() as int]);
    lemma_pass_empty_iff(v, s);
    assert(!oov_at(v, s, 0) && !run_at(s, 0));
    assert(encodable_from(v, s, s.len() as int));
    assert(pass_encodable(v, s.subrange(0, s.len() as int)));
    assert(encodable_from(v, s, 0));
    assert(encoding(v, s) =~= pass_encoding(v, s));
}

/// Texts this long or longer may be encoded in word chunks, in parallel,
/// when `lemma_chunked_matches_whole` shows that this gives the same ids.
pub const PARALLEL_THRESHOLD: usize = 1024;

/// Chunks grow word by word to at least this many bytes.
pub const MIN_CHUNK_BYTES: usize = 256;

/// A word boundary: a space right after a non-space byte.
pub open spec fn is_boundary(s: Seq<u8>, p: int) -> bool {
    0 < p < s.len() && s[p] == 32 && s[p - 1] != 32
}

/// The first word boundary at or after `p`, or the end of the text.
pub open spec fn first_boundary(s: Seq<u8>, p: int) -> int
    decreases s.len() - p,
{
    if p >= s.len() {
        s.len() as int
    } else if is_boundary(s, p) {
        p
    } else {
        first_boundary(s, p + 1)
    }
}

/// Where the chunk that starts at `cs` ends: at the first word boundary that
/// leaves it at least `min` bytes (and at least one byte), else at the end.
pub open spec fn chunk_end(s: Seq<u8>, min: int, cs: int) -> int {
    first_boundary(s, cs + if min > 1 { min } else { 1 })
}

/// The `(start, end)` of each chunk from `cs` on.
pub open spec fn chunk_bounds(s: Seq<u8>, min: int, cs: int) -> Seq<(int, int)>
    decreases s.len() - cs,
{
    if cs >= s.len() {
        seq![]
    } else {
        let ce = chunk_end(s, min, cs);
        if ce <= cs || ce > s.len() {
            seq![]
        } else {
            seq![(cs, ce)] + chunk_bounds(s, min, ce)
        }
    }
}

/// The encodings of the chunks `cb` of `s`, concatenated.
pub open spec fn chunked_encoding(v: VocabView, s: Seq<u8>, cb: Seq<(int, int)>) -> Seq<u32>
    decreases cb.len(),
{
    if cb.len() == 0 {
        seq![]
    } else {
        chunked_encoding(v, s, cb.drop_last()) + encoding(v, s.subrange(cb.last().0, cb.last().1))
    }
}

/// Every chunk `cb` of `s` is encodable.
pub open spec fn chunks_encodable(v: VocabView, s: Seq<u8>, cb: Seq<(int, int)>) -> bool {
    forall|k: int| 0 <= k < cb.len() ==> encodable(v, s.subrange(#[trigger] cb[k].0, cb[k].1))
}

/// What encoding in word chunks gives for `s`: the whole text below
/// `PARALLEL_THRESHOLD` bytes, the chunk encodings concatenated above.
pub open spec fn text_encoding(v: VocabView, s: Seq<u8>) -> Seq<u32> {
    if s.len() < PARALLEL_THRESHOLD {
        encoding(v, s)
    } else {
        chunked_encoding(v, s, chunk_bounds(s, MIN_CHUNK_BYTES as int, 0))
    }
}

/// Encoding in word chunks succeeds on `s`.
pub open spec fn text_encodable(v: VocabView, s: Seq<u8>) -> bool {
    if s.len() < PARALLEL_THRESHOLD {
        encodable(v, s)
    } else {
        chunks_encodable(v, s, chunk_bounds(s, MIN_CHUNK_BYTES as int, 0))
    }
}

/// `first_boundary(s, p)` is the first boundary from `p` on, or the end.
pub proof fn lemma_first_boundary(s: Seq<u8>, p: int)
    requires
        0 <= p,
    ensures
        p <= first_boundary(s, p) || p > s.len(),
        first_boundary(s, p) <= s.len(),
        first_boundary(s, p) < s.len() ==> is_boundary(s, first_boundary(s, p)),
        forall|q: int| p <= q < first_boundary(s, p) ==> !is_boundary(s, q),
    decreases s.len() - p,
{
    if p < s.len() && !is_boundary(s, p) {
        lemma_first_boundary(s, p + 1);
    }
}

/// The first boundary from `p` is `k` when none lies in `[p, k)` and `k` is
/// one (or the end).
pub proof fn lemma_first_boundary_is(s: Seq<u8>, p: int, k: int)
    requires
        0 <= p <= k <= s.len(),
        forall|q: int| p <= q < k ==> !is_boundary(s, q),
        k == s.len() || is_boundary(s, k),
    ensures
        first_boundary(s, p) == k,
    decreases k - p,
{
    if p < k {
        lemma_first_boundary_is(s, p + 1, k);
    }
}


/// The chunks from `cs` on are non-empty, follow each other without gaps
/// and end at the end of the text.
pub proof fn lemma_chunk_bounds(s: Seq<u8>, min: int, cs: int)
    requires
        0 <= cs <= s.len(),
    ensures
        ({
            let cb = chunk_bounds(s, min, cs);
            &&& forall|k: int| 0 <= k < cb.len() ==> cs <= #[trigger] cb[k].0 < cb[k].1 <= s.len()
            &&& forall|k: int| 0 <= k < cb.len() - 1 ==> #[trigger] cb[k].1 == cb[k + 1].0
            &&& cb.len() > 0 ==> cb[0].0 == cs && cb.last().1 == s.len()
            &&& cs < s.len() ==> cb.len() > 0
        }),
    decreases s.len() - cs,
{
    if cs < s.len() {
        let ce = chunk_end(s, min, cs);
        lemma_first_boundary(s, cs + if min > 1 { min } else { 1 });
        assert(cs < ce <= s.len());
        lemma_chunk_bounds(s, min, ce);
        let rest = chunk_bounds(s, min, ce);
        let cb = chunk_bounds(s, min, cs);
        assert(cb == seq![(cs, ce)] + rest);
        assert forall|k: int| 0 <= k < cb.len() - 1 implies #[trigger] cb[k].1 == cb[k + 1].0 by {
            if k > 0 {
                assert(cb[k] == rest[k - 1] && cb[k + 1] == rest[k]);
            } else if rest.len() > 0 {
                assert(cb[1] == rest[0]);
            }
        }
        assert forall|k: int| 0 <= k < cb.len() implies cs <= #[trigger] cb[k].0 < cb[k].1 <= s.len() by {
            if k > 0 {
                assert(cb[k] == rest[k - 1]);
            }
        }
        if rest.len() == 0 {
            assert(ce == s.len());
        }
    }
}

/// One pass has at most as many ids as the text has bytes.
pub proof fn lemma_pass_len(v: VocabView, s: Seq<u8>)
    requires
        pass_encodable(v, s),
    ensures
        pass_encoding(v, s).len() <= s.len(),
{
    lemma_segment_len(v, s, s.len() as int);
    lemma_best_bounds(v, s, s.len() as int);
}

/// The empty text passes with no ids; a text that passes and is not empty
/// gives at least one id.
pub proof fn lemma_pass_empty_iff(v: VocabView, s: Seq<u8>)
    ensures
        s.len() == 0 ==> pass_encodable(v, s) && pass_encoding(v, s).len() == 0,
        pass_encodable(v, s) && s.len() > 0 ==> pass_encoding(v, s).len() >= 1,
{
    if pass_encodable(v, s) {
        lemma_segment_len(v, s, s.len() as int);
        if s.len() > 0 {
            lemma_best_origin(v, s, s.len() as int);
            let c = best(v, s, s.len() as int)->0;
            lemma_best_bounds(v, s, c.prev);
        }
    }
}

/// Every single byte is a token.
pub open spec fn covers_bytes(v: VocabView) -> bool {
    forall|b: u8| #[trigger] id_of(v.tokens, seq![b]) is Some
}

/// With every byte a token, every prefix of a text has a segmentation.
proof fn lemma_pass_covered(v: VocabView, s: Seq<u8>, e: int)
    requires
        covers_bytes(v),
        0 <= e <= s.len(),
    ensures
        best(v, s, e) is Some,
    decreases e,
{
    if e > 0 {
        lemma_pass_covered(v, s, e - 1);
        assert(s.subrange(e - 1, e) =~= seq![s[e - 1]]);
        assert(id_of(v.tokens, seq![s[e - 1]]) is Some);
        assert(plain_piece(v, s, e - 1, e) is Some);
        lemma_scan_no_worse(v, s, e, e, e - 1);
    }
}

/// With every byte a token, every pre-tokenizer piece from `i` on passes.
proof fn lemma_from_covered(v: VocabView, s: Seq<u8>, i: int)
    requires
        covers_bytes(v),
        0 <= i <= s.len(),
    ensures
        encodable_from(v, s, i),
    decreases s.len() - i,
{
    if i < s.len() {
        lemma_pretok_end(v, s, i);
        let e = pretok_end(v, s, i);
        let part = s.subrange(i, e);
        lemma_pass_covered(v, part, part.len() as int);
        lemma_from_covered(v, s, e);
    }
}

/// Full byte coverage: when every single byte is a token, every text is
/// encodable, in one piece or in chunks.
pub proof fn lemma_covered_encodable(v: VocabView, s: Seq<u8>)
    requires
        covers_bytes(v),
    ensures
        no_oov(v, s),
        encodable(v, s),
        text_encodable(v, s),
{
    assert forall|q: int| !#[trigger] oov_at(v, s, q) by {
        if 0 <= q < s.len() {
            let b = s[q];
            assert(id_of(v.tokens, seq![b]) is Some);
            lemma_id_of(v.tokens, seq![b]);
            let k = id_of(v.tokens, seq![b])->0;
            assert(v.tokens[k as int][0] == b);
            assert(token_holds(v.tokens, b));
        }
    }
    lemma_from_covered(v, s, 0);
    let cb = chunk_bounds(s, MIN_CHUNK_BYTES as int, 0);
    assert forall|k: int| 0 <= k < cb.len() implies encodable(v, s.subrange(#[trigger] cb[k].0, cb[k].1)) by {
        lemma_from_covered(v, s.subrange(cb[k].0, cb[k].1), 0);
    }
}

/// `Arc::try_unwrap`: the value itself when this `Arc` is its only owner,
/// the `Arc` back otherwise; the value is the same either way.
#[verifier::external_body]
fn arc_try_unwrap(a: Arc<VocabTrie>) -> (r: Result<VocabTrie, Arc<VocabTrie>>)
    ensures
        match r {
            Ok(t) => t == *a,
            Err(b) => *b == *a,
        },
{
    Arc::try_unwrap(a)
}

/// Shared read-only encoder over a vocabulary.
pub struct Encoder {
    pub trie: Arc<VocabTrie>,
}

impl Encoder {
    /// The vocabulary that this encoder reads.
    pub open spec fn vocab(&self) -> VocabTrie {
        *self.trie
    }

    /// The tokens and log-probabilities that this encoder reads.
    pub open spec fn model(&self) -> VocabView {
        self.vocab()@
    }

    /// Wraps `trie`, finalized: a finalized trie as it is, a trie that this
    /// `Arc` alone owns finalized in place, and a shared one that is not
    /// finalized yet finalized in a copy of its own.
    pub fn new(trie: Arc<VocabTrie>) -> (r: Self)
        requires
            trie.wf(),
        ensures
            r.trie.wf(),
            r.model() == trie@,
            r.trie.is_finalized(),
            r.trie.darts_len() >= 1,
            r.trie.darts_path(0) == Some(Seq::<u8>::empty()),
            r.trie.darts_entries()[0].check == NONE_ID,
            trie.prefix_paths() ==> r.trie.prefix_paths(),
    {
        if trie.finalized() {
            proof {
                trie.lemma_darts_root();
            }
            return Encoder { trie };
        }
        match arc_try_unwrap(trie) {
            Ok(t) => {
                let mut t = t;
                t.finalize();
                Encoder { trie: Arc::new(t) }
            },
            Err(shared) => {
                let mut t = shared.copy_unfinalized();
                t.finalize();
                Encoder { trie: Arc::new(t) }
            },
        }
    }

    /// The ids of `text` (the same as one pass of `encode_bytes_into` over
    /// the whole text), or `None` when some piece of it has no segmentation.
    pub fn try_encode(&self, text: &str) -> (r: Option<Vec<u32>>)
        requires
            self.trie.wf(),
            encode_utf8(text@).len() < MAX_TEXT_LEN,
        ensures
            r is Some <==> encodable(self.model(), encode_utf8(text@)),
            r matches Some(ids) ==> ids@ == encoding(self.model(), encode_utf8(text@)),
    {
        let bytes = text.as_bytes();
        let mut dp_buf: Vec<DpEntry> = Vec::new();
        let mut out: Vec<u32> = Vec::new();
        if self.encode_bytes_into(bytes, &mut dp_buf, &mut out) {
            proof {
                assert(out@ =~= encoding(self.model(), bytes@));
            }
            Some(out)
        } else {
            None
        }
    }

    /// The ids of `text` (see `try_encode`).
    pub fn encode(&self, text: &str) -> (r: Vec<u32>)
        requires
            self.trie.wf(),
            encode_utf8(text@).len() < MAX_TEXT_LEN,
            encodable(self.model(), encode_utf8(text@)),
        ensures
            r@ == encoding(self.model(), encode_utf8(text@)),
    {
        match self.try_encode(text) {
            Some(ids) => ids,
            None => Vec::new(),
        }
    }

    /// Appends the ids of `s` to `out`: runs of two or more spaces are cut
    /// out as pieces of their own and each piece is segmented by its own DP
    /// pass.  Returns `false`, leaving `out` as it was, when some piece has
    /// no segmentation.  `dp_buf` is scratch space, untouched for empty `s`.
    pub fn encode_bytes_into(&self, s: &[u8], dp_buf: &mut Vec<DpEntry>, out: &mut Vec<u32>) -> (ok: bool)
        requires
            self.trie.wf(),
            s@.len() < MAX_TEXT_LEN,
            old(out)@.len() + s@.len() <= usize::MAX,
        ensures
            ok == encodable(self.model(), s@),
            ok ==> final(out)@ == old(out)@ + encoding(self.model(), s@),
            !ok ==> final(out)@ == old(out)@,
            s@.len() == 0 ==> final(dp_buf)@ == old(dp_buf)@,
    {
        let ghost v = self.model();
        let ghost sq = s@;
        let n = s.len();
        let start = out.len();
        let mut unk: Vec<u8> = Vec::new();
        unk.push(60);
        unk.push(117);
        unk.push(110);
        unk.push(107);
        unk.push(62);
        proof {
            assert(unk@ =~= unk_token());
        }
        let unk_id_v: u32 = match self.trie.get(unk.as_slice()) {
            Some(k) => k,
            None => 0,
        };
        let mut i: usize = 0;
        let ghost mut acc: Seq<u32> = seq![];
        while i < n
            invariant
                self.trie.wf(),
                v == self.model(),
                sq == s@,
                n == sq.len(),
                n < MAX_TEXT_LEN,
                0 <= i <= n,
                unk_id_v == unk_id(v),
                start == old(out)@.len(),
                start + n <= usize::MAX,
                out@ == old(out)@ + acc,
                acc.len() <= i,
                acc + encoding_from(v, sq, i as int) == encoding_from(v, sq, 0),
                encodable_from(v, sq, 0) == encodable_from(v, sq, i as int),
                n == 0 ==> dp_buf@ == old(dp_buf)@,
            decreases n - i,
        {
            proof {
                lemma_pretok_end(v, sq, i as int);
            }
            let run = i + 1 < n && s[i] == 32 && s[i + 1] == 32;
            let oov = if run {
                false
            } else {
                self.is_oov_at(s, i)
            };
            proof {
                assert(run == run_at(sq, i as int));
                assert(oov == oov_at(v, sq, i as int));
            }
            if oov {
                let mut e = i + 1;
                let mut left: usize = 3;
                while left > 0 && e < n && 0x80 <= s[e] && s[e] < 0xc0
                    invariant
                        sq == s@,
                        n == sq.len(),
                        i + 1 <= e <= n,
                        left <= 3,
                        cont_end(sq, e as int, left as nat) == cont_end(sq, i + 1, 3),
                    decreases left,
                {
                    e = e + 1;
                    left = left - 1;
                }
                proof {
                    assert(e == char_end(sq, i as int));
                    lemma_oov_unk(v, sq, i as int);
                }
                out.push(unk_id_v);
                proof {
                    assert(acc + seq![unk_id_v] + encoding_from(v, sq, e as int) =~= acc + encoding_from(
                        v,
                        sq,
                        i as int,
                    ));
                    acc = acc + seq![unk_id_v];
                    assert(out@ =~= old(out)@ + acc);
                }
                i = e;
            } else {
                let e = if run {
                    let mut e = i;
                    while e < n && s[e] == 32
                        invariant
                            sq == s@,
                            n == sq.len(),
                            i <= e <= n,
                            spaces_end(sq, e as int) == spaces_end(sq, i as int),
                        decreases n - e,
                    {
                        e = e + 1;
                    }
                    e
                } else {
                    let mut e = i;
                    let mut go = true;
                    while go && e < n
                        invariant
                            self.trie.wf(),
                            v == self.model(),
                            sq == s@,
                            n == sq.len(),
                            i <= e <= n,
                            go ==> next_stop(v, sq, e as int) == next_stop(v, sq, i as int),
                            !go ==> e == next_stop(v, sq, i as int),
                        decreases n - e + (if go { 1int } else { 0int }),
                    {
                        let stop = if e + 1 < n && s[e] == 32 && s[e + 1] == 32 {
                            true
                        } else {
                            self.is_oov_at(s, e)
                        };
                        proof {
                            assert(stop == stop_at(v, sq, e as int));
                        }
                        if stop {
                            go = false;
                        } else {
                            e = e + 1;
                        }
                    }
                    e
                };
                proof {
                    assert(e == pretok_end(v, sq, i as int));
                }
                let part = &s[i..e];
                proof {
                    assert(part@ == sq.subrange(i as int, e as int));
                }
                let ok = self.encode_pass_into(part, dp_buf, out);
                if !ok {
                    proof {
                        assert(!encodable_from(v, sq, i as int));
                    }
                    out.truncate(start);
                    proof {
                        assert(out@ =~= old(out)@);
                    }
                    return false;
                }
                proof {
                    let pe = pass_encoding(v, sq.subrange(i as int, e as int));
                    lemma_pass_len(v, sq.subrange(i as int, e as int));
                    assert(out@ =~= old(out)@ + (acc + pe));
                    assert(encoding_from(v, sq, i as int) == pe + encoding_from(v, sq, e as int));
                    assert(acc + pe + encoding_from(v, sq, e as int) =~= acc + encoding_from(v, sq, i as int));
                    acc = acc + pe;
                }
                i = e;
            }
        }
        proof {
            assert(encoding_from(v, sq, n as int) =~= Seq::<u32>::empty());
            assert(acc =~= acc + encoding_from(v, sq, n as int));
        }
        true
    }

    /// Runs one DP pass over `s` and appends the ids of its best
    /// segmentation to `out`; returns `false`, leaving `out` as it was, when
    /// no segmentation covers `s`.  `dp_buf` is scratch space.
    fn encode_pass_into(&self, s: &[u8], dp_buf: &mut Vec<DpEntry>, out: &mut Vec<u32>) -> (ok: bool)
        requires
            self.trie.wf(),
            s@.len() < MAX_TEXT_LEN,
            old(out)@.len() + s@.len() <= usize::MAX,
        ensures
            ok == pass_encodable(self.model(), s@),
            ok ==> final(out)@ == old(out)@ + pass_encoding(self.model(), s@),
            !ok ==> final(out)@ == old(out)@,
    {
        let ghost tr = self.vocab();
        let ghost t = tr@;
        let ghost sq = s@;
        let n = s.len();
        if n == 0 {
            proof {
                assert(old(out)@ + pass_encoding(t, sq) =~= old(out)@);
            }
            return true;
        }
        dp_buf.clear();
        let unreached = DpEntry::unreachable();
        dp_buf.resize(n + 1, unreached);
        proof {
            assert forall|e: int| 0 < e <= n implies cell(#[trigger] dp_buf@[e]) == table(t, sq, e, 0) by {
                assert(cloned::<DpEntry>(unreached, dp_buf@[e]));
            }
        }
        dp_buf.set(0, DpEntry { count: 0, neg_log_prob: 0, prev_pos: 0, token_id: 0 });
        let mut i: usize = 0;
        while i < n
            invariant
                self.trie.wf(),
                tr == self.vocab(),
                t == tr@,
                sq == s@,
                n == sq.len(),
                n < MAX_TEXT_LEN,
                0 <= i <= n,
                dp_buf@.len() == n + 1,
                forall|e: int| 0 <= e <= n ==> cell(#[trigger] dp_buf@[e]) == table(t, sq, e, i as int),
            decreases n - i,
        {
            self.relax(s, i, dp_buf);
            i = i + 1;
        }
        let last = dp_buf[n];
        proof {
            assert(cell(dp_buf@[n as int]) == best(t, sq, n as int));
        }
        if last.count == u32::MAX {
            return false;
        }
        proof {
            lemma_best_bounds(t, sq, n as int);
        }
        let count = last.count as usize;
        let start = out.len();
        out.resize(start + count, 0);
        let mut pos = n;
        let mut w = start + count;
        proof {
            lemma_segment_len(t, sq, n as int);
            assert(out@.subrange(w as int, (start + count) as int) =~= Seq::<u32>::empty());
            assert(segment(t, sq, n as int) =~= segment(t, sq, n as int) + Seq::<u32>::empty());
        }
        while pos > 0
            invariant
                self.trie.wf(),
                tr == self.vocab(),
                t == tr@,
                sq == s@,
                n == sq.len(),
                0 <= pos <= n,
                dp_buf@.len() == n + 1,
                forall|e: int| 0 <= e <= n ==> cell(#[trigger] dp_buf@[e]) == best(t, sq, e),
                best(t, sq, pos as int) is Some,
                w == start + best(t, sq, pos as int)->0.count,
                start <= w <= start + count,
                out@.len() == start + count,
                start == old(out)@.len(),
                count == best(t, sq, n as int)->0.count,
                out@.subrange(0, start as int) == old(out)@,
                segment(t, sq, n as int) == segment(t, sq, pos as int) + out@.subrange(
                    w as int,
                    (start + count) as int,
                ),
            decreases pos,
        {
            let entry = dp_buf[pos];
            let ghost old_out = out@;
            proof {
                assert(table(t, sq, pos as int, n as int) == best(t, sq, pos as int));
                lemma_best_origin(t, sq, pos as int);
                lemma_segment_len(t, sq, pos as int);
                lemma_best_bounds(t, sq, entry.prev_pos as int);
            }
            w = w - 1;
            out.set(w, entry.token_id);
            pos = entry.prev_pos as usize;
            proof {
                assert(out@.subrange(0, start as int) =~= old_out.subrange(0, start as int));
                assert(out@.subrange(w as int, (start + count) as int) =~= seq![entry.token_id] + old_out.subrange(
                    w + 1,
                    (start + count) as int,
                ));
                let sp = segment(t, sq, pos as int);
                assert(sp.push(entry.token_id) + old_out.subrange(w + 1, (start + count) as int) =~= sp + (seq![entry.token_id]
                    + old_out.subrange(w + 1, (start + count) as int)));
            }
        }
        proof {
            assert(segment(t, sq, 0) =~= Seq::<u32>::empty());
            assert(out@ =~= out@.subrange(0, start as int) + out@.subrange(start as int, (start + count) as int));
        }
        true
    }

    /// Appends the ids of the best segmentation of `text` to `out`.
    /// `dp_buf` is scratch space.
    pub fn encode_into(&self, text: &str, dp_buf: &mut Vec<DpEntry>, out: &mut Vec<u32>)
        requires
            self.trie.wf(),
            encode_utf8(text@).len() < MAX_TEXT_LEN,
            old(out)@.len() + encode_utf8(text@).len() <= usize::MAX,
            encodable(self.model(), encode_utf8(text@)),
        ensures
            final(out)@ == old(out)@ + encoding(self.model(), encode_utf8(text@)),
            encode_utf8(text@).len() == 0 ==> final(dp_buf)@ == old(dp_buf)@,
    {
        let bytes = text.as_bytes();
        let _ = self.encode_bytes_into(bytes, dp_buf, out);
    }

    /// Whether a character outside the vocabulary starts at `s[i]`.
    fn is_oov_at(&self, s: &[u8], i: usize) -> (r: bool)
        requires
            self.trie.wf(),
            i < s@.len(),
        ensures
            r == oov_at(self.model(), s@, i as int),
    {
        let b = s[i];
        if b == 32 || (0x80 <= b && b < 0xc0) {
            return false;
        }
        !self.trie.has_byte(b)
    }

    /// Offers position `i`'s extensions to the positions after it: first the
    /// plain tokens that start at `i`, then, after a space, the flagged
    /// tokens that start at `i + 1`.
    fn relax(&self, s: &[u8], i: usize, dp: &mut Vec<DpEntry>)
        requires
            self.trie.wf(),
            s@.len() < MAX_TEXT_LEN,
            i < s@.len(),
            old(dp)@.len() == s@.len() + 1,
            forall|e: int| 0 <= e <= s@.len() ==> cell(#[trigger] old(dp)@[e]) == table(self.model(), s@, e, i as int),
        ensures
            final(dp)@.len() == s@.len() + 1,
            forall|e: int| 0 <= e <= s@.len() ==> cell(#[trigger] final(dp)@[e]) == table(self.model(), s@, e, i + 1),
    {
        let ghost tr = self.vocab();
        let ghost t = tr@;
        let ghost sq = s@;
        let n = s.len();
        let dp_i = dp[i];
        proof {
            assert(cell(dp@[i as int]) == best(t, sq, i as int));
            lemma_best_bounds(t, sq, i as int);
            assert forall|e: int| 0 <= e <= n implies table(t, sq, e, i + 1) == offer(
                table(t, sq, e, i as int),
                extend(best(t, sq, i as int), #[trigger] piece(t, sq, i as int, e), i as int),
            ) by {
                lemma_table_step(t, sq, e, i as int);
                if e <= i {
                    assert(piece(t, sq, i as int, e) is None);
                }
            }
        }
        if dp_i.count == u32::MAX {
            return;
        }
        proof {
            let c = dp_i.count as int;
            assert(c * FIXED_CAP <= 0x1_0000_0000 * FIXED_CAP) by (nonlinear_arith)
                requires 0 <= c <= 0x1_0000_0000;
        }
        let ghost d0 = dp@;
        self.offer_walk(s, i, false, dp, dp_i);
        let ghost d1 = dp@;
        if s[i] == 32 && i + 1 < n {
            self.offer_walk(s, i, true, dp, dp_i);
        }
        proof {
            assert forall|e: int| 0 <= e <= n implies cell(#[trigger] dp@[e]) == table(t, sq, e, i + 1) by {
                lemma_offer_both(table(t, sq, e, i as int), best(t, sq, i as int), t, sq, i as int, e);
                assert(cell(d0[e]) == table(t, sq, e, i as int));
                assert(cell(d1[e]) == offer(
                    cell(d0[e]),
                    extend(best(t, sq, i as int), walk_piece(t, sq, i as int, e, false), i as int),
                ));
                if !(sq[i as int] == 32 && i + 1 < n) {
                    assert(flagged_piece(t, sq, i as int, e) is None);
                }
            }
        }
    }

    /// Walks the trie from `i` (plain) or from `i + 1` (flagged) and offers
    /// every token found to the position where it ends.
    fn offer_walk(&self, s: &[u8], i: usize, flagged: bool, dp: &mut Vec<DpEntry>, dp_i: DpEntry)
        requires
            self.trie.wf(),
            s@.len() < MAX_TEXT_LEN,
            i < s@.len(),
            flagged ==> s@[i as int] == 32 && i + 1 < s@.len(),
            old(dp)@.len() == s@.len() + 1,
            cell(dp_i) == best(self.model(), s@, i as int),
            dp_i.count < u32::MAX,
            0 <= dp_i.count <= i,
            -0x1_0000_0000_0000_0000_0000_0000 <= dp_i.neg_log_prob <= 0x1_0000_0000_0000_0000_0000_0000,
        ensures
            final(dp)@.len() == s@.len() + 1,
            forall|e: int|
                0 <= e <= s@.len() ==> cell(#[trigger] final(dp)@[e]) == offer(
                    cell(old(dp)@[e]),
                    extend(best(self.model(), s@, i as int), walk_piece(self.model(), s@, i as int, e, flagged), i as int),
                ),
    {
        let ghost tr = self.vocab();
        let ghost t = tr@;
        let ghost sq = s@;
        let ghost d0 = dp@;
        let n = s.len();
        let ss = if flagged { i + 1 } else { i };
        let base_count = dp_i.count + 1;
        let mut node: u32 = 0;
        let mut j = ss;
        let mut open = true;
        proof {
            self.trie.lemma_root_cursor();
            assert(sq.subrange(ss as int, ss as int) =~= Seq::<u8>::empty());
        }
        while j < n && open
            invariant
                self.trie.wf(),
                tr == self.vocab(),
                t == tr@,
                sq == s@,
                n == sq.len(),
                n < MAX_TEXT_LEN,
                i < n,
                flagged ==> sq[i as int] == 32 && i + 1 < n,
                ss == (if flagged { i + 1 } else { i as int }),
                ss <= j <= n,
                dp@.len() == n + 1,
                d0.len() == n + 1,
                cell(dp_i) == best(t, sq, i as int),
                dp_i.count < u32::MAX,
                base_count == dp_i.count + 1,
                0 <= dp_i.count <= i,
                -0x1_0000_0000_0000_0000_0000_0000 <= dp_i.neg_log_prob <= 0x1_0000_0000_0000_0000_0000_0000,
                open ==> self.trie.is_cursor(node) && self.trie.cursor_path(node) == sq.subrange(
                    ss as int,
                    j as int,
                ),
                !open ==> forall|e: int| j < e <= n ==> #[trigger] walk_piece(t, sq, i as int, e, flagged) is None,
                forall|e: int|
                    0 <= e <= n ==> cell(#[trigger] dp@[e]) == if ss < e <= j {
                        offer(cell(d0[e]), extend(best(t, sq, i as int), walk_piece(t, sq, i as int, e, flagged), i as int))
                    } else {
                        cell(d0[e])
                    },
            decreases n - j + (if open { 1int } else { 0int }),
        {
            let next = self.trie.step(node, s[j]);
            proof {
                assert(sq.subrange(ss as int, j + 1) =~= sq.subrange(ss as int, j as int).push(sq[j as int]));
            }
            if next == NONE_ID {
                open = false;
                proof {
                    assert forall|e: int| j < e <= n implies #[trigger] walk_piece(t, sq, i as int, e, flagged) is None by {
                        let p = sq.subrange(ss as int, e);
                        if tr.is_path(p) {
                            tr.lemma_prefix_is_path(p, j + 1 - ss);
                            assert(p.subrange(0, j + 1 - ss) =~= sq.subrange(ss as int, j + 1));
                        }
                        tr.lemma_non_path_not_token(p);
                    }
                }
            } else {
                node = next;
                let ghost e = j + 1;
                match self.trie.terminal(node) {
                    Some((id, lp)) => {
                        let cost = fixed_log_prob(lp);
                        proof {
                            lemma_magnitude_bound(lp);
                        }
                        let tid = if flagged {
                            id | LEADING_SPACE_FLAG
                        } else {
                            id
                        };
                        let cand = DpEntry {
                            count: base_count,
                            neg_log_prob: dp_i.neg_log_prob - cost as i128,
                            prev_pos: i as u32,
                            token_id: tid,
                        };
                        proof {
                            assert(walk_piece(t, sq, i as int, e, flagged) == Some((tid, fixed_value(lp))));
                        }
                        if cand.is_better_than(&dp[j + 1]) {
                            dp.set(j + 1, cand);
                        }
                    },
                    None => {
                        proof {
                            assert(walk_piece(t, sq, i as int, e, flagged) is None);
                        }
                    },
                }
                j = j + 1;
            }
        }
        proof {
            assert forall|e: int| 0 <= e <= n implies cell(#[trigger] dp@[e]) == offer(
                cell(d0[e]),
                extend(best(t, sq, i as int), walk_piece(t, sq, i as int, e, flagged), i as int),
            ) by {
                if !(ss < e <= j) {
                    assert(walk_piece(t, sq, i as int, e, flagged) is None);
                }
            }
        }
    }
}


/// Splits `bytes` into chunks at word boundaries.  A chunk grows word by
/// word until it holds at least `min_bytes` bytes and ends where the next
/// word's spaces begin, so spaces stay with the word that follows them.
pub fn split_words(bytes: &[u8], min_bytes: usize) -> (r: Vec<&[u8]>)
    ensures
        r@.len() == chunk_bounds(bytes@, min_bytes as int, 0).len(),
        forall|k: int|
            0 <= k < r@.len() ==> (#[trigger] r@[k])@ == bytes@.subrange(
                chunk_bounds(bytes@, min_bytes as int, 0)[k].0,
                chunk_bounds(bytes@, min_bytes as int, 0)[k].1,
            ),
{
    let ghost s = bytes@;
    let ghost min = min_bytes as int;
    let ghost m1 = if min > 1 { min } else { 1 };
    let n = bytes.len();
    let mut chunks: Vec<&[u8]> = Vec::new();
    let mut chunk_start: usize = 0;
    let mut i: usize = 0;
    let ghost mut gb: Seq<(int, int)> = seq![];
    proof {
        assert(gb + chunk_bounds(s, min, 0) =~= chunk_bounds(s, min, 0));
    }
    while i < n
        invariant
            s == bytes@,
            n == s.len(),
            min == min_bytes,
            m1 == (if min > 1 { min } else { 1 }),
            0 <= chunk_start <= i <= n,
            forall|p: int| chunk_start + m1 <= p <= i && p < n ==> !is_boundary(s, p),
            chunks@.len() == gb.len(),
            forall|k: int| 0 <= k < gb.len() ==> (#[trigger] chunks@[k])@ == s.subrange(gb[k].0, gb[k].1),
            chunk_bounds(s, min, 0) == gb + chunk_bounds(s, min, chunk_start as int),
        decreases n - i,
    {
        let i0 = i;
        while i < n && bytes[i] == 32
            invariant
                s == bytes@,
                n == s.len(),
                i0 <= i <= n,
                forall|p: int| i0 < p <= i ==> !is_boundary(s, p),
            decreases n - i,
        {
            i = i + 1;
        }
        let j = i;
        while i < n && bytes[i] != 32
            invariant
                s == bytes@,
                n == s.len(),
                j <= i <= n,
                i0 <= j,
                forall|p: int| i0 < p <= j ==> !is_boundary(s, p),
                forall|q: int| j <= q < i ==> s[q] != 32,
                j == n || s[j as int] != 32,
            decreases n - i,
        {
            i = i + 1;
        }
        proof {
            assert forall|p: int| i0 < p < i implies !is_boundary(s, p) by {
                if p > j {
                    assert(s[p - 1] != 32);
                }
            }
            if i < n {
                assert(i > j);
                assert(is_boundary(s, i as int));
            }
        }
        if i - chunk_start >= min_bytes && i < n {
            proof {
                lemma_first_boundary_is(s, chunk_start + m1, i as int);
                let cb = chunk_bounds(s, min, chunk_start as int);
                assert(cb == seq![(chunk_start as int, i as int)] + chunk_bounds(s, min, i as int));
                assert(gb + cb =~= gb.push((chunk_start as int, i as int)) + chunk_bounds(s, min, i as int));
            }
            chunks.push(&bytes[chunk_start..i]);
            proof {
                gb = gb.push((chunk_start as int, i as int));
            }
            chunk_start = i;
        }
    }
    if chunk_start < n {
        proof {
            if chunk_start + m1 <= n {
                lemma_first_boundary_is(s, chunk_start + m1, n as int);
            }
            let cb = chunk_bounds(s, min, chunk_start as int);
            assert(chunk_bounds(s, min, n as int) =~= Seq::<(int, int)>::empty());
            assert(cb =~= seq![(chunk_start as int, n as int)]);
            assert(gb + cb =~= gb.push((chunk_start as int, n as int)));
        }
        chunks.push(&bytes[chunk_start..n]);
        proof {
            gb = gb.push((chunk_start as int, n as int));
        }
    }
    chunks
}

} // verus!
