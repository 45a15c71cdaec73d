//! Text normalization applied to training text: invisible characters are
//! removed, line endings become `\n`, runs of three or more newlines shrink
//! to two, and the result is put in Unicode NFC.
use vstd::prelude::*;

verus! {

/// Zero-width and directional control characters, the byte order mark and
/// the soft hyphen: `normalize` removes them.
pub open spec fn is_strip_char(c: char) -> bool {
    ||| c == '\u{200B}'
    ||| c == '\u{200C}'
    ||| c == '\u{200D}'
    ||| c == '\u{200E}'
    ||| c == '\u{200F}'
    ||| c == '\u{202A}'
    ||| c == '\u{202B}'
    ||| c == '\u{202C}'
    ||| c == '\u{202D}'
    ||| c == '\u{202E}'
    ||| c == '\u{FEFF}'
    ||| c == '\u{00AD}'
}

/// `s` without its strip characters.
pub open spec fn stripped(s: Seq<char>) -> Seq<char>
    decreases s.len(),
{
    if s.len() == 0 {
        s
    } else {
        (if is_strip_char(s[0]) {
            Seq::<char>::empty()
        } else {
            seq![s[0]]
        }) + stripped(s.drop_first())
    }
}

/// `s` with each `\r\n` and each remaining `\r` turned into `\n`.
pub open spec fn unix_newlines(s: Seq<char>) -> Seq<char>
    decreases s.len(),
{
    if s.len() == 0 {
        s
    } else if s[0] == '\r' {
        if s.len() > 1 && s[1] == '\n' {
            seq!['\n'] + unix_newlines(s.subrange(2, s.len() as int))
        } else {
            seq!['\n'] + unix_newlines(s.drop_first())
        }
    } else {
        seq![s[0]] + unix_newlines(s.drop_first())
    }
}

/// What a run of `count` newlines becomes: itself when shorter than three,
/// two newlines otherwise.
pub open spec fn newline_run(count: nat) -> Seq<char> {
    if count >= 3 {
        seq!['\n', '\n']
    } else {
        Seq::new(count, |i: int| '\n')
    }
}

/// `s`, preceded by a pending run of `count` newlines, with every run of
/// three or more newlines shortened to two.
pub open spec fn collapsed_from(s: Seq<char>, count: nat) -> Seq<char>
    decreases s.len(),
{
    if s.len() == 0 {
        newline_run(count)
    } else if s[0] == '\n' {
        collapsed_from(s.drop_first(), count + 1)
    } else {
        newline_run(count) + seq![s[0]] + collapsed_from(s.drop_first(), 0)
    }
}

/// `s` with every run of three or more newlines shortened to two.
pub open spec fn collapsed(s: Seq<char>) -> Seq<char> {
    collapsed_from(s, 0)
}

/// `s` has no run of three newlines.
pub open spec fn no_triple_newline(s: Seq<char>) -> bool {
    forall|i: int| 0 <= i && i + 2 < s.len() ==> !(#[trigger] s[i] == '\n' && s[i + 1] == '\n' && s[i + 2] == '\n')
}

/// After collapsing, no run of three newlines is left.
pub proof fn lemma_collapsed_no_triple(s: Seq<char>, count: nat)
    ensures
        no_triple_newline(collapsed_from(s, count)),
    decreases s.len(),
{
    if s.len() > 0 {
        if s[0] == '\n' {
            lemma_collapsed_no_triple(s.drop_first(), count + 1);
        } else {
            let run = newline_run(count);
            let rest = collapsed_from(s.drop_first(), 0);
            lemma_collapsed_no_triple(s.drop_first(), 0);
            let x = run + seq![s[0]] + rest;
            assert(run.len() <= 2);
            assert forall|i: int| 0 <= i && i + 2 < x.len() implies !(#[trigger] x[i] == '\n' && x[i + 1] == '\n'
                && x[i + 2] == '\n') by {
                let r = run.len() as int;
                if i >= r + 1 {
                    assert(x[i] == rest[i - r - 1]);
                    assert(x[i + 1] == rest[i - r]);
                    assert(x[i + 2] == rest[i - r + 1]);
                } else {
                    assert(x[r] == s[0]);
                }
            }
        }
    }
}

/// `k` newlines.
pub open spec fn newlines(k: nat) -> Seq<char> {
    Seq::new(k, |i: int| '\n')
}

/// Collapsing splits after a character that is no newline.
proof fn lemma_collapsed_split(x: Seq<char>, y: Seq<char>, c: nat)
    requires
        x.len() > 0,
        x.last() != '\n',
    ensures
        collapsed_from(x + y, c) == collapsed_from(x, c) + collapsed_from(y, 0),
    decreases x.len(),
{
    let r = x.drop_first();
    assert((x + y).drop_first() =~= r + y);
    if x.len() == 1 {
        assert(r + y =~= y);
        assert(collapsed_from(r, 0) =~= Seq::<char>::empty());
        assert(collapsed_from(x, c) =~= newline_run(c) + seq![x[0]]);
        if x[0] == '\n' {
        } else {
            assert(newline_run(c) + seq![x[0]] + collapsed_from(y, 0) =~= newline_run(c) + seq![x[0]]
                + Seq::<char>::empty() + collapsed_from(y, 0));
        }
    } else {
        assert(r.last() == x.last());
        lemma_collapsed_split(r, y, if x[0] == '\n' { c + 1 } else { 0 });
        if x[0] != '\n' {
            assert(newline_run(c) + seq![x[0]] + (collapsed_from(r, 0) + collapsed_from(y, 0)) =~= newline_run(c)
                + seq![x[0]] + collapsed_from(r, 0) + collapsed_from(y, 0));
        }
    }
}

/// A pending run grows by the newlines that follow it.
proof fn lemma_collapsed_newlines(k: nat, y: Seq<char>, c: nat)
    ensures
        collapsed_from(newlines(k) + y, c) == collapsed_from(y, c + k),
    decreases k,
{
    if k > 0 {
        assert((newlines(k) + y)[0] == '\n');
        assert((newlines(k) + y).drop_first() =~= newlines((k - 1) as nat) + y);
        lemma_collapsed_newlines((k - 1) as nat, y, c + 1);
    } else {
        assert(newlines(0) + y =~= y);
    }
}

/// Collapsing what does not start with a newline emits the pending run
/// first.
proof fn lemma_collapsed_pending(y: Seq<char>, c: nat)
    requires
        y.len() == 0 || y[0] != '\n',
    ensures
        collapsed_from(y, c) == newline_run(c) + collapsed_from(y, 0),
{
    if y.len() == 0 {
        assert(newline_run(0) =~= Seq::<char>::empty());
        assert(newline_run(c) + Seq::<char>::empty() =~= newline_run(c));
    } else {
        assert(newline_run(0) =~= Seq::<char>::empty());
        assert(Seq::<char>::empty() + seq![y[0]] =~= seq![y[0]]);
        assert(newline_run(c) + (seq![y[0]] + collapsed_from(y.drop_first(), 0)) =~= newline_run(c) + seq![y[0]]
            + collapsed_from(y.drop_first(), 0));
    }
}

/// A maximal run of `k` newlines between text `a` and text `b` becomes
/// exactly `min(k, 2)` newlines, and the text around it is collapsed on
/// its own.
pub proof fn lemma_collapsed_run(a: Seq<char>, k: nat, b: Seq<char>)
    requires
        a.len() == 0 || a.last() != '\n',
        b.len() == 0 || b[0] != '\n',
    ensures
        collapsed(a + newlines(k) + b) == collapsed(a) + newlines(if k >= 2 { 2 } else { k }) + collapsed(b),
{
    lemma_collapsed_newlines(k, b, 0);
    lemma_collapsed_pending(b, k);
    assert(newline_run(k) =~= newlines(if k >= 2 { 2 } else { k }));
    if a.len() == 0 {
        assert(a + newlines(k) + b =~= newlines(k) + b);
        assert(collapsed(a) =~= Seq::<char>::empty());
        assert(collapsed(a) + newlines(if k >= 2 { 2 } else { k }) + collapsed(b) =~= newlines(
            if k >= 2 { 2 } else { k },
        ) + collapsed(b));
    } else {
        assert(a + newlines(k) + b =~= a + (newlines(k) + b));
        lemma_collapsed_split(a, newlines(k) + b, 0);
        assert(collapsed(a) + (newline_run(k) + collapsed(b)) =~= collapsed(a) + newline_run(k) + collapsed(b));
    }
}

/// Line endings are unified: no carriage return is left.
pub proof fn lemma_unix_newlines_no_cr(s: Seq<char>)
    ensures
        forall|i: int| 0 <= i < unix_newlines(s).len() ==> #[trigger] unix_newlines(s)[i] != '\r',
    decreases s.len(),
{
    if s.len() > 0 {
        let rest = if s[0] == '\r' && s.len() > 1 && s[1] == '\n' {
            s.subrange(2, s.len() as int)
        } else {
            s.drop_first()
        };
        lemma_unix_newlines_no_cr(rest);
        let u = unix_newlines(s);
        assert(u == seq![u[0]] + unix_newlines(rest));
        assert forall|i: int| 0 <= i < u.len() implies #[trigger] u[i] != '\r' by {
            if i > 0 {
                assert(u[i] == unix_newlines(rest)[i - 1]);
            }
        }
    }
}

/// Stripping leaves none of the strip characters.
pub proof fn lemma_stripped_clean(s: Seq<char>)
    ensures
        forall|i: int| 0 <= i < stripped(s).len() ==> !is_strip_char(#[trigger] stripped(s)[i]),
    decreases s.len(),
{
    if s.len() > 0 {
        lemma_stripped_clean(s.drop_first());
        let head = if is_strip_char(s[0]) {
            Seq::<char>::empty()
        } else {
            seq![s[0]]
        };
        let x = stripped(s);
        assert(x == head + stripped(s.drop_first()));
        assert forall|i: int| 0 <= i < x.len() implies !is_strip_char(#[trigger] x[i]) by {
            if i >= head.len() {
                assert(x[i] == stripped(s.drop_first())[i - head.len()]);
            }
        }
    }
}

/// Collapsing keeps a newline run shorter than three and the text around
/// it: text without a run of three newlines is left as it is.
pub proof fn lemma_collapsed_keeps_short_runs(s: Seq<char>, count: nat)
    requires
        count <= 2,
        no_triple_newline(Seq::new(count, |i: int| '\n') + s),
    ensures
        collapsed_from(s, count) == Seq::new(count, |i: int| '\n') + s,
    decreases s.len(),
{
    let pre = Seq::new(count, |i: int| '\n');
    if s.len() == 0 {
        assert(pre + s =~= pre);
    } else if s[0] == '\n' {
        let pre1 = Seq::new(count + 1, |i: int| '\n');
        assert(pre1 + s.drop_first() =~= pre + s);
        if count == 2 {
            let x = pre + s;
            assert(x[0] == '\n' && x[1] == '\n' && x[2] == '\n');
        }
        lemma_collapsed_keeps_short_runs(s.drop_first(), count + 1);
    } else {
        let rest = s.drop_first();
        let x = pre + s;
        assert forall|i: int| 0 <= i && i + 2 < rest.len() implies !(#[trigger] rest[i] == '\n' && rest[i + 1]
            == '\n' && rest[i + 2] == '\n') by {
            assert(x[i + count + 1] == rest[i]);
            assert(x[i + count + 2] == rest[i + 1]);
            assert(x[i + count + 3] == rest[i + 2]);
        }
        assert(Seq::new(0, |i: int| '\n') + rest =~= rest);
        lemma_collapsed_keeps_short_runs(rest, 0);
        assert(newline_run(count) =~= pre);
        assert(pre + seq![s[0]] + rest =~= pre + s);
    }
}

/// The canonical composition (Unicode NFC) of `s`, as unicode-normalization
/// computes it.
pub uninterp spec fn nfc_of(s: Seq<char>) -> Seq<char>;

/// `UnicodeNormalization::nfc` on `s`, collected into a `String`: the NFC
/// form of `s`.
#[verifier::external_body]
fn nfc(s: &str) -> (r: String)
    ensures
        r@ == nfc_of(s@),
{
    unicode_normalization::UnicodeNormalization::nfc(s).collect()
}

/// `String::from_iter` over characters: the string of exactly those
/// characters.
#[verifier::external_body]
pub(crate) fn string_from_chars(chars: &Vec<char>) -> (r: String)
    ensures
        r@ == chars@,
{
    String::from_iter(chars.iter())
}

/// The characters of `text`, in order.
pub(crate) fn chars_of(text: &str) -> (r: Vec<char>)
    ensures
        r@ == text@,
{
    let mut it = text.chars();
    let mut out: Vec<char> = Vec::new();
    loop
        invariant
            out@ + vstd::std_specs::iter::IteratorSpec::remaining(&it) == text@,
            vstd::std_specs::iter::IteratorSpec::decrease(&it) is Some,
        ensures
            out@ == text@,
        decreases vstd::std_specs::iter::IteratorSpec::decrease(&it)->0,
    {
        let ghost before = vstd::std_specs::iter::IteratorSpec::remaining(&it);
        match it.next() {
            Some(c) => {
                proof {
                    assert(out@.push(c) + before.drop_first() =~= out@ + before);
                }
                out.push(c);
            },
            None => {
                proof {
                    assert(out@ + before =~= out@);
                }
                break;
            },
        }
    }
    out
}

/// Whether `c` is one of the characters that `normalize` removes.
pub fn is_strip(c: char) -> (r: bool)
    ensures
        r == is_strip_char(c),
{
    c == '\u{200B}' || c == '\u{200C}' || c == '\u{200D}' || c == '\u{200E}' || c == '\u{200F}'
        || c == '\u{202A}' || c == '\u{202B}' || c == '\u{202C}' || c == '\u{202D}' || c
        == '\u{202E}' || c == '\u{FEFF}' || c == '\u{00AD}'
}

/// Removes the strip characters.
fn strip_chars(s: &Vec<char>) -> (r: Vec<char>)
    ensures
        r@ == stripped(s@),
{
    let mut out: Vec<char> = Vec::new();
    let mut k: usize = 0;
    proof {
        assert(out@ + stripped(s@.subrange(0, s@.len() as int)) =~= stripped(s@)) by {
            assert(s@.subrange(0, s@.len() as int) =~= s@);
        }
    }
    while k < s.len()
        invariant
            0 <= k <= s@.len(),
            out@ + stripped(s@.subrange(k as int, s@.len() as int)) == stripped(s@),
        decreases s@.len() - k,
    {
        let ghost rest = s@.subrange(k as int, s@.len() as int);
        let c = s[k];
        proof {
            assert(rest.drop_first() =~= s@.subrange(k + 1, s@.len() as int));
        }
        if !is_strip(c) {
            proof {
                assert(out@.push(c) + stripped(rest.drop_first()) =~= out@ + (seq![c] + stripped(
                    rest.drop_first(),
                )));
            }
            out.push(c);
        } else {
            proof {
                assert(Seq::<char>::empty() + stripped(rest.drop_first()) =~= stripped(rest.drop_first()));
            }
        }
        k = k + 1;
    }
    proof {
        assert(s@.subrange(k as int, s@.len() as int) =~= Seq::<char>::empty());
        assert(out@ + Seq::<char>::empty() =~= out@);
    }
    out
}

/// Turns `\r\n` and lone `\r` into `\n`.
fn unix_line_endings(s: &Vec<char>) -> (r: Vec<char>)
    ensures
        r@ == unix_newlines(s@),
{
    let mut out: Vec<char> = Vec::new();
    let mut k: usize = 0;
    let n = s.len();
    proof {
        assert(out@ + unix_newlines(s@.subrange(0, n as int)) =~= unix_newlines(s@)) by {
            assert(s@.subrange(0, n as int) =~= s@);
        }
    }
    while k < n
        invariant
            n == s@.len(),
            0 <= k <= n,
            out@ + unix_newlines(s@.subrange(k as int, n as int)) == unix_newlines(s@),
        decreases n - k,
    {
        let ghost rest = s@.subrange(k as int, n as int);
        let c = s[k];
        if c == '\r' {
            if k + 1 < n && s[k + 1] == '\n' {
                proof {
                    assert(rest.subrange(2, rest.len() as int) =~= s@.subrange(k + 2, n as int));
                    assert(out@.push('\n') + unix_newlines(s@.subrange(k + 2, n as int)) =~= out@ + (seq!['\n']
                        + unix_newlines(s@.subrange(k + 2, n as int))));
                }
                out.push('\n');
                k = k + 2;
            } else {
                proof {
                    assert(rest.drop_first() =~= s@.subrange(k + 1, n as int));
                    assert(out@.push('\n') + unix_newlines(rest.drop_first()) =~= out@ + (seq!['\n']
                        + unix_newlines(rest.drop_first())));
                }
                out.push('\n');
                k = k + 1;
            }
        } else {
            proof {
                assert(rest.drop_first() =~= s@.subrange(k + 1, n as int));
                assert(out@.push(c) + unix_newlines(rest.drop_first()) =~= out@ + (seq![c] + unix_newlines(
                    rest.drop_first(),
                )));
            }
            out.push(c);
            k = k + 1;
        }
    }
    proof {
        assert(s@.subrange(k as int, n as int) =~= Seq::<char>::empty());
        assert(out@ + Seq::<char>::empty() =~= out@);
    }
    out
}

/// Appends a run of `count` newlines as `newline_run` has it.
fn push_newline_run(out: &mut Vec<char>, count: usize)
    ensures
        final(out)@ == old(out)@ + newline_run(count as nat),
{
    if count >= 3 {
        out.push('\n');
        out.push('\n');
        proof {
            assert(old(out)@.push('\n').push('\n') =~= old(out)@ + seq!['\n', '\n']);
        }
    } else {
        let mut k: usize = 0;
        while k < count
            invariant
                count < 3,
                0 <= k <= count,
                out@ == old(out)@ + Seq::new(k as nat, |i: int| '\n'),
            decreases count - k,
        {
            proof {
                assert(out@.push('\n') =~= old(out)@ + Seq::new((k + 1) as nat, |i: int| '\n'));
            }
            out.push('\n');
            k = k + 1;
        }
    }
}

/// Shortens every run of three or more newlines to two.
pub fn collapse_newlines(s: &str) -> (r: String)
    ensures
        r@ == collapsed(s@),
{
    let chars = chars_of(s);
    let out = collapse_chars(&chars);
    string_from_chars(&out)
}

fn collapse_chars(s: &Vec<char>) -> (r: Vec<char>)
    ensures
        r@ == collapsed(s@),
{
    let mut out: Vec<char> = Vec::new();
    let mut count: usize = 0;
    let mut k: usize = 0;
    let n = s.len();
    proof {
        assert(out@ + collapsed_from(s@.subrange(0, n as int), 0) =~= collapsed(s@)) by {
            assert(s@.subrange(0, n as int) =~= s@);
        }
    }
    while k < n
        invariant
            n == s@.len(),
            0 <= k <= n,
            count <= k,
            out@ + collapsed_from(s@.subrange(k as int, n as int), count as nat) == collapsed(s@),
        decreases n - k,
    {
        let ghost rest = s@.subrange(k as int, n as int);
        let c = s[k];
        proof {
            assert(rest.drop_first() =~= s@.subrange(k + 1, n as int));
        }
        if c == '\n' {
            count = count + 1;
        } else {
            let ghost before = out@;
            push_newline_run(&mut out, count);
            out.push(c);
            proof {
                assert(out@ + collapsed_from(rest.drop_first(), 0) =~= before + (newline_run(count as nat)
                    + seq![c] + collapsed_from(rest.drop_first(), 0)));
            }
            count = 0;
        }
        k = k + 1;
    }
    push_newline_run(&mut out, count);
    proof {
        assert(s@.subrange(k as int, n as int) =~= Seq::<char>::empty());
    }
    out
}

/// Removes invisible characters, turns line endings into `\n`, shortens
/// runs of three or more newlines to two and puts the text in NFC.
pub fn normalize(text: &str) -> (r: String)
    ensures
        r@ == nfc_of(collapsed(unix_newlines(stripped(text@)))),
{
    let chars = chars_of(text);
    let kept = strip_chars(&chars);
    let lf = unix_line_endings(&kept);
    let collapsed_chars = collapse_chars(&lf);
    let pre = string_from_chars(&collapsed_chars);
    nfc(pre.as_str())
}

} // verus!
