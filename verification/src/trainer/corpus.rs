//! Turning corpus lines into documents: blank-line separated paragraphs of
//! plain text, or one string field per line of JSON Lines.
use vstd::prelude::*;
use crate::trainer::normalizer::{chars_of, string_from_chars};

verus! {

/// The reader used when a corpus source names none.
pub fn default_reader() -> (r: String)
    ensures
        r@ == "text"@,
{
    "text".to_owned()
}

/// The JSON field read when a corpus source names none.
pub fn default_text_field() -> (r: String)
    ensures
        r@ == "text"@,
{
    "text".to_owned()
}

/// Characters with the Unicode `White_Space` property (what
/// `char::is_whitespace` tests).
pub open spec fn is_white_space(c: char) -> bool {
    ||| ('\u{9}' <= c && c <= '\u{D}')
    ||| c == ' '
    ||| c == '\u{85}'
    ||| c == '\u{A0}'
    ||| c == '\u{1680}'
    ||| ('\u{2000}' <= c && c <= '\u{200A}')
    ||| c == '\u{2028}'
    ||| c == '\u{2029}'
    ||| c == '\u{202F}'
    ||| c == '\u{205F}'
    ||| c == '\u{3000}'
}

/// Whether `c` is white space.
pub fn is_whitespace(c: char) -> (r: bool)
    ensures
        r == is_white_space(c),
{
    ('\u{9}' <= c && c <= '\u{D}') || c == ' ' || c == '\u{85}' || c == '\u{A0}' || c == '\u{1680}'
        || ('\u{2000}' <= c && c <= '\u{200A}') || c == '\u{2028}' || c == '\u{2029}' || c
        == '\u{202F}' || c == '\u{205F}' || c == '\u{3000}'
}

/// `s` holds nothing but white space.
pub open spec fn is_blank(s: Seq<char>) -> bool {
    forall|i: int| 0 <= i < s.len() ==> is_white_space(#[trigger] s[i])
}

/// The number of white-space characters that `s` starts with.
pub open spec fn lead_ws(s: Seq<char>) -> nat
    decreases s.len(),
{
    if s.len() > 0 && is_white_space(s[0]) {
        1 + lead_ws(s.drop_first())
    } else {
        0
    }
}

/// The number of white-space characters that `s` ends with.
pub open spec fn trail_ws(s: Seq<char>) -> nat
    decreases s.len(),
{
    if s.len() > 0 && is_white_space(s.last()) {
        1 + trail_ws(s.drop_last())
    } else {
        0
    }
}

/// `s` without its leading and trailing white space (as `str::trim`).
pub open spec fn trimmed(s: Seq<char>) -> Seq<char> {
    if lead_ws(s) == s.len() {
        Seq::<char>::empty()
    } else {
        s.subrange(lead_ws(s) as int, s.len() - trail_ws(s))
    }
}

proof fn lemma_lead_ws(s: Seq<char>, k: int)
    requires
        0 <= k <= s.len(),
        forall|i: int| 0 <= i < k ==> is_white_space(#[trigger] s[i]),
        k == s.len() || !is_white_space(s[k]),
    ensures
        lead_ws(s) == k,
    decreases k,
{
    if k > 0 {
        assert forall|i: int| 0 <= i < k - 1 implies is_white_space(#[trigger] s.drop_first()[i]) by {
            assert(s.drop_first()[i] == s[i + 1]);
        }
        if k < s.len() {
            assert(s.drop_first()[k - 1] == s[k]);
        }
        lemma_lead_ws(s.drop_first(), k - 1);
    }
}

proof fn lemma_trail_ws(s: Seq<char>, k: int)
    requires
        0 <= k <= s.len(),
        forall|i: int| s.len() - k <= i < s.len() ==> is_white_space(#[trigger] s[i]),
        k == s.len() || !is_white_space(s[s.len() - k - 1]),
    ensures
        trail_ws(s) == k,
    decreases k,
{
    if k > 0 {
        let d = s.drop_last();
        assert forall|i: int| d.len() - (k - 1) <= i < d.len() implies is_white_space(#[trigger] d[i]) by {
            assert(d[i] == s[i]);
        }
        if k < s.len() {
            assert(d[d.len() - (k - 1) - 1] == s[s.len() - k - 1]);
        }
        lemma_trail_ws(d, k - 1);
    }
}

/// The characters of `s` without leading and trailing white space.
fn trim_chars(s: &Vec<char>) -> (r: Vec<char>)
    ensures
        r@ == trimmed(s@),
{
    let n = s.len();
    let mut a: usize = 0;
    while a < n && is_whitespace(s[a])
        invariant
            n == s@.len(),
            0 <= a <= n,
            forall|i: int| 0 <= i < a ==> is_white_space(#[trigger] s@[i]),
        decreases n - a,
    {
        a = a + 1;
    }
    proof {
        lemma_lead_ws(s@, a as int);
    }
    let mut out: Vec<char> = Vec::new();
    if a == n {
        proof {
            assert(out@ =~= trimmed(s@));
        }
        return out;
    }
    let mut b: usize = n;
    while b > a && is_whitespace(s[b - 1])
        invariant
            n == s@.len(),
            a < n,
            !is_white_space(s@[a as int]),
            a <= b <= n,
            forall|i: int| b <= i < n ==> is_white_space(#[trigger] s@[i]),
        decreases b,
    {
        b = b - 1;
    }
    proof {
        assert(b > a);
        lemma_trail_ws(s@, n - b);
    }
    let mut k: usize = a;
    while k < b
        invariant
            a <= k <= b <= n,
            n == s@.len(),
            out@ == s@.subrange(a as int, k as int),
        decreases b - k,
    {
        out.push(s[k]);
        proof {
            assert(out@ =~= s@.subrange(a as int, k + 1));
        }
        k = k + 1;
    }
    out
}

/// `lines` joined with newlines.
pub open spec fn joined(lines: Seq<Seq<char>>) -> Seq<char>
    decreases lines.len(),
{
    if lines.len() == 0 {
        Seq::<char>::empty()
    } else if lines.len() == 1 {
        lines[0]
    } else {
        joined(lines.drop_last()) + seq!['\n'] + lines.last()
    }
}

/// The paragraph `buf` as a one-element list, or nothing when it is empty.
pub open spec fn flush(buf: Seq<Seq<char>>) -> Seq<Seq<char>> {
    if buf.len() > 0 {
        seq![joined(buf)]
    } else {
        Seq::<Seq<char>>::empty()
    }
}

/// The paragraphs of `lines` from `i` on, with the lines `buf` of the
/// paragraph in progress: blank lines end a paragraph.
pub open spec fn paragraphs_from(lines: Seq<Seq<char>>, i: int, buf: Seq<Seq<char>>) -> Seq<Seq<char>>
    decreases lines.len() - i,
{
    if i < 0 || i >= lines.len() {
        flush(buf)
    } else if is_blank(lines[i]) {
        flush(buf) + paragraphs_from(lines, i + 1, Seq::<Seq<char>>::empty())
    } else {
        paragraphs_from(lines, i + 1, buf.push(lines[i]))
    }
}

/// From `i` on, lines that are all non-blank join the paragraph in
/// progress.
proof fn lemma_paragraph_run(lines: Seq<Seq<char>>, i: int, buf: Seq<Seq<char>>)
    requires
        0 <= i <= lines.len(),
        forall|q: int| i <= q < lines.len() ==> !is_blank(#[trigger] lines[q]),
    ensures
        paragraphs_from(lines, i, buf) == flush(buf + lines.subrange(i, lines.len() as int)),
    decreases lines.len() - i,
{
    if i == lines.len() {
        assert(buf + lines.subrange(i, lines.len() as int) =~= buf);
    } else {
        assert(!is_blank(lines[i]));
        lemma_paragraph_run(lines, i + 1, buf.push(lines[i]));
        assert(buf.push(lines[i]) + lines.subrange(i + 1, lines.len() as int) =~= buf + lines.subrange(
            i,
            lines.len() as int,
        ));
    }
}

/// A single line that is not blank is a document of its own, as it is,
/// character for character.
pub proof fn lemma_single_line_document(l: Seq<char>)
    requires
        !is_blank(l),
    ensures
        paragraphs_from(seq![l], 0, Seq::<Seq<char>>::empty()) == seq![l],
{
    lemma_paragraph_run(seq![l], 0, Seq::<Seq<char>>::empty());
    assert(Seq::<Seq<char>>::empty() + seq![l].subrange(0, 1) =~= seq![l]);
}

/// A line that is not blank, right after a run of non-blank lines, is
/// appended to that run's document after a newline, as it is.
pub proof fn lemma_next_line_appends(a: Seq<Seq<char>>, l: Seq<char>)
    requires
        a.len() > 0,
        forall|q: int| 0 <= q < a.len() ==> !is_blank(#[trigger] a[q]),
        !is_blank(l),
    ensures
        paragraphs_from(a, 0, Seq::<Seq<char>>::empty()).len() == 1,
        paragraphs_from(a.push(l), 0, Seq::<Seq<char>>::empty()) == seq![
            paragraphs_from(a, 0, Seq::<Seq<char>>::empty())[0] + seq!['\n'] + l,
        ],
{
    let e = Seq::<Seq<char>>::empty();
    lemma_paragraph_run(a, 0, e);
    assert forall|q: int| 0 <= q < a.push(l).len() implies !is_blank(#[trigger] a.push(l)[q]) by {
        if q < a.len() {
            assert(a.push(l)[q] == a[q]);
        }
    }
    lemma_paragraph_run(a.push(l), 0, e);
    assert(e + a.subrange(0, a.len() as int) =~= a);
    assert(e + a.push(l).subrange(0, (a.len() + 1) as int) =~= a.push(l));
    assert(a.push(l).drop_last() =~= a);
}

/// Paragraphs from `i` on in `p + b` are those of `b` from `i - p.len()`.
proof fn lemma_paragraph_shift(p: Seq<Seq<char>>, b: Seq<Seq<char>>, j: int, buf: Seq<Seq<char>>)
    requires
        0 <= j <= b.len(),
    ensures
        paragraphs_from(p + b, p.len() + j, buf) == paragraphs_from(b, j, buf),
    decreases b.len() - j,
{
    if j < b.len() {
        assert((p + b)[p.len() + j] == b[j]);
        lemma_paragraph_shift(p, b, j + 1, Seq::<Seq<char>>::empty());
        lemma_paragraph_shift(p, b, j + 1, buf.push(b[j]));
    }
}

/// From `i` on, a blank line between `a` and `b` splits the documents.
proof fn lemma_blank_split_from(a: Seq<Seq<char>>, bl: Seq<char>, b: Seq<Seq<char>>, i: int, buf: Seq<Seq<char>>)
    requires
        is_blank(bl),
        0 <= i <= a.len(),
    ensures
        paragraphs_from(a + seq![bl] + b, i, buf) == paragraphs_from(a, i, buf) + paragraphs_from(
            b,
            0,
            Seq::<Seq<char>>::empty(),
        ),
    decreases a.len() - i,
{
    let x = a + seq![bl] + b;
    let e = Seq::<Seq<char>>::empty();
    if i == a.len() {
        assert(x[i] == bl);
        assert(x =~= (a + seq![bl]) + b);
        lemma_paragraph_shift(a + seq![bl], b, 0, e);
    } else {
        assert(x[i] == a[i]);
        lemma_blank_split_from(a, bl, b, i + 1, e);
        lemma_blank_split_from(a, bl, b, i + 1, buf.push(a[i]));
        if is_blank(a[i]) {
            assert(flush(buf) + (paragraphs_from(a, i + 1, e) + paragraphs_from(b, 0, e)) =~= flush(buf)
                + paragraphs_from(a, i + 1, e) + paragraphs_from(b, 0, e));
        }
    }
}

/// A blank line separates documents: the lines before it and the lines
/// after it give their documents independently.
pub proof fn lemma_blank_line_splits(a: Seq<Seq<char>>, bl: Seq<char>, b: Seq<Seq<char>>)
    requires
        is_blank(bl),
    ensures
        paragraphs_from(a + seq![bl] + b, 0, Seq::<Seq<char>>::empty()) == paragraphs_from(
            a,
            0,
            Seq::<Seq<char>>::empty(),
        ) + paragraphs_from(b, 0, Seq::<Seq<char>>::empty()),
{
    lemma_blank_split_from(a, bl, b, 0, Seq::<Seq<char>>::empty());
}

/// The characters of each string.
pub open spec fn views(ss: Seq<String>) -> Seq<Seq<char>> {
    ss.map_values(|s: String| s@)
}

/// Groups lines into documents: maximal runs of non-blank lines, joined
/// with newlines.
pub fn collect_paragraphs(lines: &[String]) -> (r: Vec<String>)
    ensures
        views(r@) == paragraphs_from(views(lines@), 0, Seq::<Seq<char>>::empty()),
{
    let ghost ls = views(lines@);
    let mut docs: Vec<String> = Vec::new();
    let mut cur: Vec<char> = Vec::new();
    let mut has = false;
    let ghost mut buf: Seq<Seq<char>> = seq![];
    let mut k: usize = 0;
    proof {
        assert(views(docs@) + paragraphs_from(ls, 0, buf) =~= paragraphs_from(ls, 0, buf));
    }
    while k < lines.len()
        invariant
            ls == views(lines@),
            0 <= k <= ls.len(),
            has == (buf.len() > 0),
            cur@ == joined(buf),
            views(docs@) + paragraphs_from(ls, k as int, buf) == paragraphs_from(
                ls,
                0,
                Seq::<Seq<char>>::empty(),
            ),
        decreases ls.len() - k,
    {
        let line = chars_of(lines[k].as_str());
        proof {
            assert(line@ == ls[k as int]);
        }
        let mut blank = true;
        let mut j: usize = 0;
        while j < line.len() && blank
            invariant
                0 <= j <= line@.len(),
                blank ==> forall|q: int| 0 <= q < j ==> is_white_space(#[trigger] line@[q]),
                !blank ==> !is_blank(line@),
            decreases line@.len() - j + (if blank { 1int } else { 0int }),
        {
            if !is_whitespace(line[j]) {
                blank = false;
            } else {
                j = j + 1;
            }
        }
        if blank {
            if has {
                let doc = string_from_chars(&cur);
                let ghost before = views(docs@);
                docs.push(doc);
                proof {
                    assert(views(docs@) =~= before.push(joined(buf)));
                    assert(views(docs@) + paragraphs_from(ls, k + 1, Seq::<Seq<char>>::empty()) =~= before
                        + (flush(buf) + paragraphs_from(ls, k + 1, Seq::<Seq<char>>::empty())));
                }
            } else {
                proof {
                    assert(flush(buf) =~= Seq::<Seq<char>>::empty());
                    assert(views(docs@) + paragraphs_from(ls, k + 1, Seq::<Seq<char>>::empty()) =~= views(docs@)
                        + (flush(buf) + paragraphs_from(ls, k + 1, Seq::<Seq<char>>::empty())));
                }
            }
            cur = Vec::new();
            has = false;
            proof {
                buf = seq![];
                assert(cur@ =~= joined(buf));
            }
        } else {
            let ghost nb = buf.push(line@);
            if has {
                cur.push('\n');
            }
            let mut q: usize = 0;
            let ghost base = cur@;
            while q < line.len()
                invariant
                    0 <= q <= line@.len(),
                    cur@ == base + line@.subrange(0, q as int),
                decreases line@.len() - q,
            {
                cur.push(line[q]);
                proof {
                    assert(cur@ =~= base + line@.subrange(0, q + 1));
                }
                q = q + 1;
            }
            proof {
                assert(line@.subrange(0, q as int) =~= line@);
                assert(nb.drop_last() =~= buf);
                if buf.len() == 0 {
                    assert(cur@ =~= joined(nb));
                } else {
                    assert(cur@ =~= joined(nb));
                }
                buf = nb;
            }
            has = true;
        }
        k = k + 1;
    }
    if has {
        let doc = string_from_chars(&cur);
        let ghost before = views(docs@);
        docs.push(doc);
        proof {
            assert(views(docs@) =~= before + flush(buf));
        }
    } else {
        proof {
            assert(views(docs@) =~= views(docs@) + flush(buf));
        }
    }
    docs
}

/// The string under key `field` of the JSON object that `line` holds, as
/// serde_json reads it; `None` when `line` is no JSON, is no object, lacks
/// the key or holds no string there.
pub uninterp spec fn json_string_field(line: Seq<char>, field: Seq<char>) -> Option<Seq<char>>;

/// `serde_json::from_str::<Value>`, then `Value::get(field)` and
/// `Value::as_str`: the string field `field` of the JSON in `line`.
#[verifier::external_body]
fn json_text_field(line: &str, field: &str) -> (r: Option<String>)
    ensures
        match r {
            Some(s) => json_string_field(line@, field@) == Some(s@),
            None => json_string_field(line@, field@) is None,
        },
{
    match serde_json::from_str::<serde_json::Value>(line) {
        Ok(obj) => obj.get(field).and_then(|v| v.as_str()).map(|s| s.to_string()),
        Err(_) => None,
    }
}

/// The document a JSON line gives for the string its field holds: that
/// string when it is not empty.
pub open spec fn doc_of(field: Option<Seq<char>>) -> Option<Seq<char>> {
    match field {
        Some(s) => if s.len() > 0 {
            Some(s)
        } else {
            None
        },
        None => None,
    }
}

/// The document of one JSON line, given the string that its text field
/// holds (`None` when the line is no JSON object or lacks a string there).
pub fn jsonl_doc(field: Option<String>) -> (r: Option<String>)
    ensures
        match field {
            Some(s) => doc_of(Some(s@)) == (match r {
                Some(d) => Some(d@),
                None => None,
            }),
            None => r is None,
        },
{
    match field {
        Some(s) => {
            if s.as_str().is_empty() {
                None
            } else {
                Some(s)
            }
        },
        None => None,
    }
}

/// The documents of JSON Lines `lines` from `i` on: for each line that is
/// not blank, the non-empty string under `field`.
pub open spec fn jsonl_docs(lines: Seq<Seq<char>>, field: Seq<char>, i: int) -> Seq<Seq<char>>
    decreases lines.len() - i,
{
    if i < 0 || i >= lines.len() {
        seq![]
    } else {
        let t = trimmed(lines[i]);
        (if t.len() == 0 {
            Seq::<Seq<char>>::empty()
        } else {
            match doc_of(json_string_field(t, field)) {
                Some(d) => seq![d],
                None => Seq::<Seq<char>>::empty(),
            }
        }) + jsonl_docs(lines, field, i + 1)
    }
}

/// Reads one document per JSON line: the non-empty string field
/// `text_field`; lines that are blank, not JSON or without that field are
/// skipped.
pub fn collect_jsonl(lines: &[String], text_field: &str) -> (r: Vec<String>)
    ensures
        views(r@) == jsonl_docs(views(lines@), text_field@, 0),
{
    let ghost ls = views(lines@);
    let mut docs: Vec<String> = Vec::new();
    let mut k: usize = 0;
    proof {
        assert(views(docs@) + jsonl_docs(ls, text_field@, 0) =~= jsonl_docs(ls, text_field@, 0));
    }
    while k < lines.len()
        invariant
            ls == views(lines@),
            0 <= k <= ls.len(),
            views(docs@) + jsonl_docs(ls, text_field@, k as int) == jsonl_docs(ls, text_field@, 0),
        decreases ls.len() - k,
    {
        let chars = chars_of(lines[k].as_str());
        let t = trim_chars(&chars);
        let ghost before = views(docs@);
        proof {
            assert(chars@ == ls[k as int]);
        }
        if t.len() > 0 {
            let line = string_from_chars(&t);
            match jsonl_doc(json_text_field(line.as_str(), text_field)) {
                Some(d) => {
                    docs.push(d);
                    proof {
                        assert(views(docs@) =~= before.push(d@));
                    }
                },
                None => {},
            }
        }
        proof {
            assert(views(docs@) + jsonl_docs(ls, text_field@, k + 1) =~= before + jsonl_docs(
                ls,
                text_field@,
                k as int,
            ));
        }
        k = k + 1;
    }
    proof {
        assert(views(docs@) + Seq::<Seq<char>>::empty() =~= views(docs@));
    }
    docs
}

} // verus!
