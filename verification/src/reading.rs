//! What the clean-up of the reading text keeps: the note read in place of
//! a code block, formula or table survives every step of it.

use crate::parser::{BlockKind, BlockModel};
use crate::preprocess::{
    escape_ssml, ssml_block_parts, ssml_parts, ssml_text, SSML_FOOTER, SSML_HEADER,
    block_reading, clean_text, is_mark, marker_span, reading_parts, reading_text, strip_marks,
    strip_marks_from, unescape_html, IMAGE_CLOSE, IMAGE_OPEN, PART_SEPARATOR, SKIP_CODE, SKIP_MATH,
    SKIP_TABLE,
};
use crate::rewrite::{
    collapse_blank_runs, collapse_from, find_from, image_alt, image_alt_from, lemma_newline_run,
    line_start, link_text, link_text_from, newline_run, strip_quotes, strip_quotes_from,
};
use crate::text::{is_ws, join, replace_all, trim, trim_end, trim_start};
use vstd::prelude::*;

verus! {

/// `t` stands in `s` at position `a`.
pub open spec fn contains_at(s: Seq<char>, t: Seq<char>, a: int) -> bool {
    0 <= a && a + t.len() <= s.len() && s.subrange(a, a + t.len()) == t
}

/// `s` does not hold `c`.
pub open spec fn no_char(s: Seq<char>, c: char) -> bool {
    forall|i: int| 0 <= i < s.len() ==> #[trigger] s[i] != c
}

/// A text that no step of the clean-up touches: not empty, starting with a
/// character outside ASCII, neither starting nor ending with whitespace,
/// and holding no `&`, `*`, `_`, `>`, line feed or `]`.
pub open spec fn plain_note(n: Seq<char>) -> bool {
    &&& n.len() > 0
    &&& (n[0] as u32) >= 128
    &&& !is_ws(n[0])
    &&& !is_ws(n.last())
    &&& forall|i: int|
        0 <= i < n.len() ==> #[trigger] n[i] != '&' && n[i] != '*' && n[i] != '_' && n[i] != '>'
            && n[i] != '\n' && n[i] != ']'
}

/// The note read in place of a skipped block of `kind`.
pub open spec fn note_of(kind: BlockKind) -> Seq<char> {
    match kind {
        BlockKind::Code => SKIP_CODE@,
        BlockKind::Math => SKIP_MATH@,
        _ => SKIP_TABLE@,
    }
}

/// A block that is read as a note.
pub open spec fn is_noted(kind: BlockKind) -> bool {
    kind == BlockKind::Code || kind == BlockKind::Math || kind == BlockKind::Table
}

proof fn lemma_split_at(s: Seq<char>, n: Seq<char>, a: int)
    requires
        contains_at(s, n, a),
    ensures
        s == s.take(a) + n + s.skip(a + n.len()),
{
    assert(s =~= s.take(a) + n + s.skip(a + n.len()));
}

proof fn lemma_contains_mid(x: Seq<char>, n: Seq<char>, y: Seq<char>)
    ensures
        contains_at(x + n + y, n, x.len() as int),
{
    assert((x + n + y).subrange(x.len() as int, (x.len() + n.len()) as int) =~= n);
}

// ---- entity decoding ----

proof fn lemma_replace_split(x: Seq<char>, z: Seq<char>, from: Seq<char>, to: Seq<char>)
    requires
        z.len() > 0,
        forall|j: int| 0 <= j < from.len() ==> #[trigger] from[j] != z[0],
    ensures
        replace_all(x + z, from, to) == replace_all(x, from, to) + replace_all(z, from, to),
    decreases x.len(),
{
    let s = x + z;
    if x.len() == 0 {
        assert(s =~= z);
        assert(replace_all(x, from, to) == x);
        assert(x + replace_all(z, from, to) =~= replace_all(z, from, to));
    } else if from.len() == 0 {
        assert(replace_all(x, from, to) + replace_all(z, from, to) =~= s);
    } else {
        let k = from.len() as int;
        if k <= s.len() && s.take(k) == from {
            if k > x.len() {
                assert(s.take(k)[x.len() as int] == z[0]);
                assert(from[x.len() as int] == z[0]);
            }
            assert(x.take(k) =~= s.take(k));
            assert(s.skip(k) =~= x.skip(k) + z);
            lemma_replace_split(x.skip(k), z, from, to);
            assert(to + (replace_all(x.skip(k), from, to) + replace_all(z, from, to)) =~= (to
                + replace_all(x.skip(k), from, to)) + replace_all(z, from, to));
        } else {
            if k <= x.len() {
                assert(x.take(k) =~= s.take(k));
            }
            assert(s[0] == x[0]);
            assert(s.drop_first() =~= x.drop_first() + z);
            lemma_replace_split(x.drop_first(), z, from, to);
            assert(seq![x[0]] + (replace_all(x.drop_first(), from, to) + replace_all(z, from, to))
                =~= (seq![x[0]] + replace_all(x.drop_first(), from, to)) + replace_all(z, from, to));
        }
    }
}

proof fn lemma_replace_skips(x: Seq<char>, y: Seq<char>, from: Seq<char>, to: Seq<char>)
    requires
        from.len() > 0,
        forall|i: int| 0 <= i < x.len() ==> #[trigger] x[i] != from[0],
    ensures
        replace_all(x + y, from, to) == x + replace_all(y, from, to),
    decreases x.len(),
{
    if x.len() == 0 {
        assert(x + y =~= y);
        assert(x + replace_all(y, from, to) =~= replace_all(y, from, to));
    } else {
        let xy = x + y;
        assert(xy[0] == x[0]);
        if from.len() <= xy.len() {
            assert(xy.take(from.len() as int)[0] == xy[0]);
        }
        assert(xy.drop_first() =~= x.drop_first() + y);
        assert forall|i: int| 0 <= i < x.drop_first().len() implies #[trigger] x.drop_first()[i]
            != from[0] by {
            assert(x.drop_first()[i] == x[i + 1]);
        }
        lemma_replace_skips(x.drop_first(), y, from, to);
        assert(seq![x[0]] + (x.drop_first() + replace_all(y, from, to)) =~= x + replace_all(
            y,
            from,
            to,
        ));
    }
}

proof fn lemma_replace_note(s: Seq<char>, n: Seq<char>, a: int, from: Seq<char>, to: Seq<char>)
    requires
        contains_at(s, n, a),
        plain_note(n),
        from.len() > 0,
        from[0] == '&',
        forall|j: int| 0 <= j < from.len() ==> (#[trigger] from[j] as u32) < 128,
    ensures
        contains_at(replace_all(s, from, to), n, replace_all(s.take(a), from, to).len() as int),
{
    lemma_split_at(s, n, a);
    let x = s.take(a);
    let y = s.skip(a + n.len());
    assert(x + n + y =~= x + (n + y));
    assert((n + y)[0] == n[0]);
    assert forall|j: int| 0 <= j < from.len() implies #[trigger] from[j] != (n + y)[0] by {
        assert((from[j] as u32) < 128);
    }
    lemma_replace_split(x, n + y, from, to);
    assert forall|i: int| 0 <= i < n.len() implies #[trigger] n[i] != from[0] by {}
    lemma_replace_skips(n, y, from, to);
    let rx = replace_all(x, from, to);
    assert(rx + (n + replace_all(y, from, to)) =~= rx + n + replace_all(y, from, to));
    lemma_contains_mid(rx, n, replace_all(y, from, to));
}

proof fn lemma_entities_ascii()
    ensures
        "&amp;"@.len() > 0 && "&amp;"@[0] == '&' && forall|j: int| 0 <= j < "&amp;"@.len() ==> (#[trigger] "&amp;"@[j] as u32) < 128,
        "&lt;"@.len() > 0 && "&lt;"@[0] == '&' && forall|j: int| 0 <= j < "&lt;"@.len() ==> (#[trigger] "&lt;"@[j] as u32) < 128,
        "&gt;"@.len() > 0 && "&gt;"@[0] == '&' && forall|j: int| 0 <= j < "&gt;"@.len() ==> (#[trigger] "&gt;"@[j] as u32) < 128,
        "&quot;"@.len() > 0 && "&quot;"@[0] == '&' && forall|j: int| 0 <= j < "&quot;"@.len() ==> (#[trigger] "&quot;"@[j] as u32) < 128,
        "&apos;"@.len() > 0 && "&apos;"@[0] == '&' && forall|j: int| 0 <= j < "&apos;"@.len() ==> (#[trigger] "&apos;"@[j] as u32) < 128,
        "&#39;"@.len() > 0 && "&#39;"@[0] == '&' && forall|j: int| 0 <= j < "&#39;"@.len() ==> (#[trigger] "&#39;"@[j] as u32) < 128,
        "&nbsp;"@.len() > 0 && "&nbsp;"@[0] == '&' && forall|j: int| 0 <= j < "&nbsp;"@.len() ==> (#[trigger] "&nbsp;"@[j] as u32) < 128,
        no_char("&"@, ']') && no_char("<"@, ']') && no_char(">"@, ']') && no_char("\""@, ']')
            && no_char("'"@, ']') && no_char(" "@, ']'),
{
    reveal_strlit("&amp;");
    reveal_strlit("&lt;");
    reveal_strlit("&gt;");
    reveal_strlit("&quot;");
    reveal_strlit("&apos;");
    reveal_strlit("&#39;");
    reveal_strlit("&nbsp;");
    reveal_strlit("&");
    reveal_strlit("<");
    reveal_strlit(">");
    reveal_strlit("\"");
    reveal_strlit("'");
    reveal_strlit(" ");
}

proof fn lemma_replace_no_char(s: Seq<char>, from: Seq<char>, to: Seq<char>, c: char)
    requires
        no_char(s, c),
        no_char(to, c),
    ensures
        no_char(replace_all(s, from, to), c),
    decreases s.len(),
{
    if from.len() > 0 && s.len() > 0 {
        let k = from.len() as int;
        if k <= s.len() && s.take(k) == from {
            assert forall|i: int| 0 <= i < s.skip(k).len() implies #[trigger] s.skip(k)[i] != c by {
                assert(s.skip(k)[i] == s[i + k]);
            }
            lemma_replace_no_char(s.skip(k), from, to, c);
            let r = to + replace_all(s.skip(k), from, to);
            assert forall|i: int| 0 <= i < r.len() implies #[trigger] r[i] != c by {
                if i >= to.len() {
                    assert(r[i] == replace_all(s.skip(k), from, to)[i - to.len()]);
                }
            }
        } else {
            assert forall|i: int| 0 <= i < s.drop_first().len() implies #[trigger] s.drop_first()[i]
                != c by {
                assert(s.drop_first()[i] == s[i + 1]);
            }
            lemma_replace_no_char(s.drop_first(), from, to, c);
            let r = seq![s[0]] + replace_all(s.drop_first(), from, to);
            assert forall|i: int| 0 <= i < r.len() implies #[trigger] r[i] != c by {
                if i >= 1 {
                    assert(r[i] == replace_all(s.drop_first(), from, to)[i - 1]);
                }
            }
        }
    }
}

proof fn lemma_unescape_note(s: Seq<char>, n: Seq<char>, a: int)
    requires
        contains_at(s, n, a),
        plain_note(n),
        no_char(s, ']'),
    ensures
        exists|b: int| contains_at(unescape_html(s), n, b),
        no_char(unescape_html(s), ']'),
{
    lemma_entities_ascii();
    let s1 = replace_all(s, "&amp;"@, "&"@);
    lemma_replace_note(s, n, a, "&amp;"@, "&"@);
    lemma_replace_no_char(s, "&amp;"@, "&"@, ']');
    let a1 = replace_all(s.take(a), "&amp;"@, "&"@).len() as int;
    let s2 = replace_all(s1, "&lt;"@, "<"@);
    lemma_replace_note(s1, n, a1, "&lt;"@, "<"@);
    lemma_replace_no_char(s1, "&lt;"@, "<"@, ']');
    let a2 = replace_all(s1.take(a1), "&lt;"@, "<"@).len() as int;
    let s3 = replace_all(s2, "&gt;"@, ">"@);
    lemma_replace_note(s2, n, a2, "&gt;"@, ">"@);
    lemma_replace_no_char(s2, "&gt;"@, ">"@, ']');
    let a3 = replace_all(s2.take(a2), "&gt;"@, ">"@).len() as int;
    let s4 = replace_all(s3, "&quot;"@, "\""@);
    lemma_replace_note(s3, n, a3, "&quot;"@, "\""@);
    lemma_replace_no_char(s3, "&quot;"@, "\""@, ']');
    let a4 = replace_all(s3.take(a3), "&quot;"@, "\""@).len() as int;
    let s5 = replace_all(s4, "&apos;"@, "'"@);
    lemma_replace_note(s4, n, a4, "&apos;"@, "'"@);
    lemma_replace_no_char(s4, "&apos;"@, "'"@, ']');
    let a5 = replace_all(s4.take(a4), "&apos;"@, "'"@).len() as int;
    let s6 = replace_all(s5, "&#39;"@, "'"@);
    lemma_replace_note(s5, n, a5, "&#39;"@, "'"@);
    lemma_replace_no_char(s5, "&#39;"@, "'"@, ']');
    let a6 = replace_all(s5.take(a5), "&#39;"@, "'"@).len() as int;
    lemma_replace_note(s6, n, a6, "&nbsp;"@, " "@);
    lemma_replace_no_char(s6, "&nbsp;"@, " "@, ']');
    let a7 = replace_all(s6.take(a6), "&nbsp;"@, " "@).len() as int;
    assert(contains_at(unescape_html(s), n, a7));
}


// ---- emphasis markers ----

/// What dropping emphasis markers makes of `s[i..a]`, where no marker span
/// crosses `a`.
pub open spec fn marks_head(s: Seq<char>, i: int, a: int) -> Seq<char>
    decreases a - i,
{
    if i >= a || i < 0 || i >= s.len() {
        seq![]
    } else if marker_span(s, i) > 0 && i + marker_span(s, i) <= a {
        marks_head(s, i + marker_span(s, i), a)
    } else {
        seq![s[i]] + marks_head(s, i + 1, a)
    }
}

proof fn lemma_marks_head(s: Seq<char>, i: int, a: int)
    requires
        0 <= i <= a < s.len(),
        !is_mark(s[a]),
    ensures
        strip_marks_from(s, i) == marks_head(s, i, a) + strip_marks_from(s, a),
    decreases a - i,
{
    if i == a {
        assert(marks_head(s, i, a) + strip_marks_from(s, a) =~= strip_marks_from(s, a));
    } else {
        let k = marker_span(s, i);
        if k > 0 {
            assert(is_mark(s[i]));
            assert(k == 1 || (k == 2 && i + 1 < s.len() && s[i + 1] == s[i]));
            lemma_marks_head(s, i + k, a);
        } else {
            lemma_marks_head(s, i + 1, a);
            assert(seq![s[i]] + (marks_head(s, i + 1, a) + strip_marks_from(s, a)) =~= (seq![s[i]]
                + marks_head(s, i + 1, a)) + strip_marks_from(s, a));
        }
    }
}

proof fn lemma_marks_body(s: Seq<char>, n: Seq<char>, a: int, j: int)
    requires
        contains_at(s, n, a),
        plain_note(n),
        0 <= j <= n.len(),
    ensures
        strip_marks_from(s, a + j) == n.skip(j) + strip_marks_from(s, a + n.len()),
    decreases n.len() - j,
{
    if j == n.len() {
        assert(n.skip(j) + strip_marks_from(s, a + n.len()) =~= strip_marks_from(s, a + n.len()));
    } else {
        assert(s[a + j] == s.subrange(a, a + n.len())[j]);
        assert(s[a + j] == n[j]);
        assert(marker_span(s, a + j) == 0);
        lemma_marks_body(s, n, a, j + 1);
        assert(seq![n[j]] + (n.skip(j + 1) + strip_marks_from(s, a + n.len())) =~= n.skip(j)
            + strip_marks_from(s, a + n.len()));
    }
}

proof fn lemma_marks_no_char(s: Seq<char>, i: int, c: char)
    requires
        no_char(s, c),
    ensures
        no_char(strip_marks_from(s, i), c),
    decreases s.len() - i,
{
    if 0 <= i < s.len() {
        if marker_span(s, i) > 0 {
            lemma_marks_no_char(s, i + marker_span(s, i), c);
        } else {
            lemma_marks_no_char(s, i + 1, c);
            let r = seq![s[i]] + strip_marks_from(s, i + 1);
            assert forall|k: int| 0 <= k < r.len() implies #[trigger] r[k] != c by {
                if k >= 1 {
                    assert(r[k] == strip_marks_from(s, i + 1)[k - 1]);
                }
            }
        }
    }
}

proof fn lemma_marks_note(s: Seq<char>, n: Seq<char>, a: int)
    requires
        contains_at(s, n, a),
        plain_note(n),
        no_char(s, ']'),
    ensures
        exists|b: int| contains_at(strip_marks(s), n, b),
        no_char(strip_marks(s), ']'),
{
    assert(s[a] == s.subrange(a, a + n.len())[0]);
    lemma_marks_head(s, 0, a);
    lemma_marks_body(s, n, a, 0);
    assert(n.skip(0) =~= n);
    let h = marks_head(s, 0, a);
    let t = strip_marks_from(s, a + n.len());
    assert(strip_marks(s) == h + (n + t));
    assert(h + (n + t) =~= h + n + t);
    lemma_contains_mid(h, n, t);
    lemma_marks_no_char(s, 0, ']');
}

// ---- quote markers ----

/// How many characters the quote marker at `i` spans, or 0.
pub open spec fn quote_span(s: Seq<char>, i: int) -> int {
    if line_start(s, i) && s[i] == '>' {
        if i + 1 < s.len() && is_ws(s[i + 1]) {
            2
        } else {
            1
        }
    } else {
        0
    }
}

/// What dropping quote markers makes of `s[i..a]`.
pub open spec fn quotes_head(s: Seq<char>, i: int, a: int) -> Seq<char>
    decreases a - i,
{
    if i >= a || i < 0 || i >= s.len() {
        seq![]
    } else if quote_span(s, i) > 0 && i + quote_span(s, i) <= a {
        quotes_head(s, i + quote_span(s, i), a)
    } else {
        seq![s[i]] + quotes_head(s, i + 1, a)
    }
}

proof fn lemma_quotes_step(s: Seq<char>, i: int)
    requires
        0 <= i < s.len(),
    ensures
        strip_quotes_from(s, i) == if quote_span(s, i) > 0 {
            strip_quotes_from(s, i + quote_span(s, i))
        } else {
            seq![s[i]] + strip_quotes_from(s, i + 1)
        },
{
}

proof fn lemma_quotes_head(s: Seq<char>, i: int, a: int)
    requires
        0 <= i <= a < s.len(),
        !is_ws(s[a]),
    ensures
        strip_quotes_from(s, i) == quotes_head(s, i, a) + strip_quotes_from(s, a),
    decreases a - i,
{
    if i == a {
        assert(quotes_head(s, i, a) + strip_quotes_from(s, a) =~= strip_quotes_from(s, a));
    } else {
        lemma_quotes_step(s, i);
        let k = quote_span(s, i);
        if k > 0 {
            lemma_quotes_head(s, i + k, a);
        } else {
            lemma_quotes_head(s, i + 1, a);
            assert(seq![s[i]] + (quotes_head(s, i + 1, a) + strip_quotes_from(s, a)) =~= (seq![s[i]]
                + quotes_head(s, i + 1, a)) + strip_quotes_from(s, a));
        }
    }
}

proof fn lemma_quotes_body(s: Seq<char>, n: Seq<char>, a: int, j: int)
    requires
        contains_at(s, n, a),
        plain_note(n),
        0 <= j <= n.len(),
    ensures
        strip_quotes_from(s, a + j) == n.skip(j) + strip_quotes_from(s, a + n.len()),
    decreases n.len() - j,
{
    if j == n.len() {
        assert(n.skip(j) + strip_quotes_from(s, a + n.len()) =~= strip_quotes_from(s, a + n.len()));
    } else {
        assert(s[a + j] == s.subrange(a, a + n.len())[j]);
        lemma_quotes_step(s, a + j);
        lemma_quotes_body(s, n, a, j + 1);
        assert(seq![n[j]] + (n.skip(j + 1) + strip_quotes_from(s, a + n.len())) =~= n.skip(j)
            + strip_quotes_from(s, a + n.len()));
    }
}

proof fn lemma_quotes_no_char(s: Seq<char>, i: int, c: char)
    requires
        no_char(s, c),
        0 <= i,
    ensures
        no_char(strip_quotes_from(s, i), c),
    decreases s.len() - i,
{
    if i < s.len() {
        lemma_quotes_step(s, i);
        if quote_span(s, i) > 0 {
            lemma_quotes_no_char(s, i + quote_span(s, i), c);
        } else {
            lemma_quotes_no_char(s, i + 1, c);
            let r = seq![s[i]] + strip_quotes_from(s, i + 1);
            assert forall|k: int| 0 <= k < r.len() implies #[trigger] r[k] != c by {
                if k >= 1 {
                    assert(r[k] == strip_quotes_from(s, i + 1)[k - 1]);
                }
            }
        }
    }
}

proof fn lemma_quotes_note(s: Seq<char>, n: Seq<char>, a: int)
    requires
        contains_at(s, n, a),
        plain_note(n),
        no_char(s, ']'),
    ensures
        exists|b: int| contains_at(strip_quotes(s), n, b),
        no_char(strip_quotes(s), ']'),
{
    assert(s[a] == s.subrange(a, a + n.len())[0]);
    lemma_quotes_head(s, 0, a);
    lemma_quotes_body(s, n, a, 0);
    assert(n.skip(0) =~= n);
    let h = quotes_head(s, 0, a);
    let t = strip_quotes_from(s, a + n.len());
    assert(strip_quotes(s) == h + (n + t));
    assert(h + (n + t) =~= h + n + t);
    lemma_contains_mid(h, n, t);
    lemma_quotes_no_char(s, 0, ']');
}

// ---- links and images ----

proof fn lemma_find_none(s: Seq<char>, c: char, i: int)
    requires
        no_char(s, c),
    ensures
        find_from(s, c, i) == s.len(),
    decreases s.len() - i,
{
    if 0 <= i < s.len() {
        lemma_find_none(s, c, i + 1);
    }
}

proof fn lemma_links_identity(s: Seq<char>, i: int)
    requires
        no_char(s, ']'),
        0 <= i <= s.len(),
    ensures
        link_text_from(s, i) == s.skip(i),
        image_alt_from(s, i) == s.skip(i),
    decreases s.len() - i,
{
    if i == s.len() {
        assert(s.skip(i) =~= Seq::<char>::empty());
    } else {
        lemma_find_none(s, ']', i + 1);
        lemma_find_none(s, ']', i + 2);
        lemma_links_identity(s, i + 1);
        assert(s.skip(i) =~= seq![s[i]] + s.skip(i + 1));
    }
}

// ---- runs of line feeds ----

/// What collapsing runs of line feeds makes of `s[i..a]`.
pub open spec fn collapse_head(s: Seq<char>, i: int, a: int) -> Seq<char>
    decreases a - i,
{
    if i >= a || i < 0 || i >= s.len() {
        seq![]
    } else if s[i] == '\n' && newline_run(s, i) >= 1 && i + newline_run(s, i) <= a {
        let k = newline_run(s, i);
        (if k >= 3 {
            seq!['\n', '\n']
        } else {
            s.subrange(i, i + k)
        }) + collapse_head(s, i + k, a)
    } else {
        seq![s[i]] + collapse_head(s, i + 1, a)
    }
}

proof fn lemma_collapse_head(s: Seq<char>, i: int, a: int)
    requires
        0 <= i <= a < s.len(),
        s[a] != '\n',
    ensures
        collapse_from(s, i) == collapse_head(s, i, a) + collapse_from(s, a),
    decreases a - i,
{
    if i == a {
        assert(collapse_head(s, i, a) + collapse_from(s, a) =~= collapse_from(s, a));
    } else {
        lemma_newline_run(s, i);
        let k = newline_run(s, i);
        if s[i] == '\n' && k >= 1 && i + k <= s.len() {
            if i + k > a {
                assert(s[a] == '\n');
            }
            lemma_collapse_head(s, i + k, a);
            let piece = if k >= 3 {
                seq!['\n', '\n']
            } else {
                s.subrange(i, i + k)
            };
            assert(piece + (collapse_head(s, i + k, a) + collapse_from(s, a)) =~= (piece
                + collapse_head(s, i + k, a)) + collapse_from(s, a));
        } else {
            lemma_collapse_head(s, i + 1, a);
            assert(seq![s[i]] + (collapse_head(s, i + 1, a) + collapse_from(s, a)) =~= (seq![s[i]]
                + collapse_head(s, i + 1, a)) + collapse_from(s, a));
        }
    }
}

proof fn lemma_collapse_body(s: Seq<char>, n: Seq<char>, a: int, j: int)
    requires
        contains_at(s, n, a),
        plain_note(n),
        0 <= j <= n.len(),
    ensures
        collapse_from(s, a + j) == n.skip(j) + collapse_from(s, a + n.len()),
    decreases n.len() - j,
{
    if j == n.len() {
        assert(n.skip(j) + collapse_from(s, a + n.len()) =~= collapse_from(s, a + n.len()));
    } else {
        assert(s[a + j] == s.subrange(a, a + n.len())[j]);
        lemma_collapse_body(s, n, a, j + 1);
        assert(seq![n[j]] + (n.skip(j + 1) + collapse_from(s, a + n.len())) =~= n.skip(j)
            + collapse_from(s, a + n.len()));
    }
}

proof fn lemma_collapse_note(s: Seq<char>, n: Seq<char>, a: int)
    requires
        contains_at(s, n, a),
        plain_note(n),
    ensures
        exists|b: int| contains_at(collapse_blank_runs(s), n, b),
{
    assert(s[a] == s.subrange(a, a + n.len())[0]);
    lemma_collapse_head(s, 0, a);
    lemma_collapse_body(s, n, a, 0);
    assert(n.skip(0) =~= n);
    let h = collapse_head(s, 0, a);
    let t = collapse_from(s, a + n.len());
    assert(collapse_blank_runs(s) == h + (n + t));
    assert(h + (n + t) =~= h + n + t);
    lemma_contains_mid(h, n, t);
}

// ---- trimming ----

proof fn lemma_trim_start_before(p: Seq<char>, z: Seq<char>)
    requires
        z.len() > 0,
        !is_ws(z[0]),
    ensures
        trim_start(p + z) == trim_start(p) + z,
    decreases p.len(),
{
    if p.len() == 0 {
        assert(p + z =~= z);
        assert(trim_start(z) == z);
        assert(trim_start(p) + z =~= z);
    } else if is_ws(p[0]) {
        assert((p + z).drop_first() =~= p.drop_first() + z);
        lemma_trim_start_before(p.drop_first(), z);
    } else {
        assert((p + z)[0] == p[0]);
    }
}

proof fn lemma_trim_end_after(w: Seq<char>, q: Seq<char>)
    requires
        w.len() > 0,
        !is_ws(w.last()),
    ensures
        trim_end(w + q) == w + trim_end(q),
    decreases q.len(),
{
    if q.len() == 0 {
        assert(w + q =~= w);
        assert(trim_end(w) == w);
        assert(w + trim_end(q) =~= w);
    } else if is_ws(q.last()) {
        assert((w + q).drop_last() =~= w + q.drop_last());
        assert((w + q).last() == q.last());
        lemma_trim_end_after(w, q.drop_last());
    } else {
        assert((w + q).last() == q.last());
    }
}

proof fn lemma_trim_note(s: Seq<char>, n: Seq<char>, a: int)
    requires
        contains_at(s, n, a),
        plain_note(n),
    ensures
        exists|b: int| contains_at(trim(s), n, b),
{
    let x = s.take(a);
    let y = s.skip(a + n.len());
    let z = n + y;
    assert(s =~= x + z);
    assert(z[0] == n[0]);
    lemma_trim_start_before(x, z);
    let w = trim_start(x) + n;
    assert(trim_start(x) + z =~= w + y);
    assert(w.last() == n.last());
    lemma_trim_end_after(w, y);
    assert(trim(s) == w + trim_end(y));
    lemma_contains_mid(trim_start(x), n, trim_end(y));
    assert(trim_start(x) + n + trim_end(y) == w + trim_end(y));
}

// ---- the whole clean-up ----

proof fn lemma_clean_note(s: Seq<char>, n: Seq<char>, a: int)
    requires
        contains_at(s, n, a),
        plain_note(n),
        no_char(s, ']'),
    ensures
        exists|b: int| contains_at(clean_text(s), n, b),
{
    lemma_unescape_note(s, n, a);
    let s1 = unescape_html(s);
    let a1 = choose|b: int| contains_at(s1, n, b);
    lemma_marks_note(s1, n, a1);
    let s2 = strip_marks(s1);
    let a2 = choose|b: int| contains_at(s2, n, b);
    lemma_quotes_note(s2, n, a2);
    let s3 = strip_quotes(s2);
    let a3 = choose|b: int| contains_at(s3, n, b);
    lemma_links_identity(s3, 0);
    assert(s3.skip(0) =~= s3);
    let s4 = link_text(s3);
    assert(s4 == s3);
    let s5 = image_alt(s4);
    assert(s5 == s3);
    lemma_collapse_note(s5, n, a3);
    let s6 = collapse_blank_runs(s5);
    let a6 = choose|b: int| contains_at(s6, n, b);
    lemma_trim_note(s6, n, a6);
    let b = choose|b: int| contains_at(trim(s6), n, b);
    assert(clean_text(s) == trim(s6));
    assert(contains_at(clean_text(s), n, b));
}


// ---- the reading text ----

proof fn lemma_join_contains(parts: Seq<Seq<char>>, sep: Seq<char>, i: int)
    requires
        0 <= i < parts.len(),
    ensures
        exists|a: int| contains_at(join(parts, sep), parts[i], a),
    decreases parts.len(),
{
    if parts.len() == 1 {
        assert(join(parts, sep) == parts[0]);
        assert(contains_at(join(parts, sep), parts[i], 0)) by {
            assert(parts[0].subrange(0, parts[0].len() as int) =~= parts[0]);
        }
    } else {
        let dl = parts.drop_last();
        let j = join(dl, sep);
        assert(join(parts, sep) == j + sep + parts.last());
        if i == parts.len() - 1 {
            lemma_contains_mid(j + sep, parts.last(), Seq::<char>::empty());
            assert(j + sep + parts.last() + Seq::<char>::empty() =~= j + sep + parts.last());
            assert(contains_at(join(parts, sep), parts[i], (j + sep).len() as int));
        } else {
            lemma_join_contains(dl, sep, i);
            assert(dl[i] == parts[i]);
            let a = choose|a: int| contains_at(j, dl[i], a);
            let whole = j + sep + parts.last();
            assert(whole.subrange(a, a + parts[i].len()) =~= j.subrange(a, a + parts[i].len()));
            assert(contains_at(join(parts, sep), parts[i], a));
        }
    }
}

proof fn lemma_join_no_char(parts: Seq<Seq<char>>, sep: Seq<char>, c: char)
    requires
        forall|i: int| 0 <= i < parts.len() ==> no_char(#[trigger] parts[i], c),
        no_char(sep, c),
    ensures
        no_char(join(parts, sep), c),
    decreases parts.len(),
{
    if parts.len() == 1 {
        assert(no_char(parts[0], c));
    } else if parts.len() > 1 {
        let dl = parts.drop_last();
        assert forall|i: int| 0 <= i < dl.len() implies no_char(#[trigger] dl[i], c) by {
            assert(dl[i] == parts[i]);
        }
        lemma_join_no_char(dl, sep, c);
        let j = join(dl, sep);
        let l = parts.last();
        assert(no_char(parts[parts.len() - 1], c));
        let w = j + sep + l;
        assert forall|k: int| 0 <= k < w.len() implies #[trigger] w[k] != c by {
            if k < j.len() {
                assert(w[k] == j[k]);
            } else if k < j.len() + sep.len() {
                assert(w[k] == sep[k - j.len()]);
            } else {
                assert(w[k] == l[k - j.len() - sep.len()]);
            }
        }
    }
}

proof fn lemma_trim_no_char(s: Seq<char>, c: char)
    requires
        no_char(s, c),
    ensures
        no_char(trim_start(s), c),
        no_char(trim(s), c),
    decreases s.len(),
{
    if s.len() > 0 && is_ws(s[0]) {
        assert forall|k: int| 0 <= k < s.drop_first().len() implies #[trigger] s.drop_first()[k]
            != c by {
            assert(s.drop_first()[k] == s[k + 1]);
        }
        lemma_trim_no_char(s.drop_first(), c);
    }
    lemma_trim_end_no_char(trim_start(s), c);
}

proof fn lemma_trim_end_no_char(s: Seq<char>, c: char)
    requires
        no_char(s, c),
    ensures
        no_char(trim_end(s), c),
    decreases s.len(),
{
    if s.len() > 0 && is_ws(s.last()) {
        assert forall|k: int| 0 <= k < s.drop_last().len() implies #[trigger] s.drop_last()[k]
            != c by {
            assert(s.drop_last()[k] == s[k]);
        }
        lemma_trim_end_no_char(s.drop_last(), c);
    }
}

proof fn lemma_fixed_texts()
    ensures
        plain_note(SKIP_CODE@),
        plain_note(SKIP_MATH@),
        plain_note(SKIP_TABLE@),
        no_char(IMAGE_OPEN@, ']'),
        no_char(IMAGE_CLOSE@, ']'),
        no_char(PART_SEPARATOR@, ']'),
{
    reveal_strlit("（这里有一段代码，已跳过）");
    reveal_strlit("（这里有一个数学公式，已跳过）");
    reveal_strlit("（这里有一个表格，已跳过）");
    reveal_strlit("（图片：");
    reveal_strlit("）");
    reveal_strlit("\n\n");
}

proof fn lemma_reading_parts(blocks: Seq<BlockModel>, j: int)
    requires
        0 <= j < blocks.len(),
        is_noted(blocks[j].kind),
        forall|k: int| 0 <= k < blocks.len() ==> no_char(#[trigger] blocks[k].content, ']'),
    ensures
        exists|i: int|
            0 <= i < reading_parts(blocks).len() && #[trigger] reading_parts(blocks)[i] == note_of(
                blocks[j].kind,
            ),
        forall|i: int| 0 <= i < reading_parts(blocks).len() ==> no_char(#[trigger] reading_parts(blocks)[i], ']'),
    decreases blocks.len(),
{
    lemma_fixed_texts();
    let dl = blocks.drop_last();
    let b = blocks.last();
    let a = reading_parts(dl);
    let e: Seq<Seq<char>> = match block_reading(b) {
        Some(t) => seq![t],
        None => seq![],
    };
    assert(reading_parts(blocks) == a + e);
    assert(blocks[blocks.len() - 1] == b);
    assert(no_char(b.content, ']'));
    lemma_trim_no_char(b.content, ']');
    let tc = trim(b.content);
    let img = IMAGE_OPEN@ + tc + IMAGE_CLOSE@;
    assert forall|k: int| 0 <= k < img.len() implies #[trigger] img[k] != ']' by {
        if k < IMAGE_OPEN@.len() {
            assert(img[k] == IMAGE_OPEN@[k]);
        } else if k < IMAGE_OPEN@.len() + tc.len() {
            assert(img[k] == tc[k - IMAGE_OPEN@.len()]);
        } else {
            assert(img[k] == IMAGE_CLOSE@[k - IMAGE_OPEN@.len() - tc.len()]);
        }
    }
    assert forall|i: int| 0 <= i < e.len() implies no_char(#[trigger] e[i], ']') by {}
    if j == blocks.len() - 1 {
        assert(e.len() == 1 && e[0] == note_of(b.kind));
        assert((a + e)[a.len() as int] == e[0]);
    } else {
        assert(dl[j] == blocks[j]);
    }
    if dl.len() > 0 && j < blocks.len() - 1 {
        assert forall|k: int| 0 <= k < dl.len() implies no_char(#[trigger] dl[k].content, ']') by {
            assert(dl[k] == blocks[k]);
        }
        lemma_reading_parts(dl, j);
        let i = choose|i: int| 0 <= i < a.len() && #[trigger] a[i] == note_of(dl[j].kind);
        assert((a + e)[i] == a[i]);
    }
    if dl.len() > 0 {
        lemma_parts_no_char(dl);
    }
    assert forall|i: int| 0 <= i < (a + e).len() implies no_char(#[trigger] (a + e)[i], ']') by {
        if i < a.len() {
            assert((a + e)[i] == a[i]);
        } else {
            assert((a + e)[i] == e[i - a.len()]);
        }
    }
}

proof fn lemma_parts_no_char(blocks: Seq<BlockModel>)
    requires
        forall|k: int| 0 <= k < blocks.len() ==> no_char(#[trigger] blocks[k].content, ']'),
    ensures
        forall|i: int| 0 <= i < reading_parts(blocks).len() ==> no_char(#[trigger] reading_parts(blocks)[i], ']'),
    decreases blocks.len(),
{
    if blocks.len() > 0 {
        lemma_fixed_texts();
        let dl = blocks.drop_last();
        assert forall|k: int| 0 <= k < dl.len() implies no_char(#[trigger] dl[k].content, ']') by {
            assert(dl[k] == blocks[k]);
        }
        lemma_parts_no_char(dl);
        let b = blocks.last();
        let a = reading_parts(dl);
        let e: Seq<Seq<char>> = match block_reading(b) {
            Some(t) => seq![t],
            None => seq![],
        };
        assert(reading_parts(blocks) == a + e);
        assert(blocks[blocks.len() - 1] == b);
        lemma_trim_no_char(b.content, ']');
        let tc = trim(b.content);
        let img = IMAGE_OPEN@ + tc + IMAGE_CLOSE@;
        assert forall|k: int| 0 <= k < img.len() implies #[trigger] img[k] != ']' by {
            if k < IMAGE_OPEN@.len() {
                assert(img[k] == IMAGE_OPEN@[k]);
            } else if k < IMAGE_OPEN@.len() + tc.len() {
                assert(img[k] == tc[k - IMAGE_OPEN@.len()]);
            } else {
                assert(img[k] == IMAGE_CLOSE@[k - IMAGE_OPEN@.len() - tc.len()]);
            }
        }
        assert forall|i: int| 0 <= i < (a + e).len() implies no_char(#[trigger] (a + e)[i], ']') by {
            if i < a.len() {
                assert((a + e)[i] == a[i]);
            } else {
                assert((a + e)[i] == e[i - a.len()]);
            }
        }
    }
}

/// Where an article has a code block, a formula or a table, and no block's
/// text holds a `]` (which could open a link that swallows the note), its
/// reading text holds the note read in place of that block.
pub proof fn law_reading_text_keeps_notes(blocks: Seq<BlockModel>, j: int)
    requires
        0 <= j < blocks.len(),
        is_noted(blocks[j].kind),
        forall|k: int| 0 <= k < blocks.len() ==> no_char(#[trigger] blocks[k].content, ']'),
    ensures
        exists|b: int| contains_at(reading_text(blocks), note_of(blocks[j].kind), b),
{
    lemma_fixed_texts();
    lemma_reading_parts(blocks, j);
    let parts = reading_parts(blocks);
    let n = note_of(blocks[j].kind);
    let i = choose|i: int| 0 <= i < parts.len() && #[trigger] parts[i] == n;
    lemma_join_contains(parts, PART_SEPARATOR@, i);
    lemma_join_no_char(parts, PART_SEPARATOR@, ']');
    let s = join(parts, PART_SEPARATOR@);
    let a = choose|a: int| contains_at(s, parts[i], a);
    lemma_clean_note(s, n, a);
    let b = choose|b: int| contains_at(clean_text(s), n, b);
    assert(reading_text(blocks) == clean_text(s));
    assert(contains_at(reading_text(blocks), n, b));
}


// ---- the SSML document reads what the reading text reads ----

proof fn lemma_block_part(b: BlockModel)
    requires
        block_reading(b) is Some,
    ensures
        exists|k: int|
            0 <= k < ssml_block_parts(b).len() && #[trigger] ssml_block_parts(b)[k] == escape_ssml(
                block_reading(b)->0,
            ),
{
    let parts = ssml_block_parts(b);
    let t = block_reading(b)->0;
    match b.kind {
        BlockKind::Heading => {
            assert(parts[1] == escape_ssml(t));
        },
        _ => {
            assert(parts[0] == escape_ssml(t));
        },
    }
}

proof fn lemma_ssml_parts_hold(blocks: Seq<BlockModel>, j: int)
    requires
        0 <= j < blocks.len(),
        block_reading(blocks[j]) is Some,
    ensures
        exists|i: int|
            0 <= i < ssml_parts(blocks).len() && #[trigger] ssml_parts(blocks)[i] == escape_ssml(
                block_reading(blocks[j])->0,
            ),
    decreases blocks.len(),
{
    let dl = blocks.drop_last();
    let a = ssml_parts(dl);
    let e = ssml_block_parts(blocks.last());
    assert(ssml_parts(blocks) == a + e);
    let target = escape_ssml(block_reading(blocks[j])->0);
    if j == blocks.len() - 1 {
        assert(blocks[j] == blocks.last());
        lemma_block_part(blocks.last());
        let k = choose|k: int| 0 <= k < e.len() && #[trigger] e[k] == target;
        assert((a + e)[a.len() + k] == e[k]);
    } else {
        assert(dl[j] == blocks[j]);
        lemma_ssml_parts_hold(dl, j);
        let i = choose|i: int| 0 <= i < a.len() && #[trigger] a[i] == target;
        assert((a + e)[i] == a[i]);
    }
}

/// The SSML document reads everything that the plain reading reads: for
/// each block that contributes to the reading text (a text or heading that
/// is not blank, the note of a code block, formula or table, an image's
/// alternative text in brackets), the SSML document holds that same
/// contribution, escaped for XML.
pub proof fn law_ssml_reads_every_block(blocks: Seq<BlockModel>, j: int)
    requires
        0 <= j < blocks.len(),
        block_reading(blocks[j]) is Some,
    ensures
        exists|b: int| contains_at(ssml_text(blocks), escape_ssml(block_reading(blocks[j])->0), b),
{
    let parts = ssml_parts(blocks);
    let t = escape_ssml(block_reading(blocks[j])->0);
    lemma_ssml_parts_hold(blocks, j);
    let i = choose|i: int| 0 <= i < parts.len() && #[trigger] parts[i] == t;
    lemma_join_contains(parts, "\n"@, i);
    let jn = join(parts, "\n"@);
    let a = choose|a: int| contains_at(jn, parts[i], a);
    let pre = SSML_HEADER@ + "\n"@;
    let whole = pre + jn + "\n"@ + SSML_FOOTER@;
    assert(ssml_text(blocks) == whole);
    assert(whole.subrange(pre.len() + a, pre.len() + a + t.len()) =~= jn.subrange(a, a + t.len()));
    assert(contains_at(whole, t, pre.len() + a));
}


/// An image with alternative text is read in the SSML document as
/// "（图片：" and its trimmed alternative text and "）", escaped for XML.
pub proof fn law_ssml_reads_image_alt(blocks: Seq<BlockModel>, j: int)
    requires
        0 <= j < blocks.len(),
        blocks[j].kind == BlockKind::Image,
        trim(blocks[j].content).len() > 0,
    ensures
        exists|b: int|
            contains_at(
                ssml_text(blocks),
                escape_ssml("（图片："@ + trim(blocks[j].content) + "）"@),
                b,
            ),
{
    law_ssml_reads_every_block(blocks, j);
}

} // verus!
