//! The pattern rewrites that the text preparation hands to the `regex`
//! crate, and what each of them does to a text.

use crate::text::{is_ws, trim, trim_end, trim_start};
use vstd::prelude::*;

verus! {

/// Block-quote markers: a `>` at the start of a line and at most one
/// whitespace character after it.
pub const QUOTE_PATTERN: &'static str = r"(?m)^>\s?";

/// Links `[text](target)`.
pub const LINK_PATTERN: &'static str = r"\[([^\]]+)\]\([^)]+\)";

/// Images `![alt](target)`.
pub const IMAGE_PATTERN: &'static str = r"!\[([^\]]*)\]\([^)]+\)";

/// Runs of three or more line feeds.
pub const BLANK_RUN_PATTERN: &'static str = r"\n{3,}";

/// Characters that cannot stand in a file name: all but word characters,
/// CJK unified ideographs and `-`.
pub const NAME_FILTER_PATTERN: &'static str = r"[^\w\u{4e00}-\u{9fff}\-]";

/// What `Regex::new(pattern)` followed by `replace_all(text, rep)` returns.
pub uninterp spec fn regex_replaced(pattern: Seq<char>, text: Seq<char>, rep: Seq<char>) -> Seq<
    char,
>;

/// What `regex_syntax::is_word_character(c)` returns: membership of `c` in
/// the Unicode class `\w` (Alphabetic, Join_Control, Decimal_Number, Mark,
/// Connector_Punctuation).
pub uninterp spec fn unicode_word_char(c: char) -> bool;

/// Position `i` of `s` starts a line: it is the start of `s` or follows a
/// line feed.
pub open spec fn line_start(s: Seq<char>, i: int) -> bool {
    i == 0 || (0 < i <= s.len() && s[i - 1] == '\n')
}

/// `s[i..]` with every quote marker removed: a `>` at the start of a line
/// of `s`, with the whitespace character after it if there is one.
pub open spec fn strip_quotes_from(s: Seq<char>, i: int) -> Seq<char>
    decreases s.len() - i,
{
    if i < 0 || i >= s.len() {
        seq![]
    } else if line_start(s, i) && s[i] == '>' {
        if i + 1 < s.len() && is_ws(s[i + 1]) {
            strip_quotes_from(s, i + 2)
        } else {
            strip_quotes_from(s, i + 1)
        }
    } else {
        seq![s[i]] + strip_quotes_from(s, i + 1)
    }
}

/// `s` with its quote markers removed.
pub open spec fn strip_quotes(s: Seq<char>) -> Seq<char> {
    strip_quotes_from(s, 0)
}

/// The first position at or after `i` where `s` holds `c`, or the length
/// of `s` where there is none.
pub open spec fn find_from(s: Seq<char>, c: char, i: int) -> int
    decreases s.len() - i,
{
    if i < 0 || i >= s.len() {
        s.len() as int
    } else if s[i] == c {
        i
    } else {
        find_from(s, c, i + 1)
    }
}

/// `s[i..]` with every link `[text](target)` replaced by its text, where
/// the text is not empty and holds no `]`, and the target is not empty and
/// holds no `)`; links are taken from left to right.
pub open spec fn link_text_from(s: Seq<char>, i: int) -> Seq<char>
    decreases s.len() - i,
{
    if i < 0 || i >= s.len() {
        seq![]
    } else {
        let j = find_from(s, ']', i + 1);
        let k = find_from(s, ')', j + 2);
        if s[i] == '[' && i + 1 < j && j + 1 < s.len() && s[j + 1] == '(' && j + 2 < k < s.len() {
            s.subrange(i + 1, j) + link_text_from(s, k + 1)
        } else {
            seq![s[i]] + link_text_from(s, i + 1)
        }
    }
}

/// `s` with its links replaced by their text.
pub open spec fn link_text(s: Seq<char>) -> Seq<char> {
    link_text_from(s, 0)
}

/// `s[i..]` with every image `![alt](target)` replaced by its alternative
/// text, which may be empty and holds no `]`, where the target is not empty
/// and holds no `)`; images are taken from left to right.
pub open spec fn image_alt_from(s: Seq<char>, i: int) -> Seq<char>
    decreases s.len() - i,
{
    if i < 0 || i >= s.len() {
        seq![]
    } else {
        let j = find_from(s, ']', i + 2);
        let k = find_from(s, ')', j + 2);
        if s[i] == '!' && i + 1 < s.len() && s[i + 1] == '[' && j + 1 < s.len() && s[j + 1] == '('
            && j + 2 < k < s.len() && i + 2 <= j {
            s.subrange(i + 2, j) + image_alt_from(s, k + 1)
        } else {
            seq![s[i]] + image_alt_from(s, i + 1)
        }
    }
}

/// `s` with its images replaced by their alternative text.
pub open spec fn image_alt(s: Seq<char>) -> Seq<char> {
    image_alt_from(s, 0)
}

/// The number of line feeds in a row at position `i` of `s`.
pub open spec fn newline_run(s: Seq<char>, i: int) -> nat
    decreases s.len() - i,
{
    if 0 <= i < s.len() && s[i] == '\n' {
        1 + newline_run(s, i + 1)
    } else {
        0
    }
}

/// `s[i..]` with every maximal run of three or more line feeds replaced by
/// two.
pub open spec fn collapse_from(s: Seq<char>, i: int) -> Seq<char>
    decreases s.len() - i,
{
    if i < 0 || i >= s.len() {
        seq![]
    } else if s[i] == '\n' && newline_run(s, i) >= 1 && i + newline_run(s, i) <= s.len() {
        let k = newline_run(s, i);
        (if k >= 3 {
            seq!['\n', '\n']
        } else {
            s.subrange(i, i + k)
        }) + collapse_from(s, i + k)
    } else {
        seq![s[i]] + collapse_from(s, i + 1)
    }
}

/// `s` with its runs of three or more line feeds made two.
pub open spec fn collapse_blank_runs(s: Seq<char>) -> Seq<char> {
    collapse_from(s, 0)
}

/// An ASCII letter, digit, `_` or `-`.
pub open spec fn ascii_name_char(c: char) -> bool {
    ('a' <= c && c <= 'z') || ('A' <= c && c <= 'Z') || ('0' <= c && c <= '9') || c == '_' || c
        == '-'
}

/// Whether a character may stand in a file name: an ASCII letter, digit,
/// `_` or `-`; a CJK unified ideograph (U+4E00 to U+9FFF); or another
/// non-ASCII word character.
pub open spec fn name_char(c: char) -> bool {
    if (c as u32) < 128 {
        ascii_name_char(c)
    } else {
        ('\u{4e00}' <= c && c <= '\u{9fff}') || unicode_word_char(c)
    }
}

/// The patterns that the library rewrites with.
pub open spec fn known_pattern(pattern: Seq<char>) -> bool {
    ||| pattern == QUOTE_PATTERN@
    ||| pattern == LINK_PATTERN@
    ||| pattern == IMAGE_PATTERN@
    ||| pattern == BLANK_RUN_PATTERN@
    ||| pattern == NAME_FILTER_PATTERN@
}

/// Compiles `pattern` with `regex::Regex::new` and returns
/// `replace_all(text, rep)`: every non-overlapping leftmost-first match,
/// searched from left to right, replaced by `rep` with `$1` standing for
/// the first group. Each of the library's patterns compiles, so the
/// `unwrap` never fails. For the library's pattern and replacement pairs
/// the contract spells the result out (in the `regex` syntax `\s` is the
/// Unicode `White_Space` property, `(?m)^` matches at the start of the text
/// and after each line feed, and a negated class such as `[^\]]` matches
/// line feeds too); for others it only names it.
#[verifier::external_body]
pub(crate) fn regex_replace_all(pattern: &str, text: &str, rep: &str) -> (res: String)
    requires
        known_pattern(pattern@),
    ensures
        res@ == regex_replaced(pattern@, text@, rep@),
        pattern@ == QUOTE_PATTERN@ && rep@ == ""@ ==> res@ == strip_quotes(text@),
        pattern@ == LINK_PATTERN@ && rep@ == "$1"@ ==> res@ == link_text(text@),
        pattern@ == IMAGE_PATTERN@ && rep@ == "$1"@ ==> res@ == image_alt(text@),
        pattern@ == BLANK_RUN_PATTERN@ && rep@ == "\n\n"@ ==> res@ == collapse_blank_runs(text@),
        pattern@ == NAME_FILTER_PATTERN@ && rep@ == ""@ ==> res@ == text@.filter(
            |c: char|
                if (c as u32) < 128 {
                    ascii_name_char(c)
                } else {
                    ('\u{4e00}' <= c && c <= '\u{9fff}') || unicode_word_char(c)
                },
        ),
{
    regex::Regex::new(pattern).unwrap().replace_all(text, rep).into_owned()
}

/// `s` has no three line feeds in a row.
pub open spec fn no_blank_run(s: Seq<char>) -> bool {
    forall|i: int|
        0 <= i && i + 2 < s.len() ==> !(#[trigger] s[i] == '\n' && s[i + 1] == '\n' && s[i + 2]
            == '\n')
}

pub proof fn lemma_no_blank_run_concat(a: Seq<char>, b: Seq<char>)
    requires
        no_blank_run(a),
        no_blank_run(b),
        !(a.len() > 0 && b.len() > 0 && a.last() == '\n' && b[0] == '\n'),
    ensures
        no_blank_run(a + b),
{
    let c = a + b;
    assert forall|i: int| 0 <= i && i + 2 < c.len() implies !(#[trigger] c[i] == '\n' && c[i + 1]
        == '\n' && c[i + 2] == '\n') by {
        if i + 2 < a.len() {
            assert(c[i] == a[i] && c[i + 1] == a[i + 1] && c[i + 2] == a[i + 2]);
        } else if i >= a.len() {
            assert(c[i] == b[i - a.len()] && c[i + 1] == b[i + 1 - a.len()] && c[i + 2] == b[i + 2
                - a.len()]);
        } else {
            assert(c[a.len() - 1] == a.last());
            assert(c[a.len() as int] == b[0]);
        }
    }
}

pub proof fn lemma_newline_run(s: Seq<char>, i: int)
    requires
        0 <= i <= s.len(),
    ensures
        i + newline_run(s, i) <= s.len(),
        forall|j: int| i <= j < i + newline_run(s, i) ==> s[j] == '\n',
        i + newline_run(s, i) == s.len() || s[i + newline_run(s, i)] != '\n',
        i < s.len() && s[i] == '\n' ==> newline_run(s, i) >= 1,
    decreases s.len() - i,
{
    if i < s.len() && s[i] == '\n' {
        lemma_newline_run(s, i + 1);
    }
}

/// What collapsing gives from position `i`: no three line feeds in a row,
/// and, where `s[i]` is no line feed, that character first.
pub proof fn lemma_collapse_from(s: Seq<char>, i: int)
    requires
        0 <= i <= s.len(),
    ensures
        no_blank_run(collapse_from(s, i)),
        i < s.len() && s[i] != '\n' ==> collapse_from(s, i).len() > 0 && collapse_from(s, i)[0]
            == s[i],
    decreases s.len() - i,
{
    if i < s.len() {
        lemma_newline_run(s, i);
        let k = newline_run(s, i);
        if s[i] == '\n' {
            lemma_collapse_from(s, i + k);
            let piece = if k >= 3 {
                seq!['\n', '\n']
            } else {
                s.subrange(i, i + k)
            };
            assert(no_blank_run(piece));
            let rest = collapse_from(s, i + k);
            if i + k < s.len() {
                assert(rest[0] != '\n');
            }
            lemma_no_blank_run_concat(piece, rest);
        } else {
            lemma_collapse_from(s, i + 1);
            let rest = collapse_from(s, i + 1);
            lemma_no_blank_run_concat(seq![s[i]], rest);
        }
    }
}

/// Collapsing leaves no three line feeds in a row.
pub proof fn lemma_collapse_no_blank_run(s: Seq<char>)
    ensures
        no_blank_run(collapse_blank_runs(s)),
{
    lemma_collapse_from(s, 0);
}

proof fn lemma_no_blank_run_trim_start(s: Seq<char>)
    requires
        no_blank_run(s),
    ensures
        no_blank_run(trim_start(s)),
    decreases s.len(),
{
    if s.len() > 0 && is_ws(s[0]) {
        let t = s.drop_first();
        assert forall|i: int| 0 <= i && i + 2 < t.len() implies !(#[trigger] t[i] == '\n' && t[i
            + 1] == '\n' && t[i + 2] == '\n') by {
            assert(t[i] == s[i + 1] && t[i + 1] == s[i + 2] && t[i + 2] == s[i + 3]);
            assert(!(s[i + 1] == '\n' && s[i + 2] == '\n' && s[i + 3] == '\n'));
        }
        lemma_no_blank_run_trim_start(t);
    }
}

proof fn lemma_no_blank_run_trim_end(s: Seq<char>)
    requires
        no_blank_run(s),
    ensures
        no_blank_run(trim_end(s)),
    decreases s.len(),
{
    if s.len() > 0 && is_ws(s.last()) {
        let t = s.drop_last();
        assert forall|i: int| 0 <= i && i + 2 < t.len() implies !(#[trigger] t[i] == '\n' && t[i
            + 1] == '\n' && t[i + 2] == '\n') by {
            assert(t[i] == s[i] && t[i + 1] == s[i + 1] && t[i + 2] == s[i + 2]);
        }
        lemma_no_blank_run_trim_end(t);
    }
}

/// Trimming keeps a text free of three line feeds in a row.
pub proof fn lemma_no_blank_run_trim(s: Seq<char>)
    requires
        no_blank_run(s),
    ensures
        no_blank_run(trim(s)),
{
    lemma_no_blank_run_trim_start(s);
    lemma_no_blank_run_trim_end(trim_start(s));
}

} // verus!
