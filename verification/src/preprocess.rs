//! The text that is read aloud: block selection, clean-up of Markdown
//! remnants and HTML entities, and the SSML form with pauses.

use crate::parser::{block_models, BlockKind, BlockModel, ContentBlock, ParsedArticle};
use crate::rewrite::{
    collapse_blank_runs, image_alt, lemma_collapse_no_blank_run, lemma_no_blank_run_trim, link_text, no_blank_run,
    regex_replace_all, strip_quotes,
    BLANK_RUN_PATTERN, IMAGE_PATTERN, LINK_PATTERN, QUOTE_PATTERN,
};
use crate::text::{
    concat, lemma_concat_append, lemma_concat_single, chars_of, is_whitespace, is_ws, join, join_chars, push_all, replace_all, replace_chars,
    string_of, trim, trim_chars, views,
};
use vstd::prelude::*;

verus! {

/// What is read in place of a code block.
pub const SKIP_CODE: &'static str = "（这里有一段代码，已跳过）";

/// What is read in place of a formula.
pub const SKIP_MATH: &'static str = "（这里有一个数学公式，已跳过）";

/// What is read in place of a table.
pub const SKIP_TABLE: &'static str = "（这里有一个表格，已跳过）";

/// What opens the reading of an image's alternative text.
pub const IMAGE_OPEN: &'static str = "（图片：";

/// What closes the reading of an image's alternative text.
pub const IMAGE_CLOSE: &'static str = "）";

/// The separator between the parts of the reading text.
pub const PART_SEPARATOR: &'static str = "\n\n";

/// The opening tag of an SSML document.
pub const SSML_HEADER: &'static str = "<speak version=\"1.0\" xmlns=\"http://www.w3.org/2001/10/synthesis\" xml:lang=\"zh-CN\">";

/// The closing tag of an SSML document.
pub const SSML_FOOTER: &'static str = "</speak>";

/// The pause before a heading.
pub const BREAK_BEFORE_HEADING: &'static str = "<break time=\"800ms\"/>";

/// The pause after a heading.
pub const BREAK_AFTER_HEADING: &'static str = "<break time=\"500ms\"/>";

/// The pause after a paragraph or a skipped block.
pub const BREAK_AFTER_BLOCK: &'static str = "<break time=\"300ms\"/>";

/// What a block contributes to the reading text: its trimmed text for a
/// text or heading block that is not blank, a short note for a code block,
/// formula or table, the alternative text in brackets for an image that has
/// one, nothing otherwise.
pub open spec fn block_reading(b: BlockModel) -> Option<Seq<char>> {
    match b.kind {
        BlockKind::Text | BlockKind::Heading => if trim(b.content).len() == 0 {
            None
        } else {
            Some(trim(b.content))
        },
        BlockKind::Code => Some(SKIP_CODE@),
        BlockKind::Math => Some(SKIP_MATH@),
        BlockKind::Table => Some(SKIP_TABLE@),
        BlockKind::Image => if trim(b.content).len() == 0 {
            None
        } else {
            Some(IMAGE_OPEN@ + trim(b.content) + IMAGE_CLOSE@)
        },
    }
}

/// The contributions of `blocks`, in order.
pub open spec fn reading_parts(blocks: Seq<BlockModel>) -> Seq<Seq<char>>
    decreases blocks.len(),
{
    if blocks.len() == 0 {
        seq![]
    } else {
        reading_parts(blocks.drop_last()) + match block_reading(blocks.last()) {
            Some(t) => seq![t],
            None => seq![],
        }
    }
}

/// `s` with the HTML entities `&amp;`, `&lt;`, `&gt;`, `&quot;`, `&apos;`,
/// `&#39;` and `&nbsp;` replaced, one after the other in this order.
pub open spec fn unescape_html(s: Seq<char>) -> Seq<char> {
    let s1 = replace_all(s, "&amp;"@, "&"@);
    let s2 = replace_all(s1, "&lt;"@, "<"@);
    let s3 = replace_all(s2, "&gt;"@, ">"@);
    let s4 = replace_all(s3, "&quot;"@, "\""@);
    let s5 = replace_all(s4, "&apos;"@, "'"@);
    let s6 = replace_all(s5, "&#39;"@, "'"@);
    replace_all(s6, "&nbsp;"@, " "@)
}

/// The punctuation that may stand next to an emphasis marker.
pub open spec fn is_punct(c: char) -> bool {
    ||| c == '.'
    ||| c == ','
    ||| c == '!'
    ||| c == '?'
    ||| c == ';'
    ||| c == ':'
    ||| c == '"'
    ||| c == '\''
    ||| c == '。'
    ||| c == '，'
    ||| c == '！'
    ||| c == '？'
    ||| c == '；'
    ||| c == '：'
    ||| c == '\u{201C}'
    ||| c == '\u{201D}'
    ||| c == '\u{2018}'
    ||| c == '\u{2019}'
}

/// How many characters an emphasis marker at `i` spans where it is to be
/// dropped, and 0 where the character at `i` stays. A marker is a `*` or
/// `_`, doubled where the next character is the same; it is dropped where
/// it opens (whitespace or punctuation before it, and after it a character
/// that is neither whitespace nor the marker character) or closes
/// (whitespace or punctuation after it, and before it a character that is
/// neither whitespace nor the marker character). Outside the text, a space
/// stands in for the missing neighbour.
pub open spec fn marker_span(s: Seq<char>, i: int) -> int {
    let c = s[i];
    if c == '*' || c == '_' {
        let prev = if i > 0 {
            s[i - 1]
        } else {
            ' '
        };
        let count: int = if i + 1 < s.len() && s[i + 1] == c {
            2
        } else {
            1
        };
        let next = if i + count < s.len() {
            s[i + count]
        } else {
            ' '
        };
        let opening = is_ws(prev) || is_punct(prev);
        let closing = is_ws(next) || is_punct(next);
        if (opening && !is_ws(next) && next != c) || (closing && !is_ws(prev) && prev != c) {
            count
        } else {
            0
        }
    } else {
        0
    }
}

/// `s[i..]` with the emphasis markers dropped.
pub open spec fn strip_marks_from(s: Seq<char>, i: int) -> Seq<char>
    decreases s.len() - i,
{
    if i < 0 || i >= s.len() {
        seq![]
    } else if marker_span(s, i) > 0 {
        strip_marks_from(s, i + marker_span(s, i))
    } else {
        seq![s[i]] + strip_marks_from(s, i + 1)
    }
}

/// `s` with the emphasis markers dropped.
pub open spec fn strip_marks(s: Seq<char>) -> Seq<char> {
    strip_marks_from(s, 0)
}

/// The clean-up of a reading text: entities, emphasis markers, quote
/// markers, links and images, runs of blank lines, outer whitespace.
pub open spec fn clean_text(s: Seq<char>) -> Seq<char> {
    trim(collapse_blank_runs(image_alt(link_text(strip_quotes(strip_marks(unescape_html(s)))))))
}

/// The reading text of an article with these blocks: empty where there are
/// none; otherwise the contributions of the blocks, separated by blank
/// lines, cleaned up.
pub open spec fn reading_text(blocks: Seq<BlockModel>) -> Seq<char> {
    if blocks.len() == 0 {
        seq![]
    } else {
        clean_text(join(reading_parts(blocks), PART_SEPARATOR@))
    }
}

/// Whether `c` is punctuation that may stand next to an emphasis marker.
pub fn is_punctuation(c: char) -> (res: bool)
    ensures
        res == is_punct(c),
{
    c == '.' || c == ',' || c == '!' || c == '?' || c == ';' || c == ':' || c == '"' || c == '\''
        || c == '。' || c == '，' || c == '！' || c == '？' || c == '；' || c == '：' || c
        == '\u{201C}' || c == '\u{201D}' || c == '\u{2018}' || c == '\u{2019}'
}

/// Replaces `from` by `to` in `s`.
fn replace_literal(s: &Vec<char>, from: &str, to: &str) -> (res: Vec<char>)
    requires
        from@.len() > 0,
    ensures
        res@ == replace_all(s@, from@, to@),
{
    replace_chars(s, &chars_of(from), &chars_of(to))
}

/// `s` with the HTML entities replaced.
pub fn unescape_entities(s: &Vec<char>) -> (res: Vec<char>)
    ensures
        res@ == unescape_html(s@),
{
    proof {
        reveal_strlit("&amp;");
        reveal_strlit("&lt;");
        reveal_strlit("&gt;");
        reveal_strlit("&quot;");
        reveal_strlit("&apos;");
        reveal_strlit("&#39;");
        reveal_strlit("&nbsp;");
    }
    let s1 = replace_literal(s, "&amp;", "&");
    let s2 = replace_literal(&s1, "&lt;", "<");
    let s3 = replace_literal(&s2, "&gt;", ">");
    let s4 = replace_literal(&s3, "&quot;", "\"");
    let s5 = replace_literal(&s4, "&apos;", "'");
    let s6 = replace_literal(&s5, "&#39;", "'");
    replace_literal(&s6, "&nbsp;", " ")
}

/// How many characters the emphasis marker at `i` spans, or 0.
fn marker_span_at(s: &Vec<char>, i: usize) -> (res: usize)
    requires
        i < s.len(),
    ensures
        res == marker_span(s@, i as int),
        res <= 2,
{
    let c = s[i];
    if c == '*' || c == '_' {
        let prev = if i > 0 {
            s[i - 1]
        } else {
            ' '
        };
        let count: usize = if i + 1 < s.len() && s[i + 1] == c {
            2
        } else {
            1
        };
        let next = if i + count < s.len() {
            s[i + count]
        } else {
            ' '
        };
        let opening = is_whitespace(prev) || is_punctuation(prev);
        let closing = is_whitespace(next) || is_punctuation(next);
        if (opening && !is_whitespace(next) && next != c) || (closing && !is_whitespace(prev)
            && prev != c) {
            count
        } else {
            0
        }
    } else {
        0
    }
}

/// `s` with the emphasis markers dropped.
pub fn strip_markdown_marks(s: &Vec<char>) -> (res: Vec<char>)
    ensures
        res@ == strip_marks(s@),
{
    let mut out: Vec<char> = Vec::new();
    let mut i: usize = 0;
    while i < s.len()
        invariant
            i <= s.len(),
            out@ + strip_marks_from(s@, i as int) == strip_marks(s@),
        decreases s.len() - i,
    {
        let k = marker_span_at(s, i);
        if k > 0 {
            i = if k <= s.len() - i {
                i + k
            } else {
                s.len()
            };
        } else {
            let ghost before = out@;
            out.push(s[i]);
            i += 1;
            assert(before + (seq![s@[i - 1]] + strip_marks_from(s@, i as int)) =~= out@
                + strip_marks_from(s@, i as int));
        }
    }
    assert(out@ + strip_marks_from(s@, i as int) =~= out@);
    out
}

/// The reading text of one block, if it contributes one.
pub fn process_block(block: &ContentBlock) -> (res: Option<Vec<char>>)
    ensures
        match res {
            Some(t) => block_reading(block@) == Some(t@),
            None => block_reading(block@) is None,
        },
{
    match block.kind {
        BlockKind::Text | BlockKind::Heading => {
            let t = trim_chars(&chars_of(block.content.as_str()));
            if t.len() == 0 {
                None
            } else {
                Some(t)
            }
        },
        BlockKind::Code => Some(chars_of(SKIP_CODE)),
        BlockKind::Math => Some(chars_of(SKIP_MATH)),
        BlockKind::Table => Some(chars_of(SKIP_TABLE)),
        BlockKind::Image => {
            let alt = trim_chars(&chars_of(block.content.as_str()));
            if alt.len() == 0 {
                None
            } else {
                let mut t = chars_of(IMAGE_OPEN);
                push_all(&mut t, &alt);
                push_all(&mut t, &chars_of(IMAGE_CLOSE));
                Some(t)
            }
        },
    }
}

/// The contributions of `blocks`.
pub fn reading_parts_of(blocks: &Vec<ContentBlock>) -> (res: Vec<Vec<char>>)
    ensures
        views(res@) == reading_parts(block_models(blocks@)),
{
    let ghost bm = block_models(blocks@);
    let mut parts: Vec<Vec<char>> = Vec::new();
    let mut i: usize = 0;
    while i < blocks.len()
        invariant
            i <= blocks.len(),
            bm == block_models(blocks@),
            views(parts@) == reading_parts(bm.take(i as int)),
        decreases blocks.len() - i,
    {
        assert(bm.take(i + 1).drop_last() =~= bm.take(i as int));
        assert(bm.take(i + 1).last() == blocks@[i as int]@);
        match process_block(&blocks[i]) {
            Some(t) => {
                assert(views(parts@.push(t)) =~= views(parts@).push(t@));
                parts.push(t);
            },
            None => {
                assert(views(parts@) + seq![] =~= views(parts@));
            },
        }
        i += 1;
    }
    assert(bm.take(blocks.len() as int) =~= bm);
    parts
}

/// The clean-up of a reading text.
pub fn clean(text: &Vec<char>) -> (res: Vec<char>)
    ensures
        res@ == clean_text(text@),
{
    proof {
        reveal_strlit("");
        reveal_strlit("$1");
        reveal_strlit("\n\n");
    }
    let t1 = strip_markdown_marks(&unescape_entities(text));
    let t2 = regex_replace_all(QUOTE_PATTERN, string_of(&t1).as_str(), "");
    let t3 = regex_replace_all(LINK_PATTERN, t2.as_str(), "$1");
    let t4 = regex_replace_all(IMAGE_PATTERN, t3.as_str(), "$1");
    let t5 = regex_replace_all(BLANK_RUN_PATTERN, t4.as_str(), "\n\n");
    trim_chars(&chars_of(t5.as_str()))
}

/// The text to read aloud for an article: the contributions of its blocks
/// (trimmed text of text blocks and headings, a short note for each code
/// block, formula and table, the alternative text of images), separated by
/// blank lines, with HTML entities decoded, Markdown emphasis, quote
/// markers, links and images reduced to their text, runs of blank lines
/// collapsed and outer whitespace trimmed.
pub fn preprocess(article: &ParsedArticle) -> (res: String)
    ensures
        res@ == reading_text(article@.blocks),
{
    if article.blocks.len() == 0 {
        return string_of(&Vec::new());
    }
    let parts = reading_parts_of(&article.blocks);
    let joined = join_chars(&parts, &chars_of(PART_SEPARATOR));
    string_of(&clean(&joined))
}

/// The SSML escape of one character.
pub open spec fn escape_char(c: char) -> Seq<char> {
    if c == '&' {
        "&amp;"@
    } else if c == '<' {
        "&lt;"@
    } else if c == '>' {
        "&gt;"@
    } else if c == '"' {
        "&quot;"@
    } else if c == '\'' {
        "&apos;"@
    } else {
        seq![c]
    }
}

/// `s` with `&`, `<`, `>`, `"` and `'` written as entities.
pub open spec fn escape_ssml(s: Seq<char>) -> Seq<char>
    decreases s.len(),
{
    if s.len() == 0 {
        seq![]
    } else {
        escape_ssml(s.drop_last()) + escape_char(s.last())
    }
}

/// The SSML pieces of one block: a heading between a long and a medium
/// pause; a text block that is not blank, then a short pause; the note of a
/// code block, formula or table, then a short pause; the alternative text
/// of an image that has one.
pub open spec fn ssml_block_parts(b: BlockModel) -> Seq<Seq<char>> {
    match b.kind {
        BlockKind::Heading => seq![
            BREAK_BEFORE_HEADING@,
            escape_ssml(trim(b.content)),
            BREAK_AFTER_HEADING@,
        ],
        BlockKind::Text => if trim(b.content).len() == 0 {
            seq![]
        } else {
            seq![escape_ssml(trim(b.content)), BREAK_AFTER_BLOCK@]
        },
        BlockKind::Code => seq![escape_ssml(SKIP_CODE@), BREAK_AFTER_BLOCK@],
        BlockKind::Math => seq![escape_ssml(SKIP_MATH@), BREAK_AFTER_BLOCK@],
        BlockKind::Table => seq![escape_ssml(SKIP_TABLE@), BREAK_AFTER_BLOCK@],
        BlockKind::Image => if trim(b.content).len() == 0 {
            seq![]
        } else {
            seq![escape_ssml(IMAGE_OPEN@ + trim(b.content) + IMAGE_CLOSE@)]
        },
    }
}

/// The SSML pieces of `blocks`, in order.
pub open spec fn ssml_parts(blocks: Seq<BlockModel>) -> Seq<Seq<char>>
    decreases blocks.len(),
{
    if blocks.len() == 0 {
        seq![]
    } else {
        ssml_parts(blocks.drop_last()) + ssml_block_parts(blocks.last())
    }
}

/// The SSML document of an article with these blocks: the header and the
/// footer, with the pieces of the blocks on lines between them where there
/// are blocks.
pub open spec fn ssml_text(blocks: Seq<BlockModel>) -> Seq<char> {
    if blocks.len() == 0 {
        SSML_HEADER@ + SSML_FOOTER@
    } else {
        SSML_HEADER@ + "\n"@ + join(ssml_parts(blocks), "\n"@) + "\n"@ + SSML_FOOTER@
    }
}

/// `s` with the SSML special characters written as entities.
pub fn escape_ssml_chars(s: &Vec<char>) -> (res: Vec<char>)
    ensures
        res@ == escape_ssml(s@),
{
    let amp = chars_of("&amp;");
    let lt = chars_of("&lt;");
    let gt = chars_of("&gt;");
    let quot = chars_of("&quot;");
    let apos = chars_of("&apos;");
    let mut out: Vec<char> = Vec::new();
    let mut i: usize = 0;
    while i < s.len()
        invariant
            i <= s.len(),
            amp@ == "&amp;"@,
            lt@ == "&lt;"@,
            gt@ == "&gt;"@,
            quot@ == "&quot;"@,
            apos@ == "&apos;"@,
            out@ == escape_ssml(s@.take(i as int)),
        decreases s.len() - i,
    {
        assert(s@.take(i + 1).drop_last() =~= s@.take(i as int));
        let c = s[i];
        if c == '&' {
            push_all(&mut out, &amp);
        } else if c == '<' {
            push_all(&mut out, &lt);
        } else if c == '>' {
            push_all(&mut out, &gt);
        } else if c == '"' {
            push_all(&mut out, &quot);
        } else if c == '\'' {
            push_all(&mut out, &apos);
        } else {
            out.push(c);
        }
        i += 1;
        assert(out@ =~= escape_ssml(s@.take(i as int)));
    }
    assert(s@.take(s.len() as int) =~= s@);
    out
}

/// The SSML pieces of one block.
fn ssml_block(block: &ContentBlock) -> (res: Vec<Vec<char>>)
    ensures
        views(res@) == ssml_block_parts(block@),
{
    let mut out: Vec<Vec<char>> = Vec::new();
    match block.kind {
        BlockKind::Heading => {
            out.push(chars_of(BREAK_BEFORE_HEADING));
            out.push(escape_ssml_chars(&trim_chars(&chars_of(block.content.as_str()))));
            out.push(chars_of(BREAK_AFTER_HEADING));
        },
        BlockKind::Text => {
            let t = trim_chars(&chars_of(block.content.as_str()));
            if t.len() > 0 {
                out.push(escape_ssml_chars(&t));
                out.push(chars_of(BREAK_AFTER_BLOCK));
            }
        },
        BlockKind::Code => {
            out.push(escape_ssml_chars(&chars_of(SKIP_CODE)));
            out.push(chars_of(BREAK_AFTER_BLOCK));
        },
        BlockKind::Math => {
            out.push(escape_ssml_chars(&chars_of(SKIP_MATH)));
            out.push(chars_of(BREAK_AFTER_BLOCK));
        },
        BlockKind::Table => {
            out.push(escape_ssml_chars(&chars_of(SKIP_TABLE)));
            out.push(chars_of(BREAK_AFTER_BLOCK));
        },
        BlockKind::Image => {
            let alt = trim_chars(&chars_of(block.content.as_str()));
            if alt.len() > 0 {
                let mut t = chars_of(IMAGE_OPEN);
                push_all(&mut t, &alt);
                push_all(&mut t, &chars_of(IMAGE_CLOSE));
                out.push(escape_ssml_chars(&t));
            }
        },
    }
    assert(views(out@) =~= ssml_block_parts(block@));
    out
}

/// The SSML document for an article: a `<speak>` element in which each
/// heading stands between pauses of 800 ms and 500 ms, each text block that
/// is not blank and each note for a code block, formula or table is
/// followed by a pause of 300 ms, and an image's alternative text is read
/// in brackets; text is escaped for XML, and pieces stand on lines of their
/// own.
pub fn preprocess_ssml(article: &ParsedArticle) -> (res: String)
    ensures
        res@ == ssml_text(article@.blocks),
{
    let mut out = chars_of(SSML_HEADER);
    if article.blocks.len() == 0 {
        push_all(&mut out, &chars_of(SSML_FOOTER));
        return string_of(&out);
    }
    let ghost bm = article@.blocks;
    let mut parts: Vec<Vec<char>> = Vec::new();
    let mut i: usize = 0;
    while i < article.blocks.len()
        invariant
            i <= article.blocks.len(),
            bm == article@.blocks,
            views(parts@) == ssml_parts(bm.take(i as int)),
        decreases article.blocks.len() - i,
    {
        assert(bm.take(i + 1).drop_last() =~= bm.take(i as int));
        assert(bm.take(i + 1).last() == article.blocks@[i as int]@);
        let mut more = ssml_block(&article.blocks[i]);
        let ghost p = views(parts@);
        let ghost m = views(more@);
        parts.append(&mut more);
        assert(views(parts@) =~= p + m);
        i += 1;
    }
    assert(bm.take(article.blocks.len() as int) =~= bm);
    let newline = chars_of("\n");
    push_all(&mut out, &newline);
    push_all(&mut out, &join_chars(&parts, &newline));
    push_all(&mut out, &newline);
    push_all(&mut out, &chars_of(SSML_FOOTER));
    string_of(&out)
}

/// An emphasis marker character.
pub open spec fn is_mark(c: char) -> bool {
    c == '*' || c == '_'
}

/// `r` is `s` with some of its characters deleted: matching `r` against
/// `s` from the left, each character of `r` is found in order.
pub open spec fn subseq_of(r: Seq<char>, s: Seq<char>) -> bool
    decreases s.len(),
{
    if r.len() == 0 {
        true
    } else if s.len() == 0 {
        false
    } else if r[0] == s[0] {
        subseq_of(r.drop_first(), s.drop_first())
    } else {
        subseq_of(r, s.drop_first())
    }
}

proof fn lemma_subseq_prepend(r: Seq<char>, t: Seq<char>, x: char)
    requires
        subseq_of(r, t),
    ensures
        subseq_of(r, seq![x] + t),
    decreases t.len(), 1int,
{
    let u = seq![x] + t;
    assert(u.drop_first() =~= t);
    if r.len() > 0 && r[0] == x {
        lemma_subseq_drop_first(r, t);
    }
}

proof fn lemma_subseq_drop_first(r: Seq<char>, t: Seq<char>)
    requires
        subseq_of(r, t),
        r.len() > 0,
    ensures
        subseq_of(r.drop_first(), t),
    decreases t.len(), 0int,
{
    if r[0] == t[0] {
        lemma_subseq_prepend(r.drop_first(), t.drop_first(), t[0]);
        assert(seq![t[0]] + t.drop_first() =~= t);
    } else {
        lemma_subseq_drop_first(r, t.drop_first());
        lemma_subseq_prepend(r.drop_first(), t.drop_first(), t[0]);
        assert(seq![t[0]] + t.drop_first() =~= t);
    }
}

/// `s` without its `*` and `_` characters.
pub open spec fn without_marks(s: Seq<char>) -> Seq<char> {
    s.filter(|c: char| !is_mark(c))
}

proof fn lemma_without_marks_cons(c: char, t: Seq<char>)
    ensures
        without_marks(seq![c] + t) == if is_mark(c) {
            without_marks(t)
        } else {
            seq![c] + without_marks(t)
        },
{
    Seq::filter_distributes_over_add(seq![c], t, |c: char| !is_mark(c));
    reveal(Seq::filter);
    assert(seq![c].drop_last() =~= Seq::<char>::empty());
    assert(Seq::<char>::empty().filter(|c: char| !is_mark(c)) =~= Seq::<char>::empty());
    if is_mark(c) {
        assert(without_marks(seq![c]) =~= Seq::<char>::empty());
        assert(Seq::<char>::empty() + without_marks(t) =~= without_marks(t));
    } else {
        assert(without_marks(seq![c]) =~= seq![c]);
    }
}

proof fn lemma_strip_marks_from(s: Seq<char>, i: int)
    requires
        0 <= i <= s.len(),
    ensures
        subseq_of(strip_marks_from(s, i), s.skip(i)),
        without_marks(strip_marks_from(s, i)) == without_marks(s.skip(i)),
    decreases s.len() - i,
{
    if i == s.len() {
        assert(s.skip(i) =~= Seq::<char>::empty());
        assert(strip_marks_from(s, i) == Seq::<char>::empty());
    } else {
        let k = marker_span(s, i);
        assert(s.skip(i) =~= seq![s[i]] + s.skip(i + 1));
        lemma_without_marks_cons(s[i], s.skip(i + 1));
        if k > 0 {
            assert(is_mark(s[i]));
            assert(k == 1 || (k == 2 && i + 1 < s.len() && s[i + 1] == s[i]));
            assert(strip_marks_from(s, i) == strip_marks_from(s, i + k));
            lemma_strip_marks_from(s, i + k);
            if k == 2 {
                assert(s.skip(i + 1) =~= seq![s[i + 1]] + s.skip(i + 2));
                lemma_without_marks_cons(s[i + 1], s.skip(i + 2));
                lemma_subseq_prepend(strip_marks_from(s, i + 2), s.skip(i + 2), s[i + 1]);
            }
            lemma_subseq_prepend(strip_marks_from(s, i + k), s.skip(i + 1), s[i]);
        } else {
            lemma_strip_marks_from(s, i + 1);
            let r = strip_marks_from(s, i + 1);
            let sr = seq![s[i]] + r;
            assert(strip_marks_from(s, i) == sr);
            assert(sr.drop_first() =~= r);
            assert(sr[0] == s.skip(i)[0]);
            assert(s.skip(i).drop_first() =~= s.skip(i + 1));
            lemma_without_marks_cons(s[i], r);
        }
    }
}

/// Dropping emphasis markers deletes `*` and `_` characters and nothing
/// else: what is left is the text with some characters deleted, and the
/// text's other characters are all there, in order.
pub proof fn law_strip_marks_deletes_marks(s: Seq<char>)
    ensures
        subseq_of(strip_marks(s), s),
        without_marks(strip_marks(s)) == without_marks(s),
{
    lemma_strip_marks_from(s, 0);
    assert(s.skip(0) =~= s);
}

/// The reading text of an article never holds three line feeds in a row:
/// blank lines between parts are at most one.
pub proof fn law_no_blank_run(blocks: Seq<BlockModel>)
    ensures
        no_blank_run(reading_text(blocks)),
{
    if blocks.len() > 0 {
        let s = image_alt(
            link_text(strip_quotes(strip_marks(unescape_html(join(reading_parts(blocks), PART_SEPARATOR@))))),
        );
        lemma_collapse_no_blank_run(s);
        lemma_no_blank_run_trim(collapse_blank_runs(s));
    }
}

/// Every SSML document begins with the `<speak>` opening tag and ends with
/// the closing tag.
pub proof fn law_ssml_framed(blocks: Seq<BlockModel>)
    ensures
        ssml_text(blocks).len() >= SSML_HEADER@.len() + SSML_FOOTER@.len(),
        ssml_text(blocks).take(SSML_HEADER@.len() as int) == SSML_HEADER@,
        ssml_text(blocks).skip(ssml_text(blocks).len() - SSML_FOOTER@.len()) == SSML_FOOTER@,
{
    let t = ssml_text(blocks);
    if blocks.len() == 0 {
        assert(t.take(SSML_HEADER@.len() as int) =~= SSML_HEADER@);
        assert(t.skip(t.len() - SSML_FOOTER@.len()) =~= SSML_FOOTER@);
    } else {
        let mid = "\n"@ + join(ssml_parts(blocks), "\n"@) + "\n"@;
        assert(t =~= SSML_HEADER@ + mid + SSML_FOOTER@);
        assert(t.take(SSML_HEADER@.len() as int) =~= SSML_HEADER@);
        assert(t.skip(t.len() - SSML_FOOTER@.len()) =~= SSML_FOOTER@);
    }
}

/// `s` holds none of the characters that are markup in XML text.
pub open spec fn markup_free(s: Seq<char>) -> bool {
    forall|i: int|
        0 <= i < s.len() ==> #[trigger] s[i] != '<' && s[i] != '>' && s[i] != '"' && s[i] != '\''
}

/// Escaped text holds no `<`, `>`, `"` or `'`: it cannot close or open an
/// SSML element or attribute.
pub proof fn law_escape_markup_free(s: Seq<char>)
    ensures
        markup_free(escape_ssml(s)),
    decreases s.len(),
{
    if s.len() > 0 {
        law_escape_markup_free(s.drop_last());
        reveal_strlit("&amp;");
        reveal_strlit("&lt;");
        reveal_strlit("&gt;");
        reveal_strlit("&quot;");
        reveal_strlit("&apos;");
        let a = escape_ssml(s.drop_last());
        let b = escape_char(s.last());
        assert(markup_free(b));
        assert(escape_ssml(s) == a + b);
        assert forall|i: int| 0 <= i < (a + b).len() implies #[trigger] (a + b)[i] != '<' && (a
            + b)[i] != '>' && (a + b)[i] != '"' && (a + b)[i] != '\'' by {
            if i < a.len() {
                assert((a + b)[i] == a[i]);
            } else {
                assert((a + b)[i] == b[i - a.len()]);
            }
        }
    }
}


/// A character as it stands after the first `k` of the entities `&amp;`,
/// `&lt;`, `&gt;`, `&quot;` and `&apos;` have been decoded again: itself
/// where its entity is among those, its escaped form otherwise.
pub open spec fn partly_escaped_char(c: char, k: nat) -> Seq<char> {
    if (c == '&' && k >= 1) || (c == '<' && k >= 2) || (c == '>' && k >= 3) || (c == '"' && k
        >= 4) || (c == '\'' && k >= 5) {
        seq![c]
    } else {
        escape_char(c)
    }
}

/// `s` with each character as it stands after the first `k` entities have
/// been decoded again.
pub open spec fn partly_escaped(s: Seq<char>, k: nat) -> Seq<char>
    decreases s.len(),
{
    if s.len() == 0 {
        seq![]
    } else {
        partly_escaped_char(s[0], k) + partly_escaped(s.drop_first(), k)
    }
}

proof fn lemma_reveal_entities()
    ensures
        "&amp;"@ == seq!['&', 'a', 'm', 'p', ';'],
        "&lt;"@ == seq!['&', 'l', 't', ';'],
        "&gt;"@ == seq!['&', 'g', 't', ';'],
        "&quot;"@ == seq!['&', 'q', 'u', 'o', 't', ';'],
        "&apos;"@ == seq!['&', 'a', 'p', 'o', 's', ';'],
        "&#39;"@ == seq!['&', '#', '3', '9', ';'],
        "&nbsp;"@ == seq!['&', 'n', 'b', 's', 'p', ';'],
        "&"@ == seq!['&'],
        "<"@ == seq!['<'],
        ">"@ == seq!['>'],
        "\""@ == seq!['"'],
        "'"@ == seq!['\''],
        " "@ == seq![' '],
{
    reveal_strlit("&amp;");
    reveal_strlit("&lt;");
    reveal_strlit("&gt;");
    reveal_strlit("&quot;");
    reveal_strlit("&apos;");
    reveal_strlit("&#39;");
    reveal_strlit("&nbsp;");
    reveal_strlit("&");
    reveal_strlit("<");
    reveal_strlit(">");
    reveal_strlit("\"");
    reveal_strlit("'");
    reveal_strlit(" ");
}

/// Where no character of `x` starts the pattern, replacing leaves `x` as it
/// is.
proof fn lemma_replace_skips(x: Seq<char>, y: Seq<char>, from: Seq<char>, to: Seq<char>)
    requires
        from.len() > 0,
        forall|i: int| 0 <= i < x.len() ==> #[trigger] x[i] != from[0],
    ensures
        replace_all(x + y, from, to) == x + replace_all(y, from, to),
    decreases x.len(),
{
    if x.len() == 0 {
        assert(x + y =~= y);
        assert(x + replace_all(y, from, to) =~= replace_all(y, from, to));
    } else {
        let xy = x + y;
        assert(xy[0] == x[0]);
        if from.len() <= xy.len() {
            assert(xy.take(from.len() as int)[0] == xy[0]);
            assert(xy.take(from.len() as int) != from);
        }
        assert(xy.drop_first() =~= x.drop_first() + y);
        assert forall|i: int| 0 <= i < x.drop_first().len() implies #[trigger] x.drop_first()[i]
            != from[0] by {
            assert(x.drop_first()[i] == x[i + 1]);
        }
        lemma_replace_skips(x.drop_first(), y, from, to);
        assert(seq![x[0]] + (x.drop_first() + replace_all(y, from, to)) =~= x + replace_all(
            y,
            from,
            to,
        ));
    }
}

/// One decoding step on one character: its entity, where it is the one
/// being decoded, becomes the character; any other piece stays as it is.
proof fn lemma_entity_step(c: char, rest: Seq<char>, k: nat, from: Seq<char>, to: Seq<char>)
    requires
        c != '&',
        1 <= k <= 5,
        from == escape_char(if k == 1 { '&' } else if k == 2 { '<' } else if k == 3 { '>' } else if k == 4 { '"' } else { '\'' }),
        to == seq![if k == 1 { '&' } else if k == 2 { '<' } else if k == 3 { '>' } else if k == 4 { '"' } else { '\'' }],
    ensures
        replace_all(partly_escaped_char(c, (k - 1) as nat) + rest, from, to) == partly_escaped_char(c, k)
            + replace_all(rest, from, to),
{
    lemma_reveal_entities();
    let p = partly_escaped_char(c, (k - 1) as nat);
    let kc = if k == 1 { '&' } else if k == 2 { '<' } else if k == 3 { '>' } else if k == 4 { '"' } else { '\'' };
    if c == kc {
        assert(p == from);
        assert((p + rest).take(from.len() as int) =~= from);
        assert((p + rest).skip(from.len() as int) =~= rest);
    } else if p.len() == 1 {
        assert(p[0] == c);
        assert(partly_escaped_char(c, k) == p);
        lemma_replace_skips(p, rest, from, to);
    } else {
        assert(partly_escaped_char(c, k) == p);
        assert(p[0] == '&');
        let q = p.drop_first();
        assert forall|i: int| 0 <= i < q.len() implies #[trigger] q[i] != from[0] by {
            assert(q[i] == p[i + 1]);
        }
        let pr = p + rest;
        assert(!(from.len() <= pr.len() && pr.take(from.len() as int) == from)) by {
            if from.len() <= pr.len() && pr.take(from.len() as int) == from {
                if p[1] != from[1] {
                    assert(pr.take(from.len() as int)[1] == p[1]);
                } else {
                    assert(pr.take(from.len() as int)[2] == p[2]);
                }
            }
        }
        assert(pr.drop_first() =~= q + rest);
        lemma_replace_skips(q, rest, from, to);
        assert(seq![pr[0]] + (q + replace_all(rest, from, to)) =~= p + replace_all(rest, from, to));
    }
}

proof fn lemma_partly_step(s: Seq<char>, k: nat, from: Seq<char>, to: Seq<char>)
    requires
        !s.contains('&'),
        1 <= k <= 5,
        from == escape_char(if k == 1 { '&' } else if k == 2 { '<' } else if k == 3 { '>' } else if k == 4 { '"' } else { '\'' }),
        to == seq![if k == 1 { '&' } else if k == 2 { '<' } else if k == 3 { '>' } else if k == 4 { '"' } else { '\'' }],
    ensures
        replace_all(partly_escaped(s, (k - 1) as nat), from, to) == partly_escaped(s, k),
    decreases s.len(),
{
    lemma_reveal_entities();
    if s.len() == 0 {
        assert(replace_all(Seq::<char>::empty(), from, to) == Seq::<char>::empty());
    } else {
        assert(s[0] != '&') by {
            if s[0] == '&' {
                assert(s.contains('&'));
            }
        }
        assert(!s.drop_first().contains('&')) by {
            if s.drop_first().contains('&') {
                let j = choose|j: int| 0 <= j < s.drop_first().len() && s.drop_first()[j] == '&';
                assert(s[j + 1] == '&');
            }
        }
        lemma_partly_step(s.drop_first(), k, from, to);
        lemma_entity_step(s[0], partly_escaped(s.drop_first(), (k - 1) as nat), k, from, to);
    }
}

proof fn lemma_escape_first(c: char, t: Seq<char>)
    ensures
        escape_ssml(seq![c] + t) == escape_char(c) + escape_ssml(t),
    decreases t.len(),
{
    let u = seq![c] + t;
    assert(u.len() > 0);
    assert(escape_ssml(u) == escape_ssml(u.drop_last()) + escape_char(u.last()));
    if t.len() == 0 {
        assert(u.drop_last() =~= Seq::<char>::empty());
        assert(u.last() == c);
        assert(escape_ssml(t) == Seq::<char>::empty());
        assert(escape_char(c) + Seq::<char>::empty() =~= escape_char(c));
        assert(Seq::<char>::empty() + escape_char(c) =~= escape_char(c));
    } else {
        lemma_escape_first(c, t.drop_last());
        assert(u.drop_last() =~= seq![c] + t.drop_last());
        assert(u.last() == t.last());
        assert(escape_ssml(t) == escape_ssml(t.drop_last()) + escape_char(t.last()));
        assert(escape_char(c) + escape_ssml(t.drop_last()) + escape_char(t.last()) =~= escape_char(c)
            + (escape_ssml(t.drop_last()) + escape_char(t.last())));
    }
}

proof fn lemma_partly_ends(s: Seq<char>)
    ensures
        partly_escaped(s, 0) == escape_ssml(s),
        partly_escaped(s, 5) == s,
    decreases s.len(),
{
    if s.len() > 0 {
        lemma_partly_ends(s.drop_first());
        assert(seq![s[0]] + s.drop_first() =~= s);
        lemma_escape_first(s[0], s.drop_first());
        assert(partly_escaped_char(s[0], 0) == escape_char(s[0]));
    } else {
        assert(escape_ssml(s) == Seq::<char>::empty());
    }
}

/// Decoding the entities of an escaped text gives the text back, where the
/// text holds no `&` (an `&` followed by an entity's name would be decoded
/// twice).
pub proof fn law_unescape_escape(s: Seq<char>)
    requires
        !s.contains('&'),
    ensures
        unescape_html(escape_ssml(s)) == s,
{
    lemma_reveal_entities();
    lemma_partly_ends(s);
    lemma_partly_step(s, 1, "&amp;"@, "&"@);
    lemma_partly_step(s, 2, "&lt;"@, "<"@);
    lemma_partly_step(s, 3, "&gt;"@, ">"@);
    lemma_partly_step(s, 4, "&quot;"@, "\""@);
    lemma_partly_step(s, 5, "&apos;"@, "'"@);
    assert forall|i: int| 0 <= i < s.len() implies #[trigger] s[i] != '&' by {
        if s[i] == '&' {
            assert(s.contains('&'));
        }
    }
    lemma_replace_skips(s, Seq::<char>::empty(), "&#39;"@, "'"@);
    lemma_replace_skips(s, Seq::<char>::empty(), "&nbsp;"@, " "@);
    assert(s + Seq::<char>::empty() =~= s);
}


/// The number of occurrences of `p` in `s`, found from left to right
/// without overlap, as `str::matches(p).count()` counts them.
pub open spec fn count_occ(s: Seq<char>, p: Seq<char>) -> nat
    decreases s.len(),
{
    if p.len() == 0 || s.len() == 0 {
        0
    } else if p.len() <= s.len() && s.take(p.len() as int) == p {
        1 + count_occ(s.skip(p.len() as int), p)
    } else {
        count_occ(s.drop_first(), p)
    }
}

/// The number of heading blocks among `blocks`.
pub open spec fn heading_count(blocks: Seq<BlockModel>) -> nat
    decreases blocks.len(),
{
    if blocks.len() == 0 {
        0
    } else {
        heading_count(blocks.drop_last()) + if blocks.last().kind == BlockKind::Heading {
            1nat
        } else {
            0nat
        }
    }
}

/// The number of items of `ts` equal to `p`.
pub open spec fn count_equal(ts: Seq<Seq<char>>, p: Seq<char>) -> nat
    decreases ts.len(),
{
    if ts.len() == 0 {
        0
    } else {
        (if ts[0] == p {
            1nat
        } else {
            0nat
        }) + count_equal(ts.drop_first(), p)
    }
}

/// `t` holds no `<`.
pub open spec fn no_lt(t: Seq<char>) -> bool {
    forall|i: int| 0 <= i < t.len() ==> #[trigger] t[i] != '<'
}

/// The SSML tags that the document is made of.
pub open spec fn is_ssml_tag(t: Seq<char>) -> bool {
    ||| t == SSML_HEADER@
    ||| t == SSML_FOOTER@
    ||| t == BREAK_BEFORE_HEADING@
    ||| t == BREAK_AFTER_HEADING@
    ||| t == BREAK_AFTER_BLOCK@
}

/// A piece of an SSML document: a tag, or text with no `<`.
pub open spec fn ssml_token(t: Seq<char>) -> bool {
    no_lt(t) || is_ssml_tag(t)
}

/// A heading pause tag.
pub open spec fn heading_pause(p: Seq<char>) -> bool {
    p == BREAK_BEFORE_HEADING@ || p == BREAK_AFTER_HEADING@
}

proof fn lemma_reveal_tags()
    ensures
        SSML_HEADER@.len() > 1 && SSML_HEADER@[0] == '<' && SSML_HEADER@[1] == 's',
        SSML_FOOTER@.len() > 1 && SSML_FOOTER@[0] == '<' && SSML_FOOTER@[1] == '/',
        BREAK_BEFORE_HEADING@.len() > 13 && BREAK_BEFORE_HEADING@[0] == '<' && BREAK_BEFORE_HEADING@[1] == 'b' && BREAK_BEFORE_HEADING@[13] == '8',
        BREAK_AFTER_HEADING@.len() > 13 && BREAK_AFTER_HEADING@[0] == '<' && BREAK_AFTER_HEADING@[1] == 'b' && BREAK_AFTER_HEADING@[13] == '5',
        BREAK_AFTER_BLOCK@.len() > 13 && BREAK_AFTER_BLOCK@[0] == '<' && BREAK_AFTER_BLOCK@[1] == 'b' && BREAK_AFTER_BLOCK@[13] == '3',
        no_lt(SSML_HEADER@.drop_first()),
        no_lt(SSML_FOOTER@.drop_first()),
        no_lt(BREAK_BEFORE_HEADING@.drop_first()),
        no_lt(BREAK_AFTER_HEADING@.drop_first()),
        no_lt(BREAK_AFTER_BLOCK@.drop_first()),
        no_lt("\n"@),
{
    reveal_strlit("<speak version=\"1.0\" xmlns=\"http://www.w3.org/2001/10/synthesis\" xml:lang=\"zh-CN\">");
    reveal_strlit("</speak>");
    reveal_strlit("<break time=\"800ms\"/>");
    reveal_strlit("<break time=\"500ms\"/>");
    reveal_strlit("<break time=\"300ms\"/>");
    reveal_strlit("\n");
}

proof fn lemma_count_skips(x: Seq<char>, y: Seq<char>, p: Seq<char>)
    requires
        p.len() > 0,
        forall|i: int| 0 <= i < x.len() ==> #[trigger] x[i] != p[0],
    ensures
        count_occ(x + y, p) == count_occ(y, p),
    decreases x.len(),
{
    if x.len() == 0 {
        assert(x + y =~= y);
    } else {
        let xy = x + y;
        assert(xy[0] == x[0]);
        if p.len() <= xy.len() {
            assert(xy.take(p.len() as int)[0] == xy[0]);
        }
        assert(xy.drop_first() =~= x.drop_first() + y);
        assert forall|i: int| 0 <= i < x.drop_first().len() implies #[trigger] x.drop_first()[i]
            != p[0] by {
            assert(x.drop_first()[i] == x[i + 1]);
        }
        lemma_count_skips(x.drop_first(), y, p);
    }
}

proof fn lemma_count_token(t: Seq<char>, rest: Seq<char>, p: Seq<char>)
    requires
        ssml_token(t),
        heading_pause(p),
    ensures
        count_occ(t + rest, p) == (if t == p {
            1nat
        } else {
            0nat
        }) + count_occ(rest, p),
{
    lemma_reveal_tags();
    let tr = t + rest;
    if no_lt(t) {
        assert(t != p) by {
            if t == p {
                assert(t[0] == '<');
            }
        }
        lemma_count_skips(t, rest, p);
    } else if t == p {
        assert(tr.take(p.len() as int) =~= p);
        assert(tr.skip(p.len() as int) =~= rest);
    } else {
        let j: int = if t == SSML_HEADER@ || t == SSML_FOOTER@ {
            1
        } else {
            13
        };
        assert(t[j] != p[j]);
        if p.len() <= tr.len() {
            assert(tr.take(p.len() as int)[j] == t[j]);
        }
        let q = t.drop_first();
        assert forall|i: int| 0 <= i < q.len() implies #[trigger] q[i] != p[0] by {
            assert(no_lt(q));
        }
        assert(tr.drop_first() =~= q + rest);
        lemma_count_skips(q, rest, p);
    }
}

proof fn lemma_count_tokens(ts: Seq<Seq<char>>, p: Seq<char>)
    requires
        forall|i: int| 0 <= i < ts.len() ==> ssml_token(#[trigger] ts[i]),
        heading_pause(p),
    ensures
        count_occ(concat(ts), p) == count_equal(ts, p),
    decreases ts.len(),
{
    if ts.len() == 0 {
        lemma_reveal_tags();
        assert(concat(ts) == Seq::<char>::empty());
    } else {
        let rest = ts.drop_first();
        assert forall|i: int| 0 <= i < rest.len() implies ssml_token(#[trigger] rest[i]) by {
            assert(rest[i] == ts[i + 1]);
        }
        lemma_count_tokens(rest, p);
        assert(ts =~= seq![ts[0]] + rest);
        lemma_concat_append(seq![ts[0]], rest);
        lemma_concat_single(ts[0]);
        assert(ssml_token(ts[0]));
        lemma_count_token(ts[0], concat(rest), p);
    }
}

proof fn lemma_count_equal_append(a: Seq<Seq<char>>, b: Seq<Seq<char>>, p: Seq<char>)
    ensures
        count_equal(a + b, p) == count_equal(a, p) + count_equal(b, p),
    decreases a.len(),
{
    if a.len() == 0 {
        assert(a + b =~= b);
    } else {
        assert((a + b).drop_first() =~= a.drop_first() + b);
        assert((a + b)[0] == a[0]);
        lemma_count_equal_append(a.drop_first(), b, p);
    }
}

proof fn lemma_count_equal_single(t: Seq<char>, p: Seq<char>)
    ensures
        count_equal(seq![t], p) == if t == p {
            1nat
        } else {
            0nat
        },
{
    assert(seq![t].drop_first() =~= Seq::<Seq<char>>::empty());
    assert(count_equal(Seq::<Seq<char>>::empty(), p) == 0);
}

/// The pieces of `parts` with `sep` between each two.
pub open spec fn interleave(parts: Seq<Seq<char>>, sep: Seq<char>) -> Seq<Seq<char>>
    decreases parts.len(),
{
    if parts.len() <= 1 {
        parts
    } else {
        interleave(parts.drop_last(), sep) + seq![sep, parts.last()]
    }
}

proof fn lemma_interleave(parts: Seq<Seq<char>>, sep: Seq<char>, p: Seq<char>)
    requires
        forall|i: int| 0 <= i < parts.len() ==> ssml_token(#[trigger] parts[i]),
        ssml_token(sep),
        sep != p,
    ensures
        concat(interleave(parts, sep)) == join(parts, sep),
        count_equal(interleave(parts, sep), p) == count_equal(parts, p),
        forall|i: int| 0 <= i < interleave(parts, sep).len() ==> ssml_token(#[trigger] interleave(parts, sep)[i]),
    decreases parts.len(),
{
    if parts.len() == 0 {
        assert(concat(parts) == Seq::<char>::empty());
    } else if parts.len() == 1 {
        lemma_concat_single(parts[0]);
        assert(parts =~= seq![parts[0]]);
    } else {
        let dl = parts.drop_last();
        assert forall|i: int| 0 <= i < dl.len() implies ssml_token(#[trigger] dl[i]) by {
            assert(dl[i] == parts[i]);
        }
        lemma_interleave(dl, sep, p);
        let il = interleave(dl, sep);
        let tail = seq![sep, parts.last()];
        lemma_concat_append(il, tail);
        assert(tail.drop_last() =~= seq![sep]);
        lemma_concat_single(sep);
        assert(concat(tail) == sep + parts.last());
        assert(join(dl, sep) + (sep + parts.last()) =~= join(dl, sep) + sep + parts.last());
        lemma_count_equal_append(il, tail, p);
        assert(parts =~= dl + seq![parts.last()]);
        lemma_count_equal_append(dl, seq![parts.last()], p);
        assert(tail.drop_first() =~= seq![parts.last()]);
        assert(seq![parts.last()].drop_first() =~= Seq::<Seq<char>>::empty());
        assert(ssml_token(parts[parts.len() - 1]));
        assert forall|i: int| 0 <= i < (il + tail).len() implies ssml_token(#[trigger] (il + tail)[i]) by {
            if i < il.len() {
                assert((il + tail)[i] == il[i]);
            } else if i == il.len() {
                assert((il + tail)[i] == sep);
            } else {
                assert((il + tail)[i] == parts[parts.len() - 1]);
            }
        }
    }
}

proof fn lemma_escaped_token(s: Seq<char>)
    ensures
        no_lt(escape_ssml(s)),
        ssml_token(escape_ssml(s)),
{
    law_escape_markup_free(s);
    let e = escape_ssml(s);
    assert forall|i: int| 0 <= i < e.len() implies #[trigger] e[i] != '<' by {
        assert(markup_free(e));
    }
}

proof fn lemma_ssml_parts(blocks: Seq<BlockModel>, p: Seq<char>)
    requires
        heading_pause(p),
    ensures
        forall|i: int| 0 <= i < ssml_parts(blocks).len() ==> ssml_token(#[trigger] ssml_parts(blocks)[i]),
        count_equal(ssml_parts(blocks), p) == heading_count(blocks),
    decreases blocks.len(),
{
    lemma_reveal_tags();
    if blocks.len() == 0 {
        assert(count_equal(Seq::<Seq<char>>::empty(), p) == 0);
    } else {
        lemma_ssml_parts(blocks.drop_last(), p);
        let a = ssml_parts(blocks.drop_last());
        let b = blocks.last();
        let bp = ssml_block_parts(b);
        lemma_escaped_token(trim(b.content));
        lemma_escaped_token(SKIP_CODE@);
        lemma_escaped_token(SKIP_MATH@);
        lemma_escaped_token(SKIP_TABLE@);
        lemma_escaped_token(IMAGE_OPEN@ + trim(b.content) + IMAGE_CLOSE@);
        assert forall|i: int| 0 <= i < bp.len() implies ssml_token(#[trigger] bp[i]) by {
        }
        lemma_count_equal_append(a, bp, p);
        assert forall|i: int| 0 <= i < (a + bp).len() implies ssml_token(#[trigger] (a + bp)[i]) by {
            if i < a.len() {
                assert((a + bp)[i] == a[i]);
            } else {
                assert((a + bp)[i] == bp[i - a.len()]);
            }
        }
        assert forall|t: Seq<char>| no_lt(t) implies t != p by {
            if t == p {
                assert(t[0] == '<');
            }
        }
        if b.kind == BlockKind::Heading {
            let e = escape_ssml(trim(b.content));
            assert(bp =~= seq![BREAK_BEFORE_HEADING@] + seq![e] + seq![BREAK_AFTER_HEADING@]);
            lemma_count_equal_append(seq![BREAK_BEFORE_HEADING@] + seq![e], seq![BREAK_AFTER_HEADING@], p);
            lemma_count_equal_append(seq![BREAK_BEFORE_HEADING@], seq![e], p);
            lemma_count_equal_single(BREAK_BEFORE_HEADING@, p);
            lemma_count_equal_single(e, p);
            lemma_count_equal_single(BREAK_AFTER_HEADING@, p);
            assert(e != p) by {
                if e == p {
                    assert(e[0] == '<');
                }
            }
            assert(BREAK_BEFORE_HEADING@ != BREAK_AFTER_HEADING@) by {
                assert(BREAK_BEFORE_HEADING@[13] != BREAK_AFTER_HEADING@[13]);
            }
            assert(count_equal(bp, p) == 1);
        } else {
            assert(BREAK_AFTER_BLOCK@ != p) by {
                assert(BREAK_AFTER_BLOCK@[13] != p[13]);
            }
            if bp.len() == 2 {
                assert(bp =~= seq![bp[0]] + seq![bp[1]]);
                lemma_count_equal_append(seq![bp[0]], seq![bp[1]], p);
                lemma_count_equal_single(bp[0], p);
                lemma_count_equal_single(bp[1], p);
            } else if bp.len() == 1 {
                assert(bp =~= seq![bp[0]]);
                lemma_count_equal_single(bp[0], p);
                assert(no_lt(bp[0]));
            } else {
                assert(bp.len() == 0);
            }
            assert(count_equal(bp, p) == 0);
        }
    }
}

/// The SSML document pauses once before and once after each heading, and
/// nowhere else with those pauses: each of the two heading pause tags
/// occurs in it as many times as the article has headings.
pub proof fn law_ssml_heading_pauses(blocks: Seq<BlockModel>, p: Seq<char>)
    requires
        heading_pause(p),
    ensures
        count_occ(ssml_text(blocks), p) == heading_count(blocks),
{
    lemma_reveal_tags();
    let nl = "\n"@;
    assert(ssml_token(nl));
    assert(nl != p) by {
        assert(p.len() > 13);
    }
    assert(ssml_token(SSML_HEADER@) && ssml_token(SSML_FOOTER@));
    assert(SSML_HEADER@ != p) by {
        assert(SSML_HEADER@[1] != p[1]);
    }
    assert(SSML_FOOTER@ != p) by {
        assert(SSML_FOOTER@[1] != p[1]);
    }
    if blocks.len() == 0 {
        let ts = seq![SSML_HEADER@, SSML_FOOTER@];
        lemma_count_tokens(ts, p);
        assert(ts.drop_last() =~= seq![SSML_HEADER@]);
        lemma_concat_single(SSML_HEADER@);
        assert(ts =~= seq![SSML_HEADER@] + seq![SSML_FOOTER@]);
        lemma_count_equal_append(seq![SSML_HEADER@], seq![SSML_FOOTER@], p);
        lemma_count_equal_single(SSML_HEADER@, p);
        lemma_count_equal_single(SSML_FOOTER@, p);
        assert(heading_count(blocks) == 0);
    } else {
        let parts = ssml_parts(blocks);
        lemma_ssml_parts(blocks, p);
        lemma_interleave(parts, nl, p);
        let mid = interleave(parts, nl);
        let head = seq![SSML_HEADER@, nl];
        let foot = seq![nl, SSML_FOOTER@];
        let ts = head + mid + foot;
        assert forall|i: int| 0 <= i < ts.len() implies ssml_token(#[trigger] ts[i]) by {
            if i < 2 {
                assert(ts[i] == head[i]);
            } else if i < 2 + mid.len() {
                assert(ts[i] == mid[i - 2]);
            } else {
                assert(ts[i] == foot[i - 2 - mid.len()]);
            }
        }
        lemma_count_tokens(ts, p);
        lemma_concat_append(head + mid, foot);
        lemma_concat_append(head, mid);
        assert(head.drop_last() =~= seq![SSML_HEADER@]);
        lemma_concat_single(SSML_HEADER@);
        assert(foot.drop_last() =~= seq![nl]);
        lemma_concat_single(nl);
        assert(concat(ts) =~= ssml_text(blocks));
        lemma_count_equal_append(head + mid, foot, p);
        lemma_count_equal_append(head, mid, p);
        assert(head =~= seq![SSML_HEADER@] + seq![nl]);
        lemma_count_equal_append(seq![SSML_HEADER@], seq![nl], p);
        assert(foot =~= seq![nl] + seq![SSML_FOOTER@]);
        lemma_count_equal_append(seq![nl], seq![SSML_FOOTER@], p);
        lemma_count_equal_single(SSML_HEADER@, p);
        lemma_count_equal_single(SSML_FOOTER@, p);
        lemma_count_equal_single(nl, p);
    }
}


/// The punctuation that may stand next to an emphasis marker, listed.
pub open spec fn emphasis_neighbours() -> Seq<char> {
    seq![
        '.', ',', '!', '?', ';', ':', '"', '\'', '。', '，', '！', '？', '；', '：', '\u{201C}',
        '\u{201D}', '\u{2018}', '\u{2019}',
    ]
}

proof fn lemma_marks_word(s: Seq<char>, w: Seq<char>, a: int, j: int)
    requires
        0 <= a,
        a + w.len() <= s.len(),
        s.subrange(a, a + w.len()) == w,
        forall|i: int| 0 <= i < w.len() ==> #[trigger] w[i] != '*' && w[i] != '_',
        0 <= j <= w.len(),
    ensures
        strip_marks_from(s, a + j) == w.skip(j) + strip_marks_from(s, a + w.len()),
    decreases w.len() - j,
{
    if j == w.len() {
        assert(w.skip(j) + strip_marks_from(s, a + w.len()) =~= strip_marks_from(s, a + w.len()));
    } else {
        assert(s[a + j] == s.subrange(a, a + w.len())[j]);
        assert(marker_span(s, a + j) == 0);
        lemma_marks_word(s, w, a, j + 1);
        assert(seq![w[j]] + (w.skip(j + 1) + strip_marks_from(s, a + w.len())) =~= w.skip(j)
            + strip_marks_from(s, a + w.len()));
    }
}

/// A word in double emphasis markers between punctuation loses its
/// markers: `p**w**q` reads `pwq`, for any punctuation `p` and `q` of the
/// list and any word `w` without whitespace or markers.
pub proof fn law_emphasis_pair_dropped(p: char, w: Seq<char>, q: char)
    requires
        emphasis_neighbours().contains(p),
        emphasis_neighbours().contains(q),
        w.len() > 0,
        forall|i: int| 0 <= i < w.len() ==> !is_ws(#[trigger] w[i]) && w[i] != '*' && w[i] != '_',
    ensures
        strip_marks(seq![p] + seq!['*', '*'] + w + seq!['*', '*'] + seq![q]) == seq![p] + w + seq![q],
{
    let l = emphasis_neighbours();
    let ip = choose|i: int| 0 <= i < l.len() && l[i] == p;
    let iq = choose|i: int| 0 <= i < l.len() && l[i] == q;
    assert(is_punct(p) && p != '*' && p != '_' && !is_ws(p)) by {
        assert(l[ip] == p);
    }
    assert(is_punct(q) && q != '*' && q != '_' && !is_ws(q)) by {
        assert(l[iq] == q);
    }
    let m = w.len() as int;
    let s = seq![p] + seq!['*', '*'] + w + seq!['*', '*'] + seq![q];
    assert(s.len() == m + 6);
    assert(s[0] == p && s[1] == '*' && s[2] == '*' && s[3] == w[0]);
    assert(s[m + 3] == '*' && s[m + 4] == '*' && s[m + 5] == q && s[m + 2] == w[m - 1]);
    assert(s.subrange(3, 3 + m) =~= w);
    assert(marker_span(s, 0) == 0);
    assert(marker_span(s, 1) == 2);
    lemma_marks_word(s, w, 3, 0);
    assert(w.skip(0) =~= w);
    assert(marker_span(s, m + 3) == 2);
    assert(marker_span(s, m + 5) == 0);
    assert(strip_marks_from(s, m + 6) == Seq::<char>::empty());
    assert(strip_marks_from(s, m + 5) =~= seq![q]);
    assert(strip_marks_from(s, m + 3) == seq![q]);
    assert(strip_marks_from(s, 1) == strip_marks_from(s, 3));
    assert(strip_marks(s) == seq![p] + strip_marks_from(s, 1));
    assert(seq![p] + (w + seq![q]) =~= seq![p] + w + seq![q]);
}

} // verus!
