//! Splitting an article into sections at its top-level headings, and safe
//! file names for the sections.

use crate::parser::{
    block_models, BlockKind, BlockModel, ContentBlock, ParsedArticle,
};
use crate::preprocess::{preprocess, preprocess_ssml, reading_text, ssml_text};
use crate::rewrite::{name_char, regex_replace_all, NAME_FILTER_PATTERN};
use crate::text::{chars_equal, chars_of, string_of, trim, trim_chars};
use vstd::prelude::*;

verus! {

/// The title of the part before the first section heading.
pub const OPENING_TITLE: &'static str = "开头";

/// The name given to a section whose title keeps no usable character.
pub const UNTITLED: &'static str = "untitled";

/// A heading of level 1 or 2 starts a section.
pub open spec fn starts_section(b: BlockModel) -> bool {
    b.kind == BlockKind::Heading && b.level <= 2
}

/// The state of the grouping after some blocks: the finished sections,
/// the title of the current one and its blocks so far.
pub struct GroupState {
    pub done: Seq<(Seq<char>, Seq<BlockModel>)>,
    pub title: Seq<char>,
    pub current: Seq<BlockModel>,
}

/// The grouping after one more block: a section heading closes the current
/// section (where it has blocks) and opens a new one titled with the
/// heading's trimmed text, of which the heading is the first block; any
/// other block joins the current section.
pub open spec fn group_step(st: GroupState, b: BlockModel) -> GroupState {
    if starts_section(b) {
        GroupState {
            done: if st.current.len() > 0 {
                st.done.push((st.title, st.current))
            } else {
                st.done
            },
            title: trim(b.content),
            current: seq![b],
        }
    } else {
        GroupState { done: st.done, title: st.title, current: st.current.push(b) }
    }
}

/// The grouping after `blocks`.
pub open spec fn group_state(blocks: Seq<BlockModel>) -> GroupState
    decreases blocks.len(),
{
    if blocks.len() == 0 {
        GroupState { done: seq![], title: OPENING_TITLE@, current: seq![] }
    } else {
        group_step(group_state(blocks.drop_last()), blocks.last())
    }
}

/// The sections of `blocks`, each with its title and its blocks.
pub open spec fn sections_of(blocks: Seq<BlockModel>) -> Seq<(Seq<char>, Seq<BlockModel>)> {
    let st = group_state(blocks);
    if st.current.len() > 0 {
        st.done.push((st.title, st.current))
    } else {
        st.done
    }
}

/// The sections, each with its reading text, of which those with a blank
/// text are left out.
pub open spec fn nonblank_section_texts(secs: Seq<(Seq<char>, Seq<BlockModel>)>) -> Seq<
    (Seq<char>, Seq<char>),
>
    decreases secs.len(),
{
    if secs.len() == 0 {
        seq![]
    } else {
        let text = reading_text(secs.last().1);
        nonblank_section_texts(secs.drop_last()) + if trim(text).len() == 0 {
            seq![]
        } else {
            seq![(secs.last().0, text)]
        }
    }
}

/// The sections of an article with their reading texts: none where it has
/// no blocks; the article's own title and the text of all its blocks where
/// it has no section heading; otherwise each section with a text that is
/// not blank.
pub open spec fn section_texts(title: Seq<char>, blocks: Seq<BlockModel>) -> Seq<
    (Seq<char>, Seq<char>),
> {
    let secs = sections_of(blocks);
    if secs.len() == 0 {
        seq![]
    } else if secs.len() == 1 && secs[0].0 == OPENING_TITLE@ {
        seq![(title, reading_text(secs[0].1))]
    } else {
        nonblank_section_texts(secs)
    }
}

/// The text read for the blocks of a section: its SSML document where
/// `ssml` is set, else its reading text.
pub open spec fn section_text_as(blocks: Seq<BlockModel>, ssml: bool) -> Seq<char> {
    if ssml {
        ssml_text(blocks)
    } else {
        reading_text(blocks)
    }
}

/// The sections whose reading text is not blank, each with its title and
/// the text read for it.
pub open spec fn nonblank_sections_as(secs: Seq<(Seq<char>, Seq<BlockModel>)>, ssml: bool) -> Seq<
    (Seq<char>, Seq<char>),
>
    decreases secs.len(),
{
    if secs.len() == 0 {
        seq![]
    } else {
        nonblank_sections_as(secs.drop_last(), ssml) + if trim(reading_text(secs.last().1)).len()
            == 0 {
            seq![]
        } else {
            seq![(secs.last().0, section_text_as(secs.last().1, ssml))]
        }
    }
}

/// The sections of an article with the text read for each: as in
/// `section_texts`, with the SSML document of each section in place of its
/// reading text where `ssml` is set (which sections are read still goes by
/// their reading text).
pub open spec fn section_texts_as(title: Seq<char>, blocks: Seq<BlockModel>, ssml: bool) -> Seq<
    (Seq<char>, Seq<char>),
> {
    let secs = sections_of(blocks);
    if secs.len() == 0 {
        seq![]
    } else if secs.len() == 1 && secs[0].0 == OPENING_TITLE@ {
        seq![(title, section_text_as(secs[0].1, ssml))]
    } else {
        nonblank_sections_as(secs, ssml)
    }
}

proof fn lemma_nonblank_sections_plain(secs: Seq<(Seq<char>, Seq<BlockModel>)>)
    ensures
        nonblank_sections_as(secs, false) == nonblank_section_texts(secs),
    decreases secs.len(),
{
    if secs.len() > 0 {
        lemma_nonblank_sections_plain(secs.drop_last());
    }
}

/// The views of a list of title and text pairs.
pub open spec fn pair_views(v: Seq<(String, String)>) -> Seq<(Seq<char>, Seq<char>)> {
    v.map_values(|p: (String, String)| (p.0@, p.1@))
}

/// The views of sections under construction.
pub open spec fn section_views(v: Seq<(Vec<char>, Vec<ContentBlock>)>) -> Seq<
    (Seq<char>, Seq<BlockModel>),
> {
    v.map_values(|p: (Vec<char>, Vec<ContentBlock>)| (p.0@, block_models(p.1@)))
}

/// The reading text of a list of blocks, and the text read for them.
fn texts_of_blocks(blocks: Vec<ContentBlock>, title: &String, article: &ParsedArticle, ssml: bool) -> (res: (String, String))
    ensures
        res.0@ == reading_text(block_models(blocks@)),
        res.1@ == section_text_as(block_models(blocks@), ssml),
{
    let stub = ParsedArticle {
        title: title.clone(),
        blocks,
        source_format: article.source_format,
    };
    let plain = preprocess(&stub);
    let read = if ssml {
        preprocess_ssml(&stub)
    } else {
        plain.clone()
    };
    (plain, read)
}

/// Splits an article at its headings of level 1 and 2. Each such heading
/// opens a section titled with its trimmed text; the blocks before the
/// first one form a section titled "开头". Where that is the only section,
/// the result is the article's title with the text of all its blocks;
/// otherwise it is each section's title with its reading text, leaving out
/// sections whose text is blank. An article without blocks has no
/// sections.
pub fn split_by_sections(article: &ParsedArticle) -> (res: Vec<(String, String)>)
    ensures
        pair_views(res@) == section_texts(article@.title, article@.blocks),
{
    let res = split_sections_as(article, false);
    proof {
        lemma_nonblank_sections_plain(sections_of(article@.blocks));
    }
    res
}

/// Splits an article into sections as `split_by_sections` does, with the
/// SSML document of each section, pauses included, in place of its reading
/// text.
pub fn split_by_sections_ssml(article: &ParsedArticle) -> (res: Vec<(String, String)>)
    ensures
        pair_views(res@) == section_texts_as(article@.title, article@.blocks, true),
{
    split_sections_as(article, true)
}

/// The sections of an article with the text read for each.
fn split_sections_as(article: &ParsedArticle, ssml: bool) -> (res: Vec<(String, String)>)
    ensures
        pair_views(res@) == section_texts_as(article@.title, article@.blocks, ssml),
{
    let ghost bm = article@.blocks;
    let mut sections: Vec<(Vec<char>, Vec<ContentBlock>)> = Vec::new();
    let mut current_title = chars_of(OPENING_TITLE);
    let mut current_blocks: Vec<ContentBlock> = Vec::new();
    let mut i: usize = 0;
    assert(bm.take(0) =~= seq![]);
    assert(section_views(sections@) =~= seq![]);
    assert(block_models(current_blocks@) =~= seq![]);
    while i < article.blocks.len()
        invariant
            i <= article.blocks.len(),
            bm == article@.blocks,
            group_state(bm.take(i as int)) == (GroupState {
                done: section_views(sections@),
                title: current_title@,
                current: block_models(current_blocks@),
            }),
        decreases article.blocks.len() - i,
    {
        assert(bm.take(i + 1).drop_last() =~= bm.take(i as int));
        assert(bm.take(i + 1).last() == article.blocks@[i as int]@);
        let block = &article.blocks[i];
        if block.kind == BlockKind::Heading && block.level <= 2 {
            if current_blocks.len() > 0 {
                let finished = (current_title, current_blocks);
                assert(section_views(sections@.push(finished)) =~= section_views(sections@).push(
                    (finished.0@, block_models(finished.1@)),
                ));
                sections.push(finished);
            }
            current_title = trim_chars(&chars_of(block.content.as_str()));
            current_blocks = Vec::new();
            let b = block.clone();
            current_blocks.push(b);
            assert(block_models(current_blocks@) =~= seq![b@]);
        } else {
            let b = block.clone();
            let ghost before = current_blocks@;
            current_blocks.push(b);
            assert(block_models(current_blocks@) =~= block_models(before).push(b@));
        }
        i += 1;
    }
    assert(bm.take(article.blocks.len() as int) =~= bm);
    if current_blocks.len() > 0 {
        let finished = (current_title, current_blocks);
        assert(section_views(sections@.push(finished)) =~= section_views(sections@).push(
            (finished.0@, block_models(finished.1@)),
        ));
        sections.push(finished);
    }
    let ghost secs = section_views(sections@);
    assert(secs == sections_of(bm));
    let mut result: Vec<(String, String)> = Vec::new();
    if sections.len() == 0 {
        assert(pair_views(result@) =~= seq![]);
        return result;
    }
    if sections.len() == 1 && chars_equal(&sections[0].0, &chars_of(OPENING_TITLE)) {
        let ghost first = sections@[0];
        let only = sections.pop().unwrap();
        assert(only == first);
        let (_, text) = texts_of_blocks(only.1, &article.title, article, ssml);
        let title = article.title.clone();
        result.push((title, text));
        assert(pair_views(result@) =~= seq![(article@.title, section_text_as(secs[0].1, ssml))]);
        return result;
    }
    let mut j: usize = 0;
    while j < sections.len()
        invariant
            j <= sections.len(),
            secs == section_views(sections@),
            pair_views(result@) == nonblank_sections_as(secs.take(j as int), ssml),
        decreases sections.len() - j,
    {
        assert(secs.take(j + 1).drop_last() =~= secs.take(j as int));
        assert(secs.take(j + 1).last() == secs[j as int]);
        let title = string_of(&sections[j].0);
        let mut blocks: Vec<ContentBlock> = Vec::new();
        let mut k: usize = 0;
        while k < sections[j].1.len()
            invariant
                k <= sections@[j as int].1.len(),
                j < sections.len(),
                block_models(blocks@) == block_models(sections@[j as int].1@).take(k as int),
            decreases sections@[j as int].1.len() - k,
        {
            let b = sections[j].1[k].clone();
            assert(block_models(sections@[j as int].1@)[k as int] == sections@[j as int].1@[k as int]@);
            proof {
                crate::parser::lemma_block_models_push(blocks@, b);
            }
            blocks.push(b);
            assert(block_models(blocks@) =~= block_models(sections@[j as int].1@).take(k + 1));
            k += 1;
        }
        assert(block_models(sections@[j as int].1@).take(k as int) =~= block_models(
            sections@[j as int].1@,
        ));
        let (plain, text) = texts_of_blocks(blocks, &title, article, ssml);
        let trimmed = trim_chars(&chars_of(plain.as_str()));
        if trimmed.len() > 0 {
            let ghost before = pair_views(result@);
            result.push((title, text));
            assert(pair_views(result@) =~= before + seq![(secs[j as int].0, text@)]);
        } else {
            assert(pair_views(result@) =~= pair_views(result@) + seq![]);
        }
        j += 1;
    }
    assert(secs.take(sections.len() as int) =~= secs);
    result
}

/// The safe file name made from `name`: its first `max_len` characters,
/// keeping only characters that may stand in a file name, or "untitled"
/// where none is left.
pub open spec fn safe_file_name(name: Seq<char>, max_len: nat) -> Seq<char> {
    let cut = if name.len() <= max_len {
        name
    } else {
        name.take(max_len as int)
    };
    let kept = cut.filter(|c: char| name_char(c));
    if kept.len() == 0 {
        UNTITLED@
    } else {
        kept
    }
}

/// Makes a file name from a section title: the title's first `max_len`
/// characters, without any character but word characters (letters, digits,
/// marks, `_`), CJK ideographs and `-`; "untitled" where none is left.
pub fn sanitize_filename(name: &str, max_len: usize) -> (res: String)
    ensures
        res@ == safe_file_name(name@, max_len as nat),
{
    let chars = chars_of(name);
    let cut_len = if chars.len() <= max_len {
        chars.len()
    } else {
        max_len
    };
    let mut cut: Vec<char> = Vec::new();
    let mut i: usize = 0;
    while i < cut_len
        invariant
            i <= cut_len <= chars.len(),
            cut@ == chars@.take(i as int),
        decreases cut_len - i,
    {
        cut.push(chars[i]);
        i += 1;
        assert(cut@ =~= chars@.take(i as int));
    }
    proof {
        reveal_strlit("");
        if name@.len() <= max_len {
            assert(chars@.take(cut_len as int) =~= name@);
        }
    }
    let cleaned = regex_replace_all(NAME_FILTER_PATTERN, string_of(&cut).as_str(), "");
    proof {
        let f1 = |c: char| name_char(c);
        let f2 = |c: char|
            if (c as u32) < 128 {
                crate::rewrite::ascii_name_char(c)
            } else {
                ('\u{4e00}' <= c && c <= '\u{9fff}') || crate::rewrite::unicode_word_char(c)
            };
        assert(f1 =~= f2);
    }
    let cleaned_chars = chars_of(cleaned.as_str());
    if cleaned_chars.len() == 0 {
        string_of(&chars_of(UNTITLED))
    } else {
        cleaned
    }
}

/// The blocks of `secs`, section after section.
pub open spec fn blocks_of_sections(secs: Seq<(Seq<char>, Seq<BlockModel>)>) -> Seq<BlockModel>
    decreases secs.len(),
{
    if secs.len() == 0 {
        seq![]
    } else {
        blocks_of_sections(secs.drop_last()) + secs.last().1
    }
}

proof fn lemma_blocks_of_sections_push(secs: Seq<(Seq<char>, Seq<BlockModel>)>, s: (Seq<char>, Seq<BlockModel>))
    ensures
        blocks_of_sections(secs.push(s)) == blocks_of_sections(secs) + s.1,
{
    assert(secs.push(s).drop_last() =~= secs);
}

proof fn lemma_group_state(blocks: Seq<BlockModel>)
    ensures
        blocks_of_sections(group_state(blocks).done) + group_state(blocks).current == blocks,
        forall|i: int|
            0 <= i < group_state(blocks).done.len() ==> (#[trigger] group_state(blocks).done[i]).1.len() > 0,
        blocks.len() > 0 ==> group_state(blocks).current.len() > 0,
    decreases blocks.len(),
{
    if blocks.len() == 0 {
        assert(blocks_of_sections(Seq::<(Seq<char>, Seq<BlockModel>)>::empty()) + Seq::<BlockModel>::empty() =~= blocks);
    } else {
        lemma_group_state(blocks.drop_last());
        let st = group_state(blocks.drop_last());
        let b = blocks.last();
        assert(blocks.drop_last().push(b) =~= blocks);
        if starts_section(b) {
            if st.current.len() > 0 {
                lemma_blocks_of_sections_push(st.done, (st.title, st.current));
                assert(blocks_of_sections(st.done) + st.current + seq![b] =~= blocks);
            } else {
                assert(blocks_of_sections(st.done) + seq![b] =~= blocks);
            }
        } else {
            assert(blocks_of_sections(st.done) + st.current.push(b) =~= blocks);
        }
    }
}

/// Sections partition the article: taken in order, their blocks are the
/// article's blocks, and no section is empty.
pub proof fn law_sections_partition(blocks: Seq<BlockModel>)
    ensures
        blocks_of_sections(sections_of(blocks)) == blocks,
        forall|i: int|
            0 <= i < sections_of(blocks).len() ==> (#[trigger] sections_of(blocks)[i]).1.len() > 0,
{
    lemma_group_state(blocks);
    let st = group_state(blocks);
    if st.current.len() > 0 {
        lemma_blocks_of_sections_push(st.done, (st.title, st.current));
    } else {
        assert(blocks_of_sections(st.done) + st.current =~= blocks_of_sections(st.done));
    }
}

proof fn lemma_nonblank_texts(secs: Seq<(Seq<char>, Seq<BlockModel>)>)
    ensures
        forall|i: int|
            0 <= i < nonblank_section_texts(secs).len() ==> trim(
                (#[trigger] nonblank_section_texts(secs)[i]).1,
            ).len() > 0,
    decreases secs.len(),
{
    if secs.len() > 0 {
        lemma_nonblank_texts(secs.drop_last());
        let a = nonblank_section_texts(secs.drop_last());
        let text = reading_text(secs.last().1);
        let b: Seq<(Seq<char>, Seq<char>)> = if trim(text).len() == 0 {
            seq![]
        } else {
            seq![(secs.last().0, text)]
        };
        assert(nonblank_section_texts(secs) == a + b);
        assert forall|i: int| 0 <= i < (a + b).len() implies trim((#[trigger] (a + b)[i]).1).len()
            > 0 by {
            if i < a.len() {
                assert((a + b)[i] == a[i]);
            } else {
                assert((a + b)[i] == b[i - a.len()]);
            }
        }
    }
}

/// Where an article has section headings, every section that is read has a
/// text that is not blank.
pub proof fn law_sections_have_text(title: Seq<char>, blocks: Seq<BlockModel>)
    requires
        !(sections_of(blocks).len() == 1 && sections_of(blocks)[0].0 == OPENING_TITLE@),
    ensures
        forall|i: int|
            0 <= i < section_texts(title, blocks).len() ==> trim(
                (#[trigger] section_texts(title, blocks)[i]).1,
            ).len() > 0,
{
    lemma_nonblank_texts(sections_of(blocks));
}

/// `r` is `s` with some of its items left out, the others kept in order.
pub open spec fn is_subsequence(r: Seq<Seq<char>>, s: Seq<Seq<char>>) -> bool
    decreases s.len(),
{
    if r.len() == 0 {
        true
    } else if s.len() == 0 {
        false
    } else if r.last() == s.last() {
        is_subsequence(r.drop_last(), s.drop_last())
    } else {
        is_subsequence(r, s.drop_last())
    }
}

proof fn lemma_subsequence_push(r: Seq<Seq<char>>, s: Seq<Seq<char>>, x: Seq<char>)
    requires
        is_subsequence(r, s),
    ensures
        is_subsequence(r, s.push(x)),
    decreases s.len(), 1int,
{
    assert(s.push(x).drop_last() =~= s);
    if r.len() > 0 && r.last() == x {
        lemma_subsequence_drop_last(r, s);
    }
}

proof fn lemma_subsequence_drop_last(r: Seq<Seq<char>>, s: Seq<Seq<char>>)
    requires
        is_subsequence(r, s),
        r.len() > 0,
    ensures
        is_subsequence(r.drop_last(), s),
    decreases s.len(), 0int,
{
    let t = s.drop_last();
    assert(t.push(s.last()) =~= s);
    if r.last() == s.last() {
        lemma_subsequence_push(r.drop_last(), t, s.last());
    } else {
        lemma_subsequence_drop_last(r, t);
        lemma_subsequence_push(r.drop_last(), t, s.last());
    }
}

proof fn lemma_subsequence_trans(a: Seq<Seq<char>>, b: Seq<Seq<char>>, c: Seq<Seq<char>>)
    requires
        is_subsequence(a, b),
        is_subsequence(b, c),
    ensures
        is_subsequence(a, c),
    decreases c.len(),
{
    if a.len() > 0 && c.len() > 0 {
        let cd = c.drop_last();
        assert(cd.push(c.last()) =~= c);
        if b.last() == c.last() {
            if a.last() == b.last() {
                lemma_subsequence_trans(a.drop_last(), b.drop_last(), cd);
            } else {
                lemma_subsequence_trans(a, b.drop_last(), cd);
                lemma_subsequence_push(a, cd, c.last());
            }
        } else {
            lemma_subsequence_trans(a, b, cd);
            lemma_subsequence_push(a, cd, c.last());
        }
    }
}

proof fn lemma_subsequence_nonempty(r: Seq<Seq<char>>, s: Seq<Seq<char>>)
    requires
        is_subsequence(r, s),
        forall|j: int| 0 <= j < s.len() ==> (#[trigger] s[j]).len() > 0,
    ensures
        forall|i: int| 0 <= i < r.len() ==> (#[trigger] r[i]).len() > 0,
    decreases s.len(),
{
    if r.len() > 0 {
        let sd = s.drop_last();
        assert forall|j: int| 0 <= j < sd.len() implies (#[trigger] sd[j]).len() > 0 by {
            assert(sd[j] == s[j]);
        }
        if r.last() == s.last() {
            lemma_subsequence_nonempty(r.drop_last(), sd);
            assert forall|i: int| 0 <= i < r.len() implies (#[trigger] r[i]).len() > 0 by {
                if i < r.len() - 1 {
                    assert(r[i] == r.drop_last()[i]);
                } else {
                    assert(s[s.len() - 1] == s.last());
                }
            }
        } else {
            lemma_subsequence_nonempty(r, sd);
        }
    }
}

/// The titles that sections can have, in order: the opening title, then the
/// trimmed text of each section heading.
pub open spec fn section_heads(blocks: Seq<BlockModel>) -> Seq<Seq<char>>
    decreases blocks.len(),
{
    if blocks.len() == 0 {
        seq![OPENING_TITLE@]
    } else {
        section_heads(blocks.drop_last()) + if starts_section(blocks.last()) {
            seq![trim(blocks.last().content)]
        } else {
            Seq::<Seq<char>>::empty()
        }
    }
}

/// The titles of a list of sections or of titled texts.
pub open spec fn titles_of<T>(secs: Seq<(Seq<char>, T)>) -> Seq<Seq<char>> {
    secs.map_values(|p: (Seq<char>, T)| p.0)
}

proof fn lemma_group_titles(blocks: Seq<BlockModel>)
    ensures
        section_heads(blocks).len() > 0,
        group_state(blocks).title == section_heads(blocks).last(),
        is_subsequence(titles_of(group_state(blocks).done), section_heads(blocks).drop_last()),
    decreases blocks.len(),
{
    if blocks.len() == 0 {
        assert(titles_of(group_state(blocks).done).len() == 0);
    } else {
        let init = blocks.drop_last();
        lemma_group_titles(init);
        let st = group_state(init);
        let h = section_heads(init);
        let b = blocks.last();
        if starts_section(b) {
            assert(section_heads(blocks) == h.push(trim(b.content)));
            assert(section_heads(blocks).drop_last() =~= h);
            let d2 = group_state(blocks).done;
            if st.current.len() > 0 {
                assert(titles_of(d2) =~= titles_of(st.done).push(st.title));
                assert(titles_of(d2).drop_last() =~= titles_of(st.done));
                assert(h.drop_last().push(h.last()) =~= h);
            } else {
                assert(titles_of(d2) == titles_of(st.done));
                lemma_subsequence_push(titles_of(st.done), h.drop_last(), h.last());
                assert(h.drop_last().push(h.last()) =~= h);
            }
        } else {
            assert(section_heads(blocks) =~= h);
        }
    }
}

proof fn lemma_section_titles(blocks: Seq<BlockModel>)
    ensures
        is_subsequence(titles_of(sections_of(blocks)), section_heads(blocks)),
{
    lemma_group_titles(blocks);
    let st = group_state(blocks);
    let h = section_heads(blocks);
    assert(h.drop_last().push(h.last()) =~= h);
    if st.current.len() > 0 {
        let secs = st.done.push((st.title, st.current));
        assert(titles_of(secs) =~= titles_of(st.done).push(st.title));
        assert(titles_of(secs).drop_last() =~= titles_of(st.done));
    } else {
        lemma_subsequence_push(titles_of(st.done), h.drop_last(), h.last());
    }
}

proof fn lemma_nonblank_titles(secs: Seq<(Seq<char>, Seq<BlockModel>)>)
    ensures
        is_subsequence(titles_of(nonblank_section_texts(secs)), titles_of(secs)),
    decreases secs.len(),
{
    if secs.len() > 0 {
        let init = secs.drop_last();
        lemma_nonblank_titles(init);
        let a = nonblank_section_texts(init);
        let text = reading_text(secs.last().1);
        assert(titles_of(secs) =~= titles_of(init).push(secs.last().0));
        assert(titles_of(secs).drop_last() =~= titles_of(init));
        if trim(text).len() == 0 {
            assert(nonblank_section_texts(secs) =~= a);
            lemma_subsequence_push(titles_of(a), titles_of(init), secs.last().0);
        } else {
            let r = a + seq![(secs.last().0, text)];
            assert(nonblank_section_texts(secs) == r);
            assert(titles_of(r) =~= titles_of(a).push(secs.last().0));
            assert(titles_of(r).drop_last() =~= titles_of(a));
        }
    }
}

/// Where an article has section headings, the sections read are titled, in
/// order, with some of: the opening title, then the trimmed text of each
/// heading of level 1 or 2; and where those headings have text, no title
/// is empty.
pub proof fn law_section_titles(title: Seq<char>, blocks: Seq<BlockModel>)
    requires
        !(sections_of(blocks).len() == 1 && sections_of(blocks)[0].0 == OPENING_TITLE@),
    ensures
        is_subsequence(titles_of(section_texts(title, blocks)), section_heads(blocks)),
        (forall|j: int|
            0 <= j < blocks.len() && starts_section(#[trigger] blocks[j]) ==> trim(blocks[j].content).len()
                > 0) ==> forall|i: int|
            0 <= i < section_texts(title, blocks).len() ==> (#[trigger] section_texts(
                title,
                blocks,
            )[i]).0.len() > 0,
{
    let secs = sections_of(blocks);
    lemma_section_titles(blocks);
    lemma_nonblank_titles(secs);
    let r = section_texts(title, blocks);
    if secs.len() == 0 {
        assert(titles_of(r).len() == 0);
    } else {
        lemma_subsequence_trans(titles_of(r), titles_of(secs), section_heads(blocks));
    }
    if forall|j: int|
        0 <= j < blocks.len() && starts_section(#[trigger] blocks[j]) ==> trim(blocks[j].content).len() > 0 {
        lemma_heads_nonempty(blocks);
        lemma_subsequence_nonempty(titles_of(r), section_heads(blocks));
        assert forall|i: int| 0 <= i < r.len() implies (#[trigger] r[i]).0.len() > 0 by {
            assert(titles_of(r)[i] == r[i].0);
        }
    }
}

proof fn lemma_heads_nonempty(blocks: Seq<BlockModel>)
    requires
        forall|j: int|
            0 <= j < blocks.len() && starts_section(#[trigger] blocks[j]) ==> trim(blocks[j].content).len() > 0,
    ensures
        forall|i: int| 0 <= i < section_heads(blocks).len() ==> (#[trigger] section_heads(blocks)[i]).len() > 0,
    decreases blocks.len(),
{
    reveal_strlit("开头");
    if blocks.len() > 0 {
        let init = blocks.drop_last();
        assert forall|j: int| 0 <= j < init.len() && starts_section(#[trigger] init[j]) implies trim(
            init[j].content,
        ).len() > 0 by {
            assert(init[j] == blocks[j]);
        }
        lemma_heads_nonempty(init);
        let h = section_heads(init);
        let last = blocks.last();
        assert(blocks[blocks.len() - 1] == last);
        let e: Seq<Seq<char>> = if starts_section(last) {
            seq![trim(last.content)]
        } else {
            Seq::<Seq<char>>::empty()
        };
        assert(section_heads(blocks) == h + e);
        assert forall|i: int| 0 <= i < (h + e).len() implies (#[trigger] (h + e)[i]).len() > 0 by {
            if i < h.len() {
                assert((h + e)[i] == h[i]);
            } else {
                assert((h + e)[i] == e[i - h.len()]);
            }
        }
    }
}

proof fn lemma_nonblank_sections_titles(secs: Seq<(Seq<char>, Seq<BlockModel>)>)
    ensures
        titles_of(nonblank_sections_as(secs, true)) == titles_of(nonblank_sections_as(secs, false)),
    decreases secs.len(),
{
    if secs.len() > 0 {
        lemma_nonblank_sections_titles(secs.drop_last());
        let a = nonblank_sections_as(secs.drop_last(), true);
        let b = nonblank_sections_as(secs.drop_last(), false);
        let l = secs.last();
        if trim(reading_text(l.1)).len() == 0 {
            assert(nonblank_sections_as(secs, true) =~= a);
            assert(nonblank_sections_as(secs, false) =~= b);
        } else {
            assert(titles_of(a + seq![(l.0, section_text_as(l.1, true))]) =~= titles_of(a).push(l.0));
            assert(titles_of(b + seq![(l.0, section_text_as(l.1, false))]) =~= titles_of(b).push(l.0));
        }
    }
}

/// The SSML form of the sections reads the same sections, under the same
/// titles, in the same order, as the plain form.
pub proof fn law_ssml_sections_same_titles(title: Seq<char>, blocks: Seq<BlockModel>)
    ensures
        titles_of(section_texts_as(title, blocks, true)) == titles_of(section_texts(title, blocks)),
{
    let secs = sections_of(blocks);
    lemma_nonblank_sections_plain(secs);
    lemma_nonblank_sections_titles(secs);
    if secs.len() == 1 && secs[0].0 == OPENING_TITLE@ {
        assert(titles_of(section_texts_as(title, blocks, true)) =~= seq![title]);
        assert(titles_of(section_texts(title, blocks)) =~= seq![title]);
    } else if secs.len() == 0 {
        assert(titles_of(section_texts_as(title, blocks, true)) =~= Seq::<Seq<char>>::empty());
        assert(titles_of(section_texts(title, blocks)) =~= Seq::<Seq<char>>::empty());
    }
}

/// A safe file name is never empty; it is "untitled", or it is made of
/// characters that may stand in a file name and is at most `max_len`
/// characters long.
pub proof fn law_safe_file_name(name: Seq<char>, max_len: nat)
    ensures
        safe_file_name(name, max_len).len() > 0,
        safe_file_name(name, max_len) == UNTITLED@ || (safe_file_name(name, max_len).len()
            <= max_len && forall|i: int|
            0 <= i < safe_file_name(name, max_len).len() ==> name_char(
                #[trigger] safe_file_name(name, max_len)[i],
            )),
{
    reveal_strlit("untitled");
    let cut = if name.len() <= max_len {
        name
    } else {
        name.take(max_len as int)
    };
    let f = |c: char| name_char(c);
    cut.lemma_filter_len(f);
    assert forall|i: int| 0 <= i < cut.filter(f).len() implies name_char(#[trigger] cut.filter(f)[i]) by {
        cut.lemma_filter_pred(f, i);
    }
}

} // verus!
