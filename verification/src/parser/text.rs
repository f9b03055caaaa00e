//! Plain-text articles: paragraphs are separated by blank lines, and a
//! paragraph that starts with `#` is a heading.

use super::{
    block_models, heading_block, lemma_block_models_push, text_block, title_from_blocks, title_of,
    ArticleModel, BlockKind, BlockModel, ContentBlock, ParsedArticle, SourceFormat,
};
use crate::text::{
    chars_of, slice_chars, split_on_blank_lines, split_paragraphs, string_of, trim, trim_chars, views,
};
use vstd::prelude::*;

verus! {

/// The number of `#` characters at the start of `s`.
pub open spec fn hash_run(s: Seq<char>) -> nat
    decreases s.len(),
{
    if s.len() > 0 && s[0] == '#' {
        1 + hash_run(s.drop_first())
    } else {
        0
    }
}

/// The block that a plain-text paragraph gives, if any: nothing for a
/// blank paragraph; a heading at the level of its leading `#` run, where
/// text follows that run; the trimmed paragraph as text otherwise.
pub open spec fn paragraph_block(p: Seq<char>) -> Option<BlockModel> {
    let st = trim(p);
    let n = hash_run(st);
    if st.len() == 0 {
        None
    } else if n > 0 && trim(st.skip(n as int)).len() > 0 {
        Some(heading_block(trim(st.skip(n as int)), n as u8))
    } else {
        Some(text_block(st))
    }
}

/// The blocks of a sequence of paragraphs.
pub open spec fn paragraph_blocks(paras: Seq<Seq<char>>) -> Seq<BlockModel>
    decreases paras.len(),
{
    if paras.len() == 0 {
        seq![]
    } else {
        paragraph_blocks(paras.drop_last()) + match paragraph_block(paras.last()) {
            Some(b) => seq![b],
            None => seq![],
        }
    }
}

/// The article that a plain text gives.
pub open spec fn text_article(raw: Seq<char>, default_title: Seq<char>) -> ArticleModel {
    let blocks = paragraph_blocks(split_paragraphs(raw));
    ArticleModel { title: title_of(blocks, default_title), blocks, source_format: SourceFormat::Text }
}

/// No paragraph of `raw` starts, once trimmed, with more than 255 `#`
/// characters (a heading level must fit in a byte).
pub open spec fn heading_levels_fit(raw: Seq<char>) -> bool {
    forall|i: int|
        0 <= i < split_paragraphs(raw).len() ==> #[trigger] hash_run(trim(split_paragraphs(raw)[i]))
            <= 255
}

/// The number of `#` characters at the start of `s`.
fn count_hashes(s: &Vec<char>) -> (res: usize)
    ensures
        res == hash_run(s@),
        res <= s.len(),
{
    let mut i: usize = 0;
    assert(s@.skip(0) =~= s@);
    while i < s.len() && s[i] == '#'
        invariant
            i <= s.len(),
            hash_run(s@) == i + hash_run(s@.skip(i as int)),
        decreases s.len() - i,
    {
        assert(s@.skip(i as int).drop_first() =~= s@.skip(i + 1));
        i += 1;
    }
    i
}

/// The block that one paragraph gives.
fn block_of_paragraph(p: &Vec<char>) -> (res: Option<ContentBlock>)
    requires
        hash_run(trim(p@)) <= 255,
    ensures
        match res {
            Some(b) => paragraph_block(p@) == Some(b@),
            None => paragraph_block(p@) is None,
        },
{
    let st = trim_chars(p);
    if st.len() == 0 {
        return None;
    }
    let n = count_hashes(&st);
    if n > 0 {
        let rest = slice_chars(&st, n, st.len());
        assert(rest@ =~= st@.skip(n as int));
        let heading = trim_chars(&rest);
        if heading.len() > 0 {
            return Some(ContentBlock::heading(string_of(&heading), n as u8));
        }
    }
    Some(ContentBlock::text(string_of(&st)))
}

/// Parses a plain-text article. Paragraphs are the pieces between blank
/// lines; blank ones are dropped; a paragraph that starts with `#` and has
/// text after its `#` run is a heading whose level is the length of that
/// run; the title is the first level-1 heading, or `default_title`.
pub fn parse(raw: &str, default_title: String) -> (res: ParsedArticle)
    requires
        heading_levels_fit(raw@),
    ensures
        res@ == text_article(raw@, default_title@),
{
    let chars = chars_of(raw);
    let paras = split_on_blank_lines(&chars);
    let ghost ps = views(paras@);
    let mut blocks: Vec<ContentBlock> = Vec::new();
    let mut i: usize = 0;
    while i < paras.len()
        invariant
            i <= paras.len(),
            ps == views(paras@),
            ps == split_paragraphs(raw@),
            heading_levels_fit(raw@),
            block_models(blocks@) == paragraph_blocks(ps.take(i as int)),
        decreases paras.len() - i,
    {
        assert(ps[i as int] == paras@[i as int]@);
        assert(ps.take(i + 1).drop_last() =~= ps.take(i as int));
        assert(ps.take(i + 1).last() == ps[i as int]);
        match block_of_paragraph(&paras[i]) {
            Some(b) => {
                proof {
                    lemma_block_models_push(blocks@, b);
                }
                blocks.push(b);
            },
            None => {
                assert(block_models(blocks@) + seq![] =~= block_models(blocks@));
            },
        }
        i += 1;
    }
    assert(ps.take(paras.len() as int) =~= ps);
    let title = title_from_blocks(&blocks, default_title);
    ParsedArticle { title, blocks, source_format: SourceFormat::Text }
}

/// Whether no paragraph of `raw` starts, once trimmed, with more than 255
/// `#` characters.
pub fn heading_levels_fit_in(raw: &str) -> (res: bool)
    ensures
        res == heading_levels_fit(raw@),
{
    let chars = chars_of(raw);
    let paras = split_on_blank_lines(&chars);
    let ghost ps = views(paras@);
    let mut i: usize = 0;
    while i < paras.len()
        invariant
            i <= paras.len(),
            ps == views(paras@),
            ps == split_paragraphs(raw@),
            forall|k: int| 0 <= k < i ==> #[trigger] hash_run(trim(ps[k])) <= 255,
        decreases paras.len() - i,
    {
        assert(ps[i as int] == paras@[i as int]@);
        let n = count_hashes(&trim_chars(&paras[i]));
        if n > 255 {
            return false;
        }
        i += 1;
    }
    true
}

/// The paragraphs of `paras` that are not blank once trimmed, in order.
pub open spec fn nonblank_paragraphs(paras: Seq<Seq<char>>) -> Seq<Seq<char>> {
    paras.filter(|p: Seq<char>| trim(p).len() > 0)
}

/// A plain-text article has exactly one block per paragraph that is not
/// blank, in order: a heading whose level is the number of leading `#`
/// where text follows them, the trimmed paragraph as text otherwise.
pub proof fn law_text_paragraph_blocks(paras: Seq<Seq<char>>)
    requires
        forall|i: int| 0 <= i < paras.len() ==> #[trigger] hash_run(trim(paras[i])) <= 255,
    ensures
        paragraph_blocks(paras).len() == nonblank_paragraphs(paras).len(),
        forall|i: int|
            0 <= i < paragraph_blocks(paras).len() ==> paragraph_block(nonblank_paragraphs(paras)[i])
                == Some(#[trigger] paragraph_blocks(paras)[i]),
        forall|i: int|
            0 <= i < paragraph_blocks(paras).len() && (#[trigger] paragraph_blocks(paras)[i]).kind
                == BlockKind::Heading ==> paragraph_blocks(paras)[i].level == hash_run(
                trim(nonblank_paragraphs(paras)[i]),
            ),
    decreases paras.len(),
{
    reveal(Seq::filter);
    let f = |p: Seq<char>| trim(p).len() > 0;
    if paras.len() == 0 {
        assert(nonblank_paragraphs(paras) =~= Seq::<Seq<char>>::empty());
    } else {
        let init = paras.drop_last();
        assert forall|i: int| 0 <= i < init.len() implies #[trigger] hash_run(trim(init[i])) <= 255 by {
            assert(init[i] == paras[i]);
        }
        law_text_paragraph_blocks(init);
        let a = paragraph_blocks(init);
        let fa = nonblank_paragraphs(init);
        let last = paras.last();
        assert(hash_run(trim(paras[paras.len() - 1])) <= 255);
        assert(nonblank_paragraphs(paras) == if f(last) {
            fa.push(last)
        } else {
            fa
        });
        let pb = paragraph_blocks(paras);
        let fp = nonblank_paragraphs(paras);
        match paragraph_block(last) {
            Some(b) => {
                assert(pb == a + seq![b]);
                assert(fp == fa.push(last));
                assert forall|i: int| 0 <= i < pb.len() implies paragraph_block(fp[i]) == Some(
                    #[trigger] pb[i],
                ) && (pb[i].kind == BlockKind::Heading ==> pb[i].level == hash_run(trim(fp[i]))) by {
                    if i < a.len() {
                        assert(pb[i] == a[i]);
                        assert(fp[i] == fa[i]);
                    } else {
                        assert(pb[i] == b);
                        assert(fp[i] == last);
                    }
                }
            },
            None => {
                assert(pb =~= a);
                assert(fp == fa);
            },
        }
    }
}

/// A plain-text article has no empty block.
pub proof fn law_text_blocks_have_text(paras: Seq<Seq<char>>)
    ensures
        forall|i: int|
            0 <= i < paragraph_blocks(paras).len() ==> (#[trigger] paragraph_blocks(paras)[i]).content.len() > 0,
    decreases paras.len(),
{
    if paras.len() > 0 {
        law_text_blocks_have_text(paras.drop_last());
        let a = paragraph_blocks(paras.drop_last());
        let b: Seq<BlockModel> = match paragraph_block(paras.last()) {
            Some(x) => seq![x],
            None => seq![],
        };
        assert(paragraph_blocks(paras) == a + b);
        assert forall|i: int| 0 <= i < (a + b).len() implies (#[trigger] (a + b)[i]).content.len() > 0 by {
            if i < a.len() {
                assert((a + b)[i] == a[i]);
            } else {
                assert((a + b)[i] == b[i - a.len()]);
            }
        }
    }
}

} // verus!
