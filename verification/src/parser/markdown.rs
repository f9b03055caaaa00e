//! Markdown articles: the event stream of `pulldown_cmark` is turned into
//! content blocks.

use super::{
    block_models, heading_block, lemma_block_models_push, other_block, text_block,
    title_from_blocks, title_of, ArticleModel, BlockKind, BlockModel, ContentBlock, ParsedArticle,
    SourceFormat,
};
use crate::text::{chars_of, join, join_chars, push_all, string_of, trim, trim_chars, views};
use pulldown_cmark::{Event, Options, Parser, TagEnd};
use vstd::prelude::*;

verus! {

/// The tags of Markdown elements that the block extraction tells apart;
/// `Other` stands for the rest (emphasis, links, HTML blocks, footnotes and
/// so on).
#[derive(Debug, Clone, Copy, PartialEq, Eq, Structural)]
pub enum MdTag {
    Paragraph,
    Heading(u8),
    BlockQuote,
    CodeBlock,
    List,
    Item,
    Table,
    TableHead,
    TableRow,
    TableCell,
    Image,
    Other,
}

/// One event of the Markdown event stream.
#[derive(Debug)]
pub enum MdEvent {
    Start(MdTag),
    End(MdTag),
    Text(String),
    Code(String),
    SoftBreak,
    HardBreak,
    Other,
}

/// The event stream that `pulldown_cmark::Parser::new_ext` gives for `raw`
/// with tables and strikethrough enabled.
pub uninterp spec fn markdown_event_stream(raw: Seq<char>) -> Seq<MdEvent>;

/// The end tag of a Markdown element, as `pulldown_cmark` gives it.
#[verifier::external_type_specification]
#[verifier::external_body]
pub struct ExTagEnd(TagEnd);

/// The tag of a `pulldown_cmark::TagEnd`, one arm per variant that the
/// block extraction tells apart.
#[verifier::external_body]
fn md_tag(t: TagEnd) -> MdTag {
    match t {
        TagEnd::Paragraph => MdTag::Paragraph,
        TagEnd::Heading(level) => MdTag::Heading(level as u8),
        TagEnd::BlockQuote(_) => MdTag::BlockQuote,
        TagEnd::CodeBlock => MdTag::CodeBlock,
        TagEnd::List(_) => MdTag::List,
        TagEnd::Item => MdTag::Item,
        TagEnd::Table => MdTag::Table,
        TagEnd::TableHead => MdTag::TableHead,
        TagEnd::TableRow => MdTag::TableRow,
        TagEnd::TableCell => MdTag::TableCell,
        TagEnd::Image => MdTag::Image,
        _ => MdTag::Other,
    }
}

/// The events of `pulldown_cmark::Parser::new_ext(raw, options)` with
/// tables and strikethrough enabled, each converted to an `MdEvent`: start
/// and end of an element (a start tag through `TagEnd::from`), text, inline
/// code, soft and hard breaks, and `Other` for the rest. The contract names
/// the stream; it does not spell out CommonMark.
#[verifier::external_body]
fn markdown_events(raw: &str) -> (res: Vec<MdEvent>)
    ensures
        res@ == markdown_event_stream(raw@),
{
    let opts = Options::ENABLE_TABLES | Options::ENABLE_STRIKETHROUGH;
    let mut out = Vec::new();
    for e in Parser::new_ext(raw, opts) {
        out.push(match e {
            Event::Start(t) => MdEvent::Start(md_tag(t.into())),
            Event::End(t) => MdEvent::End(md_tag(t)),
            Event::Text(s) => MdEvent::Text(s.to_string()),
            Event::Code(s) => MdEvent::Code(s.to_string()),
            Event::SoftBreak => MdEvent::SoftBreak,
            Event::HardBreak => MdEvent::HardBreak,
            _ => MdEvent::Other,
        });
    }
    out
}

/// The state of the block extraction: the blocks so far, the text being
/// collected and the kind (and level) of the block it belongs to, the
/// images being read and the alternative text collected, and the table
/// being read (its rows, the current row, whether a cell is open).
#[verifier::ext_equal]
pub struct MdState {
    pub blocks: Seq<BlockModel>,
    pub buf: Seq<char>,
    pub current: Option<BlockKind>,
    pub level: u8,
    pub in_image: nat,
    pub image_alt: Option<Seq<char>>,
    pub rows: Seq<Seq<Seq<char>>>,
    pub row: Seq<Seq<char>>,
    pub in_table: bool,
    pub in_cell: bool,
}

/// The state before the first event.
pub open spec fn md_start() -> MdState {
    MdState {
        blocks: seq![],
        buf: seq![],
        current: None,
        level: 0,
        in_image: 0,
        image_alt: None,
        rows: seq![],
        row: seq![],
        in_table: false,
        in_cell: false,
    }
}

/// The block of `kind` that holds `text`.
pub open spec fn block_for(kind: BlockKind, text: Seq<char>, level: u8) -> BlockModel {
    if kind == BlockKind::Heading {
        heading_block(text, level)
    } else if kind == BlockKind::Text {
        text_block(text)
    } else {
        other_block(kind, text)
    }
}

/// Finishes the open block: where one is open, its collected text, trimmed,
/// becomes a block unless it is empty, and the text is cleared.
pub open spec fn md_flush(st: MdState) -> MdState {
    match st.current {
        None => st,
        Some(kind) => {
            let text = trim(st.buf);
            MdState {
                blocks: if text.len() > 0 {
                    st.blocks.push(block_for(kind, text, st.level))
                } else {
                    st.blocks
                },
                buf: seq![],
                current: None,
                ..st
            }
        },
    }
}

/// The text of a table: the cells of each row joined by " | ", the rows
/// joined by line feeds.
pub open spec fn table_text(rows: Seq<Seq<Seq<char>>>) -> Seq<char> {
    join(rows.map_values(|r: Seq<Seq<char>>| join(r, " | "@)), "\n"@)
}

/// The state after one event.
pub open spec fn md_step(st: MdState, ev: MdEvent) -> MdState {
    match ev {
        MdEvent::Start(MdTag::Heading(l)) => MdState {
            current: Some(BlockKind::Heading),
            level: l,
            ..md_flush(st)
        },
        MdEvent::Start(MdTag::Paragraph) | MdEvent::Start(MdTag::Item) => MdState {
            current: Some(BlockKind::Text),
            ..md_flush(st)
        },
        MdEvent::Start(MdTag::CodeBlock) => MdState {
            current: Some(BlockKind::Code),
            ..md_flush(st)
        },
        MdEvent::End(MdTag::Heading(_))
        | MdEvent::End(MdTag::Paragraph)
        | MdEvent::End(MdTag::CodeBlock)
        | MdEvent::End(MdTag::Item)
        | MdEvent::Start(MdTag::BlockQuote)
        | MdEvent::End(MdTag::BlockQuote)
        | MdEvent::Start(MdTag::List)
        | MdEvent::End(MdTag::List) => md_flush(st),
        MdEvent::Start(MdTag::Table) => MdState { in_table: true, rows: seq![], ..md_flush(st) },
        MdEvent::End(MdTag::Table) => MdState {
            in_table: false,
            rows: seq![],
            blocks: if table_text(st.rows).len() > 0 {
                st.blocks.push(other_block(BlockKind::Table, table_text(st.rows)))
            } else {
                st.blocks
            },
            ..st
        },
        MdEvent::Start(MdTag::TableRow) | MdEvent::Start(MdTag::TableHead) => MdState {
            row: seq![],
            ..st
        },
        MdEvent::End(MdTag::TableRow) | MdEvent::End(MdTag::TableHead) => MdState {
            rows: st.rows.push(st.row),
            row: seq![],
            ..st
        },
        MdEvent::Start(MdTag::TableCell) => MdState { in_cell: true, buf: seq![], ..st },
        MdEvent::End(MdTag::TableCell) => MdState {
            in_cell: false,
            row: st.row.push(trim(st.buf)),
            buf: seq![],
            ..st
        },
        MdEvent::Start(MdTag::Image) => MdState {
            in_image: st.in_image + 1,
            image_alt: Some(seq![]),
            ..st
        },
        MdEvent::End(MdTag::Image) => MdState {
            in_image: if st.in_image > 0 {
                (st.in_image - 1) as nat
            } else {
                0
            },
            image_alt: None,
            blocks: match st.image_alt {
                Some(alt) => if alt.len() > 0 && !(st.current is Some || st.in_table) {
                    st.blocks.push(other_block(BlockKind::Image, alt))
                } else {
                    st.blocks
                },
                None => st.blocks,
            },
            ..st
        },
        MdEvent::Text(s) | MdEvent::Code(s) => MdState {
            image_alt: match st.image_alt {
                Some(alt) => if st.in_image > 0 {
                    Some(alt + s@)
                } else {
                    Some(alt)
                },
                None => None,
            },
            buf: if st.current is Some || st.in_cell {
                st.buf + s@
            } else {
                st.buf
            },
            ..st
        },
        MdEvent::SoftBreak | MdEvent::HardBreak => if st.current is Some {
            MdState { buf: st.buf.push('\n'), ..st }
        } else {
            st
        },
        _ => st,
    }
}

/// The state after `events`.
pub open spec fn md_run(events: Seq<MdEvent>) -> MdState
    decreases events.len(),
{
    if events.len() == 0 {
        md_start()
    } else {
        md_step(md_run(events.drop_last()), events.last())
    }
}

/// The blocks of an event stream: those found after the last event once
/// the open block is finished.
pub open spec fn md_blocks(events: Seq<MdEvent>) -> Seq<BlockModel> {
    md_flush(md_run(events)).blocks
}

/// The article of an event stream.
pub open spec fn md_article(events: Seq<MdEvent>, default_title: Seq<char>) -> ArticleModel {
    ArticleModel {
        title: title_of(md_blocks(events), default_title),
        blocks: md_blocks(events),
        source_format: SourceFormat::Markdown,
    }
}

/// The block extraction under way.
struct MdBuilder {
    blocks: Vec<ContentBlock>,
    buf: Vec<char>,
    current: Option<BlockKind>,
    level: u8,
    in_image: usize,
    image_alt: Option<Vec<char>>,
    rows: Vec<Vec<Vec<char>>>,
    row: Vec<Vec<char>>,
    in_table: bool,
    in_cell: bool,
}

/// The views of the rows of a table.
pub open spec fn row_views(rows: Seq<Vec<Vec<char>>>) -> Seq<Seq<Seq<char>>> {
    rows.map_values(|r: Vec<Vec<char>>| views(r@))
}

impl View for MdBuilder {
    type V = MdState;

    closed spec fn view(&self) -> MdState {
        MdState {
            blocks: block_models(self.blocks@),
            buf: self.buf@,
            current: self.current,
            level: self.level,
            in_image: self.in_image as nat,
            image_alt: match self.image_alt {
                Some(a) => Some(a@),
                None => None,
            },
            rows: row_views(self.rows@),
            row: views(self.row@),
            in_table: self.in_table,
            in_cell: self.in_cell,
        }
    }
}

impl MdBuilder {
    fn new() -> (res: Self)
        ensures
            res@ == md_start(),
    {
        let res = MdBuilder {
            blocks: Vec::new(),
            buf: Vec::new(),
            current: None,
            level: 0,
            in_image: 0,
            image_alt: None,
            rows: Vec::new(),
            row: Vec::new(),
            in_table: false,
            in_cell: false,
        };
        assert(res@ =~= md_start());
        res
    }

    fn flush(&mut self)
        ensures
            final(self)@ == md_flush(old(self)@),
    {
        match self.current {
            None => {},
            Some(kind) => {
                let text = trim_chars(&self.buf);
                if text.len() > 0 {
                    let b = if kind == BlockKind::Heading {
                        ContentBlock::heading(string_of(&text), self.level)
                    } else if kind == BlockKind::Text {
                        ContentBlock::text(string_of(&text))
                    } else {
                        ContentBlock::other(kind, string_of(&text))
                    };
                    proof {
                        lemma_block_models_push(self.blocks@, b);
                    }
                    self.blocks.push(b);
                }
                self.buf = Vec::new();
                self.current = None;
                assert(self@ =~= md_flush(old(self)@));
            },
        }
    }

    /// The text of the table read so far.
    fn table_text(&self) -> (res: Vec<char>)
        ensures
            res@ == table_text(self@.rows),
    {
        let sep = chars_of(" | ");
        let mut lines: Vec<Vec<char>> = Vec::new();
        let mut i: usize = 0;
        while i < self.rows.len()
            invariant
                i <= self.rows.len(),
                sep@ == " | "@,
                views(lines@) == self@.rows.take(i as int).map_values(
                    |r: Seq<Seq<char>>| join(r, " | "@),
                ),
            decreases self.rows.len() - i,
        {
            let line = join_chars(&self.rows[i], &sep);
            assert(self@.rows[i as int] == views(self.rows@[i as int]@));
            proof {
                crate::text::lemma_views_push(lines@, line);
            }
            lines.push(line);
            assert(views(lines@) =~= self@.rows.take(i + 1).map_values(
                |r: Seq<Seq<char>>| join(r, " | "@),
            ));
            i += 1;
        }
        assert(self@.rows.take(self.rows.len() as int) =~= self@.rows);
        join_chars(&lines, &chars_of("\n"))
    }

    fn step(&mut self, ev: &MdEvent)
        requires
            old(self).in_image < usize::MAX,
        ensures
            final(self)@ == md_step(old(self)@, *ev),
            final(self).in_image <= old(self).in_image + 1,
    {
        match ev {
            MdEvent::Start(MdTag::Heading(l)) => {
                self.flush();
                self.current = Some(BlockKind::Heading);
                self.level = *l;
            },
            MdEvent::Start(MdTag::Paragraph) | MdEvent::Start(MdTag::Item) => {
                self.flush();
                self.current = Some(BlockKind::Text);
            },
            MdEvent::Start(MdTag::CodeBlock) => {
                self.flush();
                self.current = Some(BlockKind::Code);
            },
            MdEvent::End(MdTag::Heading(_))
            | MdEvent::End(MdTag::Paragraph)
            | MdEvent::End(MdTag::CodeBlock)
            | MdEvent::End(MdTag::Item)
            | MdEvent::Start(MdTag::BlockQuote)
            | MdEvent::End(MdTag::BlockQuote)
            | MdEvent::Start(MdTag::List)
            | MdEvent::End(MdTag::List) => {
                self.flush();
            },
            MdEvent::Start(MdTag::Table) => {
                self.flush();
                self.in_table = true;
                self.rows = Vec::new();
                assert(self@ =~= md_step(old(self)@, *ev));
            },
            MdEvent::End(MdTag::Table) => {
                self.in_table = false;
                let text = self.table_text();
                if text.len() > 0 {
                    let b = ContentBlock::other(BlockKind::Table, string_of(&text));
                    proof {
                        lemma_block_models_push(self.blocks@, b);
                    }
                    self.blocks.push(b);
                }
                self.rows = Vec::new();
                assert(self@ =~= md_step(old(self)@, *ev));
            },
            MdEvent::Start(MdTag::TableRow) | MdEvent::Start(MdTag::TableHead) => {
                self.row = Vec::new();
                assert(self@ =~= md_step(old(self)@, *ev));
            },
            MdEvent::End(MdTag::TableRow) | MdEvent::End(MdTag::TableHead) => {
                let mut r: Vec<Vec<char>> = Vec::new();
                std::mem::swap(&mut r, &mut self.row);
                let ghost before = self.rows@;
                self.rows.push(r);
                assert(row_views(self.rows@) =~= row_views(before).push(views(r@)));
                assert(self@ =~= md_step(old(self)@, *ev));
            },
            MdEvent::Start(MdTag::TableCell) => {
                self.in_cell = true;
                self.buf = Vec::new();
                assert(self@ =~= md_step(old(self)@, *ev));
            },
            MdEvent::End(MdTag::TableCell) => {
                self.in_cell = false;
                let cell = trim_chars(&self.buf);
                let ghost before = self.row@;
                self.row.push(cell);
                assert(views(self.row@) =~= views(before).push(cell@));
                self.buf = Vec::new();
                assert(self@ =~= md_step(old(self)@, *ev));
            },
            MdEvent::Start(MdTag::Image) => {
                self.in_image = self.in_image + 1;
                self.image_alt = Some(Vec::new());
                assert(self@ =~= md_step(old(self)@, *ev));
            },
            MdEvent::End(MdTag::Image) => {
                self.in_image = if self.in_image > 0 {
                    self.in_image - 1
                } else {
                    0
                };
                let mut alt: Option<Vec<char>> = None;
                std::mem::swap(&mut alt, &mut self.image_alt);
                match alt {
                    Some(a) => {
                        if a.len() > 0 && !(self.current.is_some() || self.in_table) {
                            let b = ContentBlock::other(BlockKind::Image, string_of(&a));
                            proof {
                                lemma_block_models_push(self.blocks@, b);
                            }
                            self.blocks.push(b);
                        }
                    },
                    None => {},
                }
                assert(self@ =~= md_step(old(self)@, *ev));
            },
            MdEvent::Text(s) | MdEvent::Code(s) => {
                let piece = chars_of(s.as_str());
                if self.in_image > 0 {
                    match &mut self.image_alt {
                        Some(a) => {
                            push_all(a, &piece);
                        },
                        None => {},
                    }
                }
                if self.current.is_some() || self.in_cell {
                    push_all(&mut self.buf, &piece);
                }
                assert(self@ =~= md_step(old(self)@, *ev));
            },
            MdEvent::SoftBreak | MdEvent::HardBreak => {
                if self.current.is_some() {
                    self.buf.push('\n');
                }
                assert(self@ =~= md_step(old(self)@, *ev));
            },
            _ => {},
        }
    }
}

/// The article of a Markdown event stream: headings, paragraphs and list
/// items, code blocks, tables (cells joined by " | ", rows by line feeds)
/// and images standing on their own (their alternative text) become blocks
/// in order, text being trimmed and empty blocks dropped; the title is the
/// first level-1 heading, or `default_title`.
pub fn parse_events(events: &Vec<MdEvent>, default_title: String) -> (res: ParsedArticle)
    ensures
        res@ == md_article(events@, default_title@),
{
    let mut b = MdBuilder::new();
    let mut i: usize = 0;
    while i < events.len()
        invariant
            i <= events.len(),
            b@ == md_run(events@.take(i as int)),
            b.in_image <= i,
        decreases events.len() - i,
    {
        assert(events@.take(i + 1).drop_last() =~= events@.take(i as int));
        assert(events@.take(i + 1).last() == events@[i as int]);
        b.step(&events[i]);
        i += 1;
    }
    assert(events@.take(events.len() as int) =~= events@);
    b.flush();
    let blocks = b.blocks;
    let title = title_from_blocks(&blocks, default_title);
    ParsedArticle { title, blocks, source_format: SourceFormat::Markdown }
}

/// Parses a Markdown article (with tables and strikethrough) into blocks;
/// the title is the first level-1 heading, or `default_title`.
pub fn parse(raw: &str, default_title: String) -> (res: ParsedArticle)
    ensures
        res@ == md_article(markdown_event_stream(raw@), default_title@),
{
    let events = markdown_events(raw);
    parse_events(&events, default_title)
}

/// No block holds empty text.
pub open spec fn blocks_have_text(blocks: Seq<BlockModel>) -> bool {
    forall|i: int| 0 <= i < blocks.len() ==> (#[trigger] blocks[i]).content.len() > 0
}

proof fn lemma_push_keeps_text(blocks: Seq<BlockModel>, b: BlockModel)
    requires
        blocks_have_text(blocks),
        b.content.len() > 0,
    ensures
        blocks_have_text(blocks.push(b)),
{
    assert forall|i: int| 0 <= i < blocks.push(b).len() implies (#[trigger] blocks.push(b)[i]).content.len() > 0 by {
        if i < blocks.len() {
            assert(blocks.push(b)[i] == blocks[i]);
        }
    }
}

proof fn lemma_flush_keeps_text(st: MdState)
    requires
        blocks_have_text(st.blocks),
    ensures
        blocks_have_text(md_flush(st).blocks),
{
    match st.current {
        Some(kind) => {
            let text = trim(st.buf);
            if text.len() > 0 {
                lemma_push_keeps_text(st.blocks, block_for(kind, text, st.level));
            }
        },
        None => {},
    }
}

proof fn lemma_run_keeps_text(events: Seq<MdEvent>)
    ensures
        blocks_have_text(md_run(events).blocks),
    decreases events.len(),
{
    if events.len() > 0 {
        lemma_run_keeps_text(events.drop_last());
        let st = md_run(events.drop_last());
        lemma_flush_keeps_text(st);
        match events.last() {
            MdEvent::End(MdTag::Table) => {
                if table_text(st.rows).len() > 0 {
                    lemma_push_keeps_text(st.blocks, other_block(BlockKind::Table, table_text(st.rows)));
                }
            },
            MdEvent::End(MdTag::Image) => {
                match st.image_alt {
                    Some(alt) => {
                        if alt.len() > 0 {
                            lemma_push_keeps_text(st.blocks, other_block(BlockKind::Image, alt));
                        }
                    },
                    None => {},
                }
            },
            _ => {},
        }
    }
}

/// A Markdown article has no empty block: blocks whose text is empty once
/// trimmed, empty tables and images without alternative text are dropped.
pub proof fn law_markdown_blocks_have_text(events: Seq<MdEvent>)
    ensures
        blocks_have_text(md_blocks(events)),
{
    lemma_run_keeps_text(events);
    lemma_flush_keeps_text(md_run(events));
}


/// Inline code is read like text: a code span changes the extraction
/// exactly as a text event with the same characters does.
pub proof fn law_inline_code_reads_as_text(st: MdState, s: String)
    ensures
        md_step(st, MdEvent::Code(s)) == md_step(st, MdEvent::Text(s)),
{
}

/// A paragraph of text, inline code and text gives one text block of all
/// three together, trimmed, where that is not empty.
pub proof fn law_paragraph_with_inline_code(a: String, c: String, b: String)
    requires
        trim(a@ + c@ + b@).len() > 0,
    ensures
        md_blocks(
            seq![
                MdEvent::Start(MdTag::Paragraph),
                MdEvent::Text(a),
                MdEvent::Code(c),
                MdEvent::Text(b),
                MdEvent::End(MdTag::Paragraph),
            ],
        ) == seq![text_block(trim(a@ + c@ + b@))],
{
    let e5 = seq![
        MdEvent::Start(MdTag::Paragraph),
        MdEvent::Text(a),
        MdEvent::Code(c),
        MdEvent::Text(b),
        MdEvent::End(MdTag::Paragraph),
    ];
    let e4 = e5.drop_last();
    let e3 = e4.drop_last();
    let e2 = e3.drop_last();
    let e1 = e2.drop_last();
    assert(e1.drop_last() =~= Seq::<MdEvent>::empty());
    assert(e1.last() == MdEvent::Start(MdTag::Paragraph));
    assert(e2.last() == MdEvent::Text(a));
    assert(e3.last() == MdEvent::Code(c));
    assert(e4.last() == MdEvent::Text(b));
    assert(e5.last() == MdEvent::End(MdTag::Paragraph));
    let s0 = md_start();
    assert(md_run(e1.drop_last()) == s0);
    let s1 = md_run(e1);
    assert(s1 == md_step(s0, MdEvent::Start(MdTag::Paragraph)));
    assert(s1.current == Some(BlockKind::Text) && s1.buf == Seq::<char>::empty());
    let s2 = md_run(e2);
    assert(s2 == md_step(s1, MdEvent::Text(a)));
    assert(s2.buf =~= a@);
    let s3 = md_run(e3);
    assert(s3 == md_step(s2, MdEvent::Code(c)));
    assert(s3.buf =~= a@ + c@);
    let s4 = md_run(e4);
    assert(s4 == md_step(s3, MdEvent::Text(b)));
    assert(s4.buf =~= a@ + c@ + b@);
    assert(s4.current == Some(BlockKind::Text) && s4.blocks == Seq::<BlockModel>::empty());
    let s5 = md_run(e5);
    assert(s5 == md_step(s4, MdEvent::End(MdTag::Paragraph)));
    assert(s5.blocks =~= seq![text_block(trim(a@ + c@ + b@))]);
    assert(s5.current is None);
}


/// A heading of level `l` with text gives one heading block of level `l`
/// holding its trimmed text, where that is not empty.
pub proof fn law_heading_block(l: u8, a: String)
    requires
        trim(a@).len() > 0,
    ensures
        md_blocks(
            seq![MdEvent::Start(MdTag::Heading(l)), MdEvent::Text(a), MdEvent::End(MdTag::Heading(l))],
        ) == seq![heading_block(trim(a@), l)],
{
    let e3 = seq![MdEvent::Start(MdTag::Heading(l)), MdEvent::Text(a), MdEvent::End(MdTag::Heading(l))];
    let e2 = e3.drop_last();
    let e1 = e2.drop_last();
    assert(e1.drop_last() =~= Seq::<MdEvent>::empty());
    assert(e1.last() == MdEvent::Start(MdTag::Heading(l)));
    assert(e2.last() == MdEvent::Text(a));
    assert(e3.last() == MdEvent::End(MdTag::Heading(l)));
    assert(md_run(e1.drop_last()) == md_start());
    let s1 = md_run(e1);
    assert(s1.current == Some(BlockKind::Heading) && s1.level == l && s1.buf == Seq::<char>::empty());
    let s2 = md_run(e2);
    assert(s2.buf =~= a@);
    let s3 = md_run(e3);
    assert(s3.blocks =~= seq![heading_block(trim(a@), l)]);
}

/// A code block gives one code block holding its trimmed text, where that
/// is not empty.
pub proof fn law_code_block(a: String)
    requires
        trim(a@).len() > 0,
    ensures
        md_blocks(
            seq![MdEvent::Start(MdTag::CodeBlock), MdEvent::Text(a), MdEvent::End(MdTag::CodeBlock)],
        ) == seq![other_block(BlockKind::Code, trim(a@))],
{
    let e3 = seq![MdEvent::Start(MdTag::CodeBlock), MdEvent::Text(a), MdEvent::End(MdTag::CodeBlock)];
    let e2 = e3.drop_last();
    let e1 = e2.drop_last();
    assert(e1.drop_last() =~= Seq::<MdEvent>::empty());
    assert(e1.last() == MdEvent::Start(MdTag::CodeBlock));
    assert(e2.last() == MdEvent::Text(a));
    assert(e3.last() == MdEvent::End(MdTag::CodeBlock));
    assert(md_run(e1.drop_last()) == md_start());
    let s1 = md_run(e1);
    assert(s1.current == Some(BlockKind::Code) && s1.buf == Seq::<char>::empty());
    let s2 = md_run(e2);
    assert(s2.buf =~= a@);
    let s3 = md_run(e3);
    assert(s3.blocks =~= seq![other_block(BlockKind::Code, trim(a@))]);
}

} // verus!
