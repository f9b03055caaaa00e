//! HTML articles: the document tree that `scraper` builds is walked in
//! document order, and the content elements become blocks.

use super::{
    block_models, heading_block, lemma_block_models_push, other_block, text_block,
    title_from_blocks, title_of, ArticleModel, BlockKind, BlockModel, ContentBlock, ParsedArticle,
    SourceFormat,
};
use crate::text::{
    chars_equal, chars_of, join, join_chars, lemma_views_push, normalize_whitespace, normalize_ws, push_all,
    str_equal, string_of, trim, trim_chars, views,
};
use ego_tree::iter::Edge;
use scraper::{Html, Node};
use std::collections::BTreeMap;
use self::HtmlEvent::{Close, Element, OtherNode, Text};
use vstd::prelude::*;

verus! {

/// One step of a walk through the trees of an HTML document in document
/// order: entering an element (its local name, its `alt` attribute, its
/// position in the order in which the parser created the nodes, and whether
/// it has a parent), entering a text node, entering any other node (the
/// document itself, comments, doctypes), and leaving the node entered last.
#[derive(Debug)]
pub enum HtmlEvent {
    Element { name: String, alt: Option<String>, rank: usize, attached: bool },
    Text(String),
    OtherNode,
    Close,
}

/// The walk that `scraper::Html::parse_document` and a traversal of the
/// trees of its arena give for `raw`.
pub uninterp spec fn html_event_stream(raw: Seq<char>) -> Seq<HtmlEvent>;

/// Parses `raw` with `scraper::Html::parse_document` (html5ever) and walks,
/// in the order of `Tree::nodes` (the creation order, in which
/// `Html::select` visits elements), each node of the arena that has no
/// parent with `ego_tree`'s `traverse`: the document root first, then the
/// subtrees that the parser detached (such as a body that a `frameset`
/// replaced). Each edge is converted: an opened element to its local name,
/// its `alt` attribute, the index of its node in `Tree::nodes` and whether
/// it has a parent; an opened text node to its text; any other opened node
/// to `OtherNode`; a closing edge to `Close`. The contract names the walk;
/// it does not spell out HTML parsing.
#[verifier::external_body]
fn html_events(raw: &str) -> (res: Vec<HtmlEvent>)
    ensures
        res@ == html_event_stream(raw@),
{
    let doc = Html::parse_document(raw);
    let rank = BTreeMap::from_iter(doc.tree.nodes().map(|n| n.id()).zip(0..));
    doc.tree.nodes().filter(|n| n.parent().is_none()).flat_map(|t| t.traverse()).map(|edge| match edge {
        Edge::Open(n) => match n.value() {
            Node::Element(e) => Element { name: e.name().into(), alt: e.attr("alt").map(String::from), rank: rank[&n.id()], attached: n.parent().is_some() },
            Node::Text(t) => Text(t.to_string()),
            _ => OtherNode,
        },
        _ => Close,
    }).collect()
}

/// The event enters an element named `name` that has a parent: one that
/// `Html::select` can give.
pub open spec fn is_selectable(e: HtmlEvent, name: Seq<char>) -> bool {
    is_element(e, name) && (e matches HtmlEvent::Element { attached: true, .. })
}

/// Whether an event enters a node.
pub open spec fn opens(e: HtmlEvent) -> bool {
    !(e is Close)
}

/// The local name of the element that an event enters.
pub open spec fn element_name(e: HtmlEvent) -> Option<Seq<char>> {
    match e {
        HtmlEvent::Element { name, .. } => Some(name@),
        _ => None,
    }
}

/// The event enters an element named `name`.
pub open spec fn is_element(e: HtmlEvent, name: Seq<char>) -> bool {
    element_name(e) == Some(name)
}

/// Where the node entered before position `j` ends, `depth` nodes being
/// open: just after the `Close` that brings the depth to zero, or the end
/// of the walk.
pub open spec fn close_scan(ev: Seq<HtmlEvent>, j: int, depth: nat) -> int
    decreases ev.len() - j,
{
    if j < 0 || j >= ev.len() {
        ev.len() as int
    } else if ev[j] is Close {
        if depth <= 1 {
            j + 1
        } else {
            close_scan(ev, j + 1, (depth - 1) as nat)
        }
    } else {
        close_scan(ev, j + 1, depth + 1)
    }
}

/// The position just after the subtree of the node entered at `p`.
pub open spec fn subtree_end(ev: Seq<HtmlEvent>, p: int) -> int {
    close_scan(ev, p + 1, 1)
}

pub proof fn lemma_close_scan_bounds(ev: Seq<HtmlEvent>, j: int, depth: nat)
    requires
        0 <= j <= ev.len(),
    ensures
        j <= close_scan(ev, j, depth) <= ev.len(),
    decreases ev.len() - j,
{
    if j < ev.len() {
        if ev[j] is Close {
            if depth > 1 {
                lemma_close_scan_bounds(ev, j + 1, (depth - 1) as nat);
            }
        } else {
            lemma_close_scan_bounds(ev, j + 1, depth + 1);
        }
    }
}

pub proof fn lemma_subtree_end_bounds(ev: Seq<HtmlEvent>, p: int)
    requires
        0 <= p < ev.len(),
    ensures
        p < subtree_end(ev, p) <= ev.len(),
{
    lemma_close_scan_bounds(ev, p + 1, 1);
}

/// The text of the text nodes entered at positions `a` to `b`, in order.
pub open spec fn texts_in(ev: Seq<HtmlEvent>, a: int, b: int) -> Seq<char>
    decreases b - a,
{
    if a >= b || a < 0 || a >= ev.len() {
        seq![]
    } else {
        (match ev[a] {
            HtmlEvent::Text(t) => t@,
            _ => seq![],
        }) + texts_in(ev, a + 1, b)
    }
}

/// The text of the node entered at `p`: the text of all text nodes in it.
pub open spec fn node_text(ev: Seq<HtmlEvent>, p: int) -> Seq<char> {
    texts_in(ev, p + 1, subtree_end(ev, p))
}

/// The text of the node entered at `p` with its whitespace runs made single
/// spaces and its outer whitespace dropped.
pub open spec fn collected_text(ev: Seq<HtmlEvent>, p: int) -> Seq<char> {
    normalize_ws(node_text(ev, p))
}

/// Elements whose content is left out.
pub open spec fn is_skipped(name: Seq<char>) -> bool {
    ||| name == "script"@
    ||| name == "style"@
    ||| name == "nav"@
    ||| name == "header"@
    ||| name == "footer"@
    ||| name == "aside"@
}

/// Elements whose whole text becomes one text block.
pub open spec fn is_text_container(name: Seq<char>) -> bool {
    ||| name == "p"@
    ||| name == "div"@
    ||| name == "section"@
    ||| name == "span"@
    ||| name == "blockquote"@
    ||| name == "li"@
    ||| name == "a"@
}

/// Heading elements `h1` to `h6`.
pub open spec fn is_heading(name: Seq<char>) -> bool {
    name.len() == 2 && name[0] == 'h' && '1' <= name[1] && name[1] <= '6'
}

/// The level of a heading element.
pub open spec fn heading_level(name: Seq<char>) -> u8 {
    ((name[1] as u32) - ('0' as u32)) as u8
}

/// The cells of a table row whose children start at `q`: the collected
/// text of each child element named `td` or `th`.
pub open spec fn row_cells(ev: Seq<HtmlEvent>, q: int) -> Seq<Seq<char>>
    decreases ev.len() - q,
{
    if q < 0 || q >= ev.len() || ev[q] is Close || subtree_end(ev, q) <= q || subtree_end(ev, q)
        > ev.len() {
        seq![]
    } else {
        (if is_element(ev[q], "td"@) || is_element(ev[q], "th"@) {
            seq![collected_text(ev, q)]
        } else {
            seq![]
        }) + row_cells(ev, subtree_end(ev, q))
    }
}

/// The rows of a table between positions `a` and `b`: for each element
/// named `tr` in document order, its cells joined by " | ".
pub open spec fn table_rows(ev: Seq<HtmlEvent>, a: int, b: int) -> Seq<Seq<char>>
    decreases b - a,
{
    if a >= b || a < 0 || a >= ev.len() {
        seq![]
    } else {
        (if is_element(ev[a], "tr"@) {
            seq![join(row_cells(ev, a + 1), " | "@)]
        } else {
            seq![]
        }) + table_rows(ev, a + 1, b)
    }
}

/// The list items of a list whose children start at `q`: for each child
/// element named `li` whose collected text is not empty, a text block.
pub open spec fn list_items(ev: Seq<HtmlEvent>, q: int) -> Seq<BlockModel>
    decreases ev.len() - q,
{
    if q < 0 || q >= ev.len() || ev[q] is Close || subtree_end(ev, q) <= q || subtree_end(ev, q)
        > ev.len() {
        seq![]
    } else {
        (if is_element(ev[q], "li"@) && collected_text(ev, q).len() > 0 {
            seq![text_block(collected_text(ev, q))]
        } else {
            seq![]
        }) + list_items(ev, subtree_end(ev, q))
    }
}

/// The alternative text of an image element, or nothing.
pub open spec fn alt_text(e: HtmlEvent) -> Seq<char> {
    match e {
        HtmlEvent::Element { alt: Some(a), .. } => a@,
        _ => seq![],
    }
}

/// The blocks of the element entered at `p`: nothing for skipped elements;
/// a heading for `h1` to `h6` with text; a code block for `pre`; a table
/// block for `table` (its rows joined by line feeds); an image block with
/// the `alt` text for `img`; a text block for each `li` child with text of
/// `ul` and `ol`; one text block for the text of a container with text;
/// for any other element, the blocks of its children.
pub open spec fn element_blocks(ev: Seq<HtmlEvent>, p: int) -> Seq<BlockModel>
    decreases ev.len() - p, 0int,
{
    if p < 0 || p >= ev.len() {
        seq![]
    } else {
        match element_name(ev[p]) {
            None => seq![],
            Some(name) => if is_skipped(name) {
                seq![]
            } else if is_heading(name) {
                if collected_text(ev, p).len() > 0 {
                    seq![heading_block(collected_text(ev, p), heading_level(name))]
                } else {
                    seq![]
                }
            } else if name == "pre"@ {
                seq![other_block(BlockKind::Code, collected_text(ev, p))]
            } else if name == "table"@ {
                seq![
                    other_block(
                        BlockKind::Table,
                        join(table_rows(ev, p + 1, subtree_end(ev, p)), "\n"@),
                    ),
                ]
            } else if name == "img"@ {
                seq![other_block(BlockKind::Image, alt_text(ev[p]))]
            } else if name == "ul"@ || name == "ol"@ {
                list_items(ev, p + 1)
            } else if is_text_container(name) {
                if collected_text(ev, p).len() > 0 {
                    seq![text_block(collected_text(ev, p))]
                } else {
                    seq![]
                }
            } else {
                child_blocks(ev, p + 1, true)
            },
        }
    }
}

/// The blocks of the children starting at `q`: those of each child
/// element, and, where `with_text` holds, a text block for each child text
/// node whose trimmed text is not empty.
pub open spec fn child_blocks(ev: Seq<HtmlEvent>, q: int, with_text: bool) -> Seq<BlockModel>
    decreases ev.len() - q, 1int,
{
    if q < 0 || q >= ev.len() || ev[q] is Close || subtree_end(ev, q) <= q || subtree_end(ev, q)
        > ev.len() {
        seq![]
    } else {
        (match ev[q] {
            HtmlEvent::Element { .. } => element_blocks(ev, q),
            HtmlEvent::Text(t) => if with_text && trim(t@).len() > 0 {
                seq![text_block(trim(t@))]
            } else {
                seq![]
            },
            _ => seq![],
        }) + child_blocks(ev, subtree_end(ev, q), with_text)
    }
}

/// What one element adds to the blocks read so far: the blocks are only
/// appended to, a skipped element (script, style, navigation, header,
/// footer, aside) adds nothing, `pre` adds one code block of its text with
/// whitespace runs collapsed and outer whitespace dropped, and `img` adds
/// one image block of its `alt` text (empty where it has none).
pub proof fn law_element_blocks(before: Seq<BlockModel>, ev: Seq<HtmlEvent>, p: int, name: Seq<char>)
    requires
        0 <= p < ev.len(),
        element_name(ev[p]) == Some(name),
    ensures
        (before + element_blocks(ev, p)).take(before.len() as int) == before,
        is_skipped(name) ==> before + element_blocks(ev, p) == before,
        name == "pre"@ ==> element_blocks(ev, p) == seq![other_block(BlockKind::Code, normalize_ws(node_text(ev, p)))],
        name == "img"@ ==> element_blocks(ev, p) == seq![other_block(BlockKind::Image, alt_text(ev[p]))],
{
    assert((before + element_blocks(ev, p)).take(before.len() as int) =~= before);
    if is_skipped(name) {
        assert(before + element_blocks(ev, p) =~= before);
    }
    if name == "pre"@ || name == "img"@ {
        reveal_strlit("pre");
        reveal_strlit("img");
        reveal_strlit("script");
        reveal_strlit("style");
        reveal_strlit("nav");
        reveal_strlit("header");
        reveal_strlit("footer");
        reveal_strlit("aside");
        reveal_strlit("table");
        assert(!is_skipped(name));
        assert(!is_heading(name));
    }
}

/// Scripts, styles, navigation, page headers and footers and asides are
/// left out of the article: an element named `script`, `style`, `nav`,
/// `header`, `footer` or `aside` gives no block, whatever it holds.
pub proof fn law_page_furniture_gives_no_blocks(ev: Seq<HtmlEvent>, p: int)
    requires
        0 <= p < ev.len(),
        element_name(ev[p]) == Some("script"@) || element_name(ev[p]) == Some("style"@)
            || element_name(ev[p]) == Some("nav"@) || element_name(ev[p]) == Some("header"@)
            || element_name(ev[p]) == Some("footer"@) || element_name(ev[p]) == Some("aside"@),
    ensures
        element_blocks(ev, p) == Seq::<BlockModel>::empty(),
{
}

proof fn lemma_literal_names()
    ensures
        "h1"@ == seq!['h', '1'] && "h2"@ == seq!['h', '2'] && "h3"@ == seq!['h', '3'],
        "h4"@ == seq!['h', '4'] && "h5"@ == seq!['h', '5'] && "h6"@ == seq!['h', '6'],
        "p"@ == seq!['p'] && "a"@ == seq!['a'] && "li"@ == seq!['l', 'i'],
        "div"@ == seq!['d', 'i', 'v'] && "span"@ == seq!['s', 'p', 'a', 'n'],
        "section"@ == seq!['s', 'e', 'c', 't', 'i', 'o', 'n'],
        "blockquote"@ == seq!['b', 'l', 'o', 'c', 'k', 'q', 'u', 'o', 't', 'e'],
        "script"@ == seq!['s', 'c', 'r', 'i', 'p', 't'] && "style"@ == seq!['s', 't', 'y', 'l', 'e'],
        "nav"@ == seq!['n', 'a', 'v'] && "header"@ == seq!['h', 'e', 'a', 'd', 'e', 'r'],
        "footer"@ == seq!['f', 'o', 'o', 't', 'e', 'r'] && "aside"@ == seq!['a', 's', 'i', 'd', 'e'],
        "pre"@ == seq!['p', 'r', 'e'] && "table"@ == seq!['t', 'a', 'b', 'l', 'e'],
        "img"@ == seq!['i', 'm', 'g'] && "ul"@ == seq!['u', 'l'] && "ol"@ == seq!['o', 'l'],
{
    reveal_strlit("h1");
    reveal_strlit("h2");
    reveal_strlit("h3");
    reveal_strlit("h4");
    reveal_strlit("h5");
    reveal_strlit("h6");
    reveal_strlit("p");
    reveal_strlit("a");
    reveal_strlit("li");
    reveal_strlit("div");
    reveal_strlit("span");
    reveal_strlit("section");
    reveal_strlit("blockquote");
    reveal_strlit("script");
    reveal_strlit("style");
    reveal_strlit("nav");
    reveal_strlit("header");
    reveal_strlit("footer");
    reveal_strlit("aside");
    reveal_strlit("pre");
    reveal_strlit("table");
    reveal_strlit("img");
    reveal_strlit("ul");
    reveal_strlit("ol");
}

/// A heading element `h1` to `h6` with text gives one heading block of its
/// collected text, at the level its name gives.
pub proof fn law_heading_elements(ev: Seq<HtmlEvent>, p: int, level: u8)
    requires
        0 <= p < ev.len(),
        1 <= level <= 6,
        element_name(ev[p]) == Some(if level == 1 {
            "h1"@
        } else if level == 2 {
            "h2"@
        } else if level == 3 {
            "h3"@
        } else if level == 4 {
            "h4"@
        } else if level == 5 {
            "h5"@
        } else {
            "h6"@
        }),
        collected_text(ev, p).len() > 0,
    ensures
        element_blocks(ev, p) == seq![heading_block(collected_text(ev, p), level)],
{
    lemma_literal_names();
    let name = element_name(ev[p])->0;
    assert(name.len() == 2 && name[0] == 'h');
    assert(!is_skipped(name));
    assert(is_heading(name));
    assert(heading_level(name) == level);
}

/// A paragraph, division, section, span, block quote, list item or link
/// element with text gives one text block of its collected text.
pub proof fn law_text_container_elements(ev: Seq<HtmlEvent>, p: int)
    requires
        0 <= p < ev.len(),
        element_name(ev[p]) == Some("p"@) || element_name(ev[p]) == Some("div"@)
            || element_name(ev[p]) == Some("section"@) || element_name(ev[p]) == Some("span"@)
            || element_name(ev[p]) == Some("blockquote"@) || element_name(ev[p]) == Some("li"@)
            || element_name(ev[p]) == Some("a"@),
        collected_text(ev, p).len() > 0,
    ensures
        element_blocks(ev, p) == seq![text_block(collected_text(ev, p))],
{
    lemma_literal_names();
    let name = element_name(ev[p])->0;
    if name == "p"@ {
        assert(name.len() == 1);
    } else if name == "div"@ {
        assert(name.len() == 3 && name[0] == 'd');
    } else if name == "section"@ {
        assert(name.len() == 7);
    } else if name == "span"@ {
        assert(name.len() == 4);
    } else if name == "blockquote"@ {
        assert(name.len() == 10);
    } else if name == "li"@ {
        assert(name.len() == 2 && name[0] == 'l');
    } else {
        assert(name.len() == 1 && name[0] == 'a');
    }
    assert(!is_skipped(name));
    assert(!is_heading(name));
    assert(name != "pre"@ && name != "table"@ && name != "img"@ && name != "ul"@ && name != "ol"@);
    assert(is_text_container(name));
}

/// Among the elements named `name` that have a parent, at positions from
/// `j` on, the one the parser created first: what `Html::select` gives
/// first.
pub open spec fn first_created(ev: Seq<HtmlEvent>, name: Seq<char>, j: int) -> Option<int>
    decreases ev.len() - j,
{
    if j < 0 || j >= ev.len() {
        None
    } else {
        let rest = first_created(ev, name, j + 1);
        if is_selectable(ev[j], name) {
            match rest {
                Some(k) => if rank_of(ev[k]) < rank_of(ev[j]) {
                    Some(k)
                } else {
                    Some(j)
                },
                None => Some(j),
            }
        } else {
            rest
        }
    }
}

/// The creation index of an element.
pub open spec fn rank_of(e: HtmlEvent) -> int {
    match e {
        HtmlEvent::Element { rank, .. } => rank as int,
        _ => 0,
    }
}

/// The first element child of the document node, where the walk starts
/// with one.
pub open spec fn first_element_child(ev: Seq<HtmlEvent>, q: int) -> Option<int>
    decreases ev.len() - q,
{
    if q < 0 || q >= ev.len() || ev[q] is Close || subtree_end(ev, q) <= q || subtree_end(ev, q)
        > ev.len() {
        None
    } else if ev[q] is Element {
        Some(q)
    } else {
        first_element_child(ev, subtree_end(ev, q))
    }
}

/// The element whose children are read: the first `article` that
/// `Html::select` gives, else the first `main`, else the first `body`, else
/// the root element.
pub open spec fn content_root(ev: Seq<HtmlEvent>) -> Option<int> {
    if first_created(ev, "article"@, 0) is Some {
        first_created(ev, "article"@, 0)
    } else if first_created(ev, "main"@, 0) is Some {
        first_created(ev, "main"@, 0)
    } else if first_created(ev, "body"@, 0) is Some {
        first_created(ev, "body"@, 0)
    } else {
        first_element_child(ev, 1)
    }
}

/// The blocks of an HTML walk: those of each element child of the content
/// root.
pub open spec fn html_blocks(ev: Seq<HtmlEvent>) -> Seq<BlockModel> {
    match content_root(ev) {
        Some(r) => child_blocks(ev, r + 1, false),
        None => seq![],
    }
}

/// The title of the document before headings are looked at: the trimmed
/// text of its first `title` element where that is not empty, or
/// `default_title`.
pub open spec fn title_tag_text(ev: Seq<HtmlEvent>, default_title: Seq<char>) -> Seq<char> {
    match first_created(ev, "title"@, 0) {
        Some(p) => if trim(node_text(ev, p)).len() > 0 {
            trim(node_text(ev, p))
        } else {
            default_title
        },
        None => default_title,
    }
}

/// The article of an HTML walk.
pub open spec fn html_article(ev: Seq<HtmlEvent>, default_title: Seq<char>) -> ArticleModel {
    ArticleModel {
        title: title_of(html_blocks(ev), title_tag_text(ev, default_title)),
        blocks: html_blocks(ev),
        source_format: SourceFormat::Html,
    }
}

/// The position just after the subtree of the node entered at `p`.
fn subtree_end_at(ev: &Vec<HtmlEvent>, p: usize) -> (res: usize)
    requires
        p < ev.len(),
    ensures
        res == subtree_end(ev@, p as int),
        p < res <= ev.len(),
{
    proof {
        lemma_subtree_end_bounds(ev@, p as int);
    }
    let mut j = p + 1;
    let mut depth: usize = 1;
    while j < ev.len()
        invariant
            p < j <= ev.len(),
            1 <= depth <= j,
            close_scan(ev@, j as int, depth as nat) == subtree_end(ev@, p as int),
        decreases ev.len() - j,
    {
        match ev[j] {
            HtmlEvent::Close => {
                if depth <= 1 {
                    return j + 1;
                }
                depth -= 1;
            },
            _ => {
                depth += 1;
            },
        }
        j += 1;
    }
    j
}

/// Whether the event leaves a node.
fn is_close(e: &HtmlEvent) -> (res: bool)
    ensures
        res == (*e is Close),
{
    match e {
        HtmlEvent::Close => true,
        _ => false,
    }
}

/// The text of the text nodes entered at positions `a` to `b`.
fn texts_between(ev: &Vec<HtmlEvent>, a: usize, b: usize) -> (res: Vec<char>)
    requires
        a <= b <= ev.len(),
    ensures
        res@ == texts_in(ev@, a as int, b as int),
{
    let mut out: Vec<char> = Vec::new();
    let mut i = a;
    while i < b
        invariant
            a <= i <= b <= ev.len(),
            out@ + texts_in(ev@, i as int, b as int) == texts_in(ev@, a as int, b as int),
        decreases b - i,
    {
        let ghost before = out@;
        match &ev[i] {
            HtmlEvent::Text(t) => {
                push_all(&mut out, &chars_of(t.as_str()));
            },
            _ => {},
        }
        i += 1;
        assert(before + texts_in(ev@, i - 1, b as int) =~= out@ + texts_in(ev@, i as int, b as int));
    }
    assert(out@ + texts_in(ev@, i as int, b as int) =~= out@);
    out
}

/// The text of the node entered at `p`.
fn node_text_at(ev: &Vec<HtmlEvent>, p: usize) -> (res: Vec<char>)
    requires
        p < ev.len(),
    ensures
        res@ == node_text(ev@, p as int),
{
    let end = subtree_end_at(ev, p);
    texts_between(ev, p + 1, end)
}

/// The collected text of the node entered at `p`.
fn collect_text(ev: &Vec<HtmlEvent>, p: usize) -> (res: Vec<char>)
    requires
        p < ev.len(),
    ensures
        res@ == collected_text(ev@, p as int),
{
    normalize_whitespace(&node_text_at(ev, p))
}

/// Whether the event enters an element named `name`.
fn element_named(e: &HtmlEvent, name: &str) -> (res: bool)
    ensures
        res == is_element(*e, name@),
{
    match e {
        HtmlEvent::Element { name: n, .. } => str_equal(n.as_str(), name),
        _ => false,
    }
}

/// The cells of the table row whose children start at `q`.
fn row_cells_at(ev: &Vec<HtmlEvent>, q: usize) -> (res: Vec<Vec<char>>)
    requires
        q <= ev.len(),
    ensures
        views(res@) == row_cells(ev@, q as int),
{
    let mut out: Vec<Vec<char>> = Vec::new();
    let mut c = q;
    while c < ev.len() && !is_close(&ev[c])
        invariant
            q <= c <= ev.len(),
            views(out@) + row_cells(ev@, c as int) == row_cells(ev@, q as int),
        decreases ev.len() - c,
    {
        let end = subtree_end_at(ev, c);
        let ghost before = views(out@);
        if element_named(&ev[c], "td") || element_named(&ev[c], "th") {
            let cell = collect_text(ev, c);
            proof {
                lemma_views_push(out@, cell);
            }
            out.push(cell);
            assert(before + (seq![cell@] + row_cells(ev@, end as int)) =~= views(out@) + row_cells(ev@, end as int));
        } else {
            assert(before + (seq![] + row_cells(ev@, end as int)) =~= views(out@) + row_cells(ev@, end as int));
        }
        c = end;
    }
    assert(views(out@) + row_cells(ev@, c as int) =~= views(out@));
    out
}

/// The rows of the table between positions `a` and `b`.
fn table_rows_between(ev: &Vec<HtmlEvent>, a: usize, b: usize) -> (res: Vec<Vec<char>>)
    requires
        a <= b <= ev.len(),
    ensures
        views(res@) == table_rows(ev@, a as int, b as int),
{
    let sep = chars_of(" | ");
    let mut out: Vec<Vec<char>> = Vec::new();
    let mut i = a;
    while i < b
        invariant
            a <= i <= b <= ev.len(),
            sep@ == " | "@,
            views(out@) + table_rows(ev@, i as int, b as int) == table_rows(ev@, a as int, b as int),
        decreases b - i,
    {
        let ghost before = views(out@);
        if element_named(&ev[i], "tr") {
            let row = join_chars(&row_cells_at(ev, i + 1), &sep);
            proof {
                lemma_views_push(out@, row);
            }
            out.push(row);
        }
        i += 1;
        assert(before + table_rows(ev@, i - 1, b as int) =~= views(out@) + table_rows(ev@, i as int, b as int));
    }
    assert(views(out@) + table_rows(ev@, i as int, b as int) =~= views(out@));
    out
}

/// Appends the list items of the list whose children start at `q`.
fn add_list_items(ev: &Vec<HtmlEvent>, q: usize, blocks: &mut Vec<ContentBlock>)
    requires
        q <= ev.len(),
    ensures
        block_models(final(blocks)@) == block_models(old(blocks)@) + list_items(ev@, q as int),
{
    let mut c = q;
    while c < ev.len() && !is_close(&ev[c])
        invariant
            q <= c <= ev.len(),
            block_models(blocks@) + list_items(ev@, c as int) == block_models(old(blocks)@) + list_items(ev@, q as int),
        decreases ev.len() - c,
    {
        let end = subtree_end_at(ev, c);
        let ghost before = block_models(blocks@);
        if element_named(&ev[c], "li") {
            let t = collect_text(ev, c);
            if t.len() > 0 {
                let b = ContentBlock::text(string_of(&t));
                proof {
                    lemma_block_models_push(blocks@, b);
                }
                blocks.push(b);
            }
        }
        assert(before + list_items(ev@, c as int) =~= block_models(blocks@) + list_items(ev@, end as int));
        c = end;
    }
    assert(block_models(blocks@) + list_items(ev@, c as int) =~= block_models(blocks@));
}

/// Whether `n` is the text of the literal `lit`.
fn is_literal(n: &Vec<char>, lit: &str) -> (res: bool)
    ensures
        res == (n@ == lit@),
{
    chars_equal(n, &chars_of(lit))
}

/// Whether the elements named `n` are left out.
fn skipped_name(n: &Vec<char>) -> (res: bool)
    ensures
        res == is_skipped(n@),
{
    is_literal(n, "script") || is_literal(n, "style") || is_literal(n, "nav") || is_literal(
        n,
        "header",
    ) || is_literal(n, "footer") || is_literal(n, "aside")
}

/// Whether the elements named `n` are text containers.
fn container_name(n: &Vec<char>) -> (res: bool)
    ensures
        res == is_text_container(n@),
{
    is_literal(n, "p") || is_literal(n, "div") || is_literal(n, "section") || is_literal(n, "span")
        || is_literal(n, "blockquote") || is_literal(n, "li") || is_literal(n, "a")
}

/// Appends the blocks of the element entered at `p` to `blocks`: the
/// blocks read so far stay as they are; a skipped element (script, style,
/// navigation, header, footer, aside) adds nothing; `pre` adds one code
/// block of its text with whitespace runs collapsed and outer whitespace
/// dropped; `img` adds one image block of its `alt` text (empty where it
/// has none); see `element_blocks` for the other elements.
pub fn process_element(ev: &Vec<HtmlEvent>, p: usize, blocks: &mut Vec<ContentBlock>)
    requires
        p < ev.len(),
    ensures
        block_models(final(blocks)@) == block_models(old(blocks)@) + element_blocks(ev@, p as int),
        block_models(final(blocks)@).take(old(blocks)@.len() as int) == block_models(old(blocks)@),
        element_name(ev@[p as int]) matches Some(n) && is_skipped(n) ==> block_models(final(blocks)@)
            == block_models(old(blocks)@),
        element_name(ev@[p as int]) == Some("pre"@) ==> block_models(final(blocks)@) == block_models(
            old(blocks)@,
        ).push(other_block(BlockKind::Code, normalize_ws(node_text(ev@, p as int)))),
        element_name(ev@[p as int]) == Some("img"@) ==> block_models(final(blocks)@) == block_models(
            old(blocks)@,
        ).push(other_block(BlockKind::Image, alt_text(ev@[p as int]))),
    decreases ev.len() - p, 0int,
{
    let ghost start = block_models(blocks@);
    proof {
        match element_name(ev@[p as int]) {
            Some(n) => {
                law_element_blocks(start, ev@, p as int, n);
                assert(start.len() == blocks@.len());
                let b1 = other_block(BlockKind::Code, normalize_ws(node_text(ev@, p as int)));
                let b2 = other_block(BlockKind::Image, alt_text(ev@[p as int]));
                assert(start + seq![b1] =~= start.push(b1));
                assert(start + seq![b2] =~= start.push(b2));
            },
            None => {},
        }
    }
    match &ev[p] {
        HtmlEvent::Element { name, alt, .. } => {
            let n = chars_of(name.as_str());
            if skipped_name(&n) {
                assert(start + seq![] =~= start);
                return ;
            }
            if n.len() == 2 && n[0] == 'h' && '1' <= n[1] && n[1] <= '6' {
                let t = collect_text(ev, p);
                if t.len() > 0 {
                    let level = (n[1] as u32 - '0' as u32) as u8;
                    let b = ContentBlock::heading(string_of(&t), level);
                    proof {
                        lemma_block_models_push(blocks@, b);
                    }
                    blocks.push(b);
                } else {
                    assert(start + seq![] =~= start);
                }
            } else if is_literal(&n, "pre") {
                let b = ContentBlock::other(BlockKind::Code, string_of(&collect_text(ev, p)));
                proof {
                    lemma_block_models_push(blocks@, b);
                }
                blocks.push(b);
            } else if is_literal(&n, "table") {
                let end = subtree_end_at(ev, p);
                let rows = table_rows_between(ev, p + 1, end);
                let text = join_chars(&rows, &chars_of("\n"));
                let b = ContentBlock::other(BlockKind::Table, string_of(&text));
                proof {
                    lemma_block_models_push(blocks@, b);
                }
                blocks.push(b);
            } else if is_literal(&n, "img") {
                let a = match alt {
                    Some(a) => chars_of(a.as_str()),
                    None => Vec::new(),
                };
                let b = ContentBlock::other(BlockKind::Image, string_of(&a));
                proof {
                    lemma_block_models_push(blocks@, b);
                }
                blocks.push(b);
            } else if is_literal(&n, "ul") || is_literal(&n, "ol") {
                add_list_items(ev, p + 1, blocks);
            } else if container_name(&n) {
                let t = collect_text(ev, p);
                if t.len() > 0 {
                    let b = ContentBlock::text(string_of(&t));
                    proof {
                        lemma_block_models_push(blocks@, b);
                    }
                    blocks.push(b);
                } else {
                    assert(start + seq![] =~= start);
                }
            } else {
                process_children(ev, p + 1, true, blocks);
            }
        },
        _ => {
            assert(start + seq![] =~= start);
        },
    }
}

/// Appends the blocks of the children starting at `q`.
fn process_children(ev: &Vec<HtmlEvent>, q: usize, with_text: bool, blocks: &mut Vec<ContentBlock>)
    requires
        q <= ev.len(),
    ensures
        block_models(final(blocks)@) == block_models(old(blocks)@) + child_blocks(
            ev@,
            q as int,
            with_text,
        ),
    decreases ev.len() - q, 1int,
{
    let mut c = q;
    while c < ev.len() && !is_close(&ev[c])
        invariant
            q <= c <= ev.len(),
            block_models(blocks@) + child_blocks(ev@, c as int, with_text) == block_models(
                old(blocks)@,
            ) + child_blocks(ev@, q as int, with_text),
        decreases ev.len() - c,
    {
        let end = subtree_end_at(ev, c);
        let ghost before = block_models(blocks@);
        let ghost mid: Seq<BlockModel> = match ev@[c as int] {
            HtmlEvent::Element { .. } => element_blocks(ev@, c as int),
            HtmlEvent::Text(t) => if with_text && trim(t@).len() > 0 {
                seq![text_block(trim(t@))]
            } else {
                seq![]
            },
            _ => seq![],
        };
        match &ev[c] {
            HtmlEvent::Element { .. } => {
                process_element(ev, c, blocks);
            },
            HtmlEvent::Text(t) => {
                if with_text {
                    let tt = trim_chars(&chars_of(t.as_str()));
                    if tt.len() > 0 {
                        let b = ContentBlock::text(string_of(&tt));
                        proof {
                            lemma_block_models_push(blocks@, b);
                        }
                        blocks.push(b);
                    }
                }
            },
            _ => {},
        }
        assert(block_models(blocks@) =~= before + mid);
        assert(before + child_blocks(ev@, c as int, with_text) =~= block_models(blocks@)
            + child_blocks(ev@, end as int, with_text));
        c = end;
    }
    assert(block_models(blocks@) + child_blocks(ev@, c as int, with_text) =~= block_models(blocks@));
}

/// The creation index of the element entered by `e`.
fn rank_at(e: &HtmlEvent) -> (res: usize)
    ensures
        res as int == rank_of(*e),
{
    match e {
        HtmlEvent::Element { rank, .. } => *rank,
        _ => 0,
    }
}

/// Whether the event enters an element named `name` that has a parent.
fn selectable_named(e: &HtmlEvent, name: &str) -> (res: bool)
    ensures
        res == is_selectable(*e, name@),
{
    match e {
        HtmlEvent::Element { name: n, attached, .. } => *attached && str_equal(n.as_str(), name),
        _ => false,
    }
}

/// The element named `name` that `Html::select` gives first.
fn first_created_at(ev: &Vec<HtmlEvent>, name: &str) -> (res: Option<usize>)
    ensures
        match res {
            Some(k) => first_created(ev@, name@, 0) == Some(k as int) && k < ev.len(),
            None => first_created(ev@, name@, 0) is None,
        },
{
    let mut best: Option<usize> = None;
    let mut j = ev.len();
    while j > 0
        invariant
            j <= ev.len(),
            match best {
                Some(k) => first_created(ev@, name@, j as int) == Some(k as int) && k < ev.len(),
                None => first_created(ev@, name@, j as int) is None,
            },
        decreases j,
    {
        j -= 1;
        if selectable_named(&ev[j], name) {
            best = match best {
                Some(k) => if rank_at(&ev[k]) < rank_at(&ev[j]) {
                    Some(k)
                } else {
                    Some(j)
                },
                None => Some(j),
            };
        }
    }
    best
}

/// The first element child of the document node.
fn first_element_child_at(ev: &Vec<HtmlEvent>, q: usize) -> (res: Option<usize>)
    requires
        q <= ev.len(),
    ensures
        match res {
            Some(k) => first_element_child(ev@, q as int) == Some(k as int) && k < ev.len(),
            None => first_element_child(ev@, q as int) is None,
        },
{
    let mut c = q;
    while c < ev.len() && !is_close(&ev[c])
        invariant
            q <= c <= ev.len(),
            first_element_child(ev@, c as int) == first_element_child(ev@, q as int),
        decreases ev.len() - c,
    {
        let end = subtree_end_at(ev, c);
        match &ev[c] {
            HtmlEvent::Element { .. } => {
                return Some(c);
            },
            _ => {},
        }
        c = end;
    }
    None
}

/// The element whose children are read.
fn content_root_at(ev: &Vec<HtmlEvent>) -> (res: Option<usize>)
    ensures
        match res {
            Some(k) => content_root(ev@) == Some(k as int) && k < ev.len(),
            None => content_root(ev@) is None,
        },
{
    match first_created_at(ev, "article") {
        Some(k) => {
            return Some(k);
        },
        None => {},
    }
    match first_created_at(ev, "main") {
        Some(k) => {
            return Some(k);
        },
        None => {},
    }
    match first_created_at(ev, "body") {
        Some(k) => {
            return Some(k);
        },
        None => {},
    }
    if ev.len() == 0 {
        return None;
    }
    first_element_child_at(ev, 1)
}

/// The article of an HTML walk: the blocks of the element children of the
/// first `article`, else `main`, else `body` (else the root element), where
/// scripts, styles, navigation, headers, footers and asides are left out,
/// headings, `pre` (code), tables (rows of cells joined by " | "), images
/// (their `alt` text), list items and text containers each become blocks
/// with their whitespace normalized, and other elements are looked into.
/// The title is the first level-1 heading, else the trimmed text of the
/// first `title` element, else `default_title`.
pub fn parse_events(ev: &Vec<HtmlEvent>, default_title: String) -> (res: ParsedArticle)
    ensures
        res@ == html_article(ev@, default_title@),
{
    let mut title = default_title;
    match first_created_at(ev, "title") {
        Some(p) => {
            let t = trim_chars(&node_text_at(ev, p));
            if t.len() > 0 {
                title = string_of(&t);
            }
        },
        None => {},
    }
    let mut blocks: Vec<ContentBlock> = Vec::new();
    match content_root_at(ev) {
        Some(r) => {
            process_children(ev, r + 1, false, &mut blocks);
            assert(block_models(blocks@) =~= html_blocks(ev@));
        },
        None => {
            assert(block_models(blocks@) =~= html_blocks(ev@));
        },
    }
    let title = title_from_blocks(&blocks, title);
    ParsedArticle { title, blocks, source_format: SourceFormat::Html }
}

/// Parses an HTML article with `scraper` and reads its content elements
/// into blocks.
pub fn parse(raw: &str, default_title: String) -> (res: ParsedArticle)
    ensures
        res@ == html_article(html_event_stream(raw@), default_title@),
{
    let events = html_events(raw);
    parse_events(&events, default_title)
}

} // verus!
