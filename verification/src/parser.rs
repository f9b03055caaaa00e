//! The article model shared by the parsers: content blocks, their kinds,
//! the source format, and the title rule.

pub mod html;
pub mod markdown;
pub mod text;

use crate::text::{chars_equal, chars_of, push_all, slice_chars, string_of};
use vstd::prelude::*;

verus! {

/// What a content block holds.
#[derive(Debug, Clone, Copy, PartialEq, Eq, Structural)]
pub enum BlockKind {
    Text,
    Heading,
    Code,
    Math,
    Table,
    Image,
}

/// One block of an article: its kind, its text, and for a heading its
/// level (1 to 6; 0 for other blocks).
#[derive(Debug)]
pub struct ContentBlock {
    pub kind: BlockKind,
    pub content: String,
    pub level: u8,
}

/// The mathematical value of a content block.
pub struct BlockModel {
    pub kind: BlockKind,
    pub content: Seq<char>,
    pub level: u8,
}

impl View for ContentBlock {
    type V = BlockModel;

    open spec fn view(&self) -> BlockModel {
        BlockModel { kind: self.kind, content: self.content@, level: self.level }
    }
}

impl Clone for ContentBlock {
    fn clone(&self) -> (res: Self)
        ensures
            res@ == self@,
    {
        ContentBlock { kind: self.kind, content: self.content.clone(), level: self.level }
    }
}

/// A text block of `content`.
pub open spec fn text_block(content: Seq<char>) -> BlockModel {
    BlockModel { kind: BlockKind::Text, content, level: 0 }
}

/// A heading block of `content` at `level`.
pub open spec fn heading_block(content: Seq<char>, level: u8) -> BlockModel {
    BlockModel { kind: BlockKind::Heading, content, level }
}

/// A block of `kind` holding `content`, with level 0.
pub open spec fn other_block(kind: BlockKind, content: Seq<char>) -> BlockModel {
    BlockModel { kind, content, level: 0 }
}

impl ContentBlock {
    /// A text block.
    pub fn text(content: String) -> (res: Self)
        ensures
            res@ == text_block(content@),
    {
        ContentBlock { kind: BlockKind::Text, content, level: 0 }
    }

    /// A heading block at `level`.
    pub fn heading(content: String, level: u8) -> (res: Self)
        ensures
            res@ == heading_block(content@, level),
    {
        ContentBlock { kind: BlockKind::Heading, content, level }
    }

    /// A block of any kind, with level 0.
    pub fn other(kind: BlockKind, content: String) -> (res: Self)
        ensures
            res@ == other_block(kind, content@),
    {
        ContentBlock { kind, content, level: 0 }
    }
}

/// The format an article was written in.
#[derive(Debug, Clone, Copy, PartialEq, Eq, Structural)]
pub enum SourceFormat {
    Markdown,
    Html,
    Text,
}

/// A parsed article: its title, its blocks in reading order, and its format.
#[derive(Debug)]
pub struct ParsedArticle {
    pub title: String,
    pub blocks: Vec<ContentBlock>,
    pub source_format: SourceFormat,
}

/// The mathematical value of an article.
pub struct ArticleModel {
    pub title: Seq<char>,
    pub blocks: Seq<BlockModel>,
    pub source_format: SourceFormat,
}

/// The models of a sequence of blocks.
pub open spec fn block_models(blocks: Seq<ContentBlock>) -> Seq<BlockModel> {
    blocks.map_values(|b: ContentBlock| b@)
}

pub proof fn lemma_block_models_push(blocks: Seq<ContentBlock>, b: ContentBlock)
    ensures
        block_models(blocks.push(b)) == block_models(blocks).push(b@),
{
    assert(block_models(blocks.push(b)) =~= block_models(blocks).push(b@));
}

impl View for ParsedArticle {
    type V = ArticleModel;

    open spec fn view(&self) -> ArticleModel {
        ArticleModel {
            title: self.title@,
            blocks: block_models(self.blocks@),
            source_format: self.source_format,
        }
    }
}

/// The text of the first level-1 heading among `blocks`, if there is one.
pub open spec fn first_h1(blocks: Seq<BlockModel>) -> Option<Seq<char>>
    decreases blocks.len(),
{
    if blocks.len() == 0 {
        None
    } else if blocks[0].kind == BlockKind::Heading && blocks[0].level == 1 {
        Some(blocks[0].content)
    } else {
        first_h1(blocks.drop_first())
    }
}

/// The title of an article with these blocks: its first level-1 heading,
/// or `default` where it has none.
pub open spec fn title_of(blocks: Seq<BlockModel>, default: Seq<char>) -> Seq<char> {
    match first_h1(blocks) {
        Some(t) => t,
        None => default,
    }
}

/// The text of the first level-1 heading among `blocks`, or `default`.
pub fn title_from_blocks(blocks: &Vec<ContentBlock>, default: String) -> (res: String)
    ensures
        res@ == title_of(block_models(blocks@), default@),
{
    let ghost bm = block_models(blocks@);
    let mut i: usize = 0;
    assert(bm.skip(0) =~= bm);
    while i < blocks.len()
        invariant
            i <= blocks.len(),
            bm == block_models(blocks@),
            first_h1(bm) == first_h1(bm.skip(i as int)),
        decreases blocks.len() - i,
    {
        assert(bm.skip(i as int)[0] == blocks@[i as int]@);
        if blocks[i].kind == BlockKind::Heading && blocks[i].level == 1 {
            return blocks[i].content.clone();
        }
        assert(bm.skip(i as int).drop_first() =~= bm.skip(i + 1));
        i += 1;
    }
    default
}

/// The text that `chardetng` and `encoding_rs` make of `bytes`.
pub uninterp spec fn detected_text(bytes: Seq<u8>) -> Seq<char>;

/// Guesses the encoding of `bytes` with `chardetng::EncodingDetector`
/// (`feed(bytes, true)`, then `guess(None, true)`) and decodes them with
/// that `encoding_rs::Encoding`'s `decode` (which also honours a byte-order
/// mark). The contract names the text; the detection is not spelled out.
/// `decode` panics where the size of its output buffer overflows `usize`,
/// which no input that fits in memory reaches.
#[verifier::external_body]
fn detect_and_decode(bytes: &[u8]) -> (res: String)
    ensures
        res@ == detected_text(bytes@),
{
    let mut detector = chardetng::EncodingDetector::new();
    detector.feed(bytes, true);
    let encoding = detector.guess(None, true);
    let (text, _, _) = encoding.decode(bytes);
    text.into_owned()
}

/// The text of a file's bytes: empty for no bytes, otherwise decoded from
/// the encoding detected.
pub open spec fn decoded_text(bytes: Seq<u8>) -> Seq<char> {
    if bytes.len() == 0 {
        seq![]
    } else {
        detected_text(bytes)
    }
}

/// Decodes the bytes of a file, guessing their encoding.
pub fn decode_text(bytes: &[u8]) -> (res: String)
    ensures
        res@ == decoded_text(bytes@),
{
    if bytes.len() == 0 {
        return string_of(&Vec::new());
    }
    detect_and_decode(bytes)
}

/// What `str::to_lowercase` returns for `s`.
pub uninterp spec fn lowercase(s: Seq<char>) -> Seq<char>;

/// `s` holds ASCII characters only.
pub open spec fn is_ascii_text(s: Seq<char>) -> bool {
    forall|i: int| 0 <= i < s.len() ==> (#[trigger] s[i] as u32) < 128
}

/// The ASCII lowercase form of `s`: `A` to `Z` become `a` to `z`, every
/// other character stays.
pub open spec fn ascii_lowercase(s: Seq<char>) -> Seq<char> {
    s.map_values(
        |c: char|
            if 'A' <= c && c <= 'Z' {
                ((c as u32) + 32) as char
            } else {
                c
            },
    )
}

/// `str::to_lowercase`: the lowercase form of `s` by the Unicode
/// `Lowercase` mapping. The contract names the result, and states what
/// that mapping does to ASCII text: `A` to `Z` become `a` to `z`, other
/// ASCII characters stay (the documentation's own example turns "HELLO"
/// into "hello"). What it does outside ASCII is left unsaid.
#[verifier::external_body]
fn to_lowercase(s: &str) -> (res: String)
    ensures
        res@ == lowercase(s@),
        is_ascii_text(s@) ==> res@ == ascii_lowercase(s@),
{
    s.to_lowercase()
}

/// The position of the last `.` in `s`, if it has one.
pub open spec fn last_dot(s: Seq<char>) -> Option<int>
    decreases s.len(),
{
    if s.len() == 0 {
        None
    } else if s.last() == '.' {
        Some(s.len() - 1)
    } else {
        last_dot(s.drop_last())
    }
}

/// The stem of a file name, as `Path::file_stem` gives it: the name up to
/// its last `.`, or the whole name where it has no `.` but at its start,
/// or is "..".
pub open spec fn file_stem(name: Seq<char>) -> Seq<char> {
    if name == ".."@ {
        name
    } else {
        match last_dot(name) {
            Some(i) => if i == 0 {
                name
            } else {
                name.take(i)
            },
            None => name,
        }
    }
}

/// The extension of a file name, as `Path::extension` gives it: what
/// follows its last `.`, where that `.` is not at its start and the name is
/// not "..".
pub open spec fn file_extension(name: Seq<char>) -> Option<Seq<char>> {
    if name == ".."@ {
        None
    } else {
        match last_dot(name) {
            Some(i) => if i == 0 {
                None
            } else {
                Some(name.skip(i + 1))
            },
            None => None,
        }
    }
}

/// Where the file's extension is ASCII, its format key is the extension in
/// ASCII lowercase after a `.`.
pub open spec fn ascii_key(file_name: Option<Seq<char>>) -> bool {
    match file_name {
        Some(n) => match file_extension(n) {
            Some(e) => is_ascii_text(e) ==> format_key(file_name) == "."@ + ascii_lowercase(e),
            None => true,
        },
        None => true,
    }
}

/// The format key of a file: its extension in lowercase after a `.`, or
/// nothing where it has no extension (or no name).
pub open spec fn format_key(file_name: Option<Seq<char>>) -> Seq<char> {
    match file_name {
        Some(n) => match file_extension(n) {
            Some(e) => "."@ + lowercase(e),
            None => seq![],
        },
        None => seq![],
    }
}

/// The default title of a file: its stem, or "untitled" where it has no
/// name.
pub open spec fn default_title(file_name: Option<Seq<char>>) -> Seq<char> {
    match file_name {
        Some(n) => file_stem(n),
        None => "untitled"@,
    }
}

/// The position of the last `.` in `s`.
fn find_last_dot(s: &Vec<char>) -> (res: Option<usize>)
    ensures
        match res {
            Some(i) => last_dot(s@) == Some(i as int) && i < s.len(),
            None => last_dot(s@) is None,
        },
{
    let mut j = s.len();
    assert(s@.take(j as int) =~= s@);
    while j > 0
        invariant
            j <= s.len(),
            last_dot(s@) == last_dot(s@.take(j as int)),
        decreases j,
    {
        assert(s@.take(j as int).drop_last() =~= s@.take(j - 1));
        if s[j - 1] == '.' {
            return Some(j - 1);
        }
        j -= 1;
    }
    assert(s@.take(0).len() == 0);
    None
}

/// Why a file is not parsed.
#[derive(Debug)]
pub enum ParseError {
    /// Its format key is none of ".md", ".html", ".htm", ".txt".
    UnsupportedFormat(String),
}

/// The article in a file named `file_name` with text `raw`, or the error.
pub open spec fn file_article(file_name: Option<Seq<char>>, raw: Seq<char>) -> Result<
    ArticleModel,
    Seq<char>,
> {
    let key = format_key(file_name);
    let title = default_title(file_name);
    if key == ".md"@ {
        Ok(markdown::md_article(markdown::markdown_event_stream(raw), title))
    } else if key == ".html"@ || key == ".htm"@ {
        Ok(html::html_article(html::html_event_stream(raw), title))
    } else if key == ".txt"@ {
        Ok(text::text_article(raw, title))
    } else {
        Err(key)
    }
}

/// Whether `chars` is the text of `lit`.
fn is_literal(chars: &Vec<char>, lit: &str) -> (res: bool)
    ensures
        res == (chars@ == lit@),
{
    chars_equal(chars, &chars_of(lit))
}

/// Parses the text `raw` of a file by the format its name's extension
/// gives (case aside): Markdown for `.md`, HTML for `.html` and `.htm`,
/// plain text for `.txt`; the default title is the file's stem, or
/// "untitled". Any other extension, or none, is refused with the format key
/// (the lowercase extension after a `.`, or empty).
pub fn parse_file(file_name: Option<&str>, raw: &str) -> (res: Result<ParsedArticle, ParseError>)
    requires
        format_key(opt_view(file_name)) == ".txt"@ ==> text::heading_levels_fit(raw@),
    ensures
        match res {
            Ok(a) => file_article(opt_view(file_name), raw@) == Ok::<ArticleModel, Seq<char>>(a@),
            Err(ParseError::UnsupportedFormat(k)) => file_article(opt_view(file_name), raw@)
                == Err::<ArticleModel, Seq<char>>(k@),
        },
        ascii_key(opt_view(file_name)),
{
    let key = chars_of(format_key_of(file_name).as_str());
    let title = title_of_file(file_name);
    assert(key@ == format_key(opt_view(file_name)));
    assert(title@ == default_title(opt_view(file_name)));
    if is_literal(&key, ".md") {
        Ok(markdown::parse(raw, title))
    } else if is_literal(&key, ".html") || is_literal(&key, ".htm") {
        Ok(html::parse(raw, title))
    } else if is_literal(&key, ".txt") {
        Ok(text::parse(raw, title))
    } else {
        Err(ParseError::UnsupportedFormat(string_of(&key)))
    }
}

/// The view of an optional string.
pub open spec fn opt_view(s: Option<&str>) -> Option<Seq<char>> {
    match s {
        Some(t) => Some(t@),
        None => None,
    }
}

/// The format key of a file named `file_name`: its extension in lowercase
/// after a `.`, or empty where it has none.
pub fn format_key_of(file_name: Option<&str>) -> (res: String)
    ensures
        res@ == format_key(opt_view(file_name)),
        ascii_key(opt_view(file_name)),
{
    match file_name {
        Some(n) => {
            let chars = chars_of(n);
            let dotdot = is_literal(&chars, "..");
            match find_last_dot(&chars) {
                Some(i) => if i == 0 || dotdot {
                    string_of(&Vec::new())
                } else {
                    let ext = slice_chars(&chars, i + 1, chars.len());
                    assert(ext@ =~= chars@.skip(i + 1));
                    let mut k = chars_of(".");
                    push_all(&mut k, &chars_of(to_lowercase(string_of(&ext).as_str()).as_str()));
                    string_of(&k)
                },
                None => string_of(&Vec::new()),
            }
        },
        None => string_of(&Vec::new()),
    }
}

/// The default title of a file named `file_name`: its stem, or "untitled".
pub fn title_of_file(file_name: Option<&str>) -> (res: String)
    ensures
        res@ == default_title(opt_view(file_name)),
{
    match file_name {
        Some(n) => {
            let chars = chars_of(n);
            let dotdot = is_literal(&chars, "..");
            match find_last_dot(&chars) {
                Some(i) => if i == 0 || dotdot {
                    string_of(&chars)
                } else {
                    let stem = slice_chars(&chars, 0, i);
                    assert(stem@ =~= chars@.take(i as int));
                    string_of(&stem)
                },
                None => string_of(&chars),
            }
        },
        None => string_of(&chars_of("untitled")),
    }
}

} // verus!
