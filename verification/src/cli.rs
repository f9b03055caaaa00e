//! The command line: its options, and the decisions the program takes on
//! them (accepted input formats, what is reported about the parsed
//! article, and the file names of section outputs).

use crate::parser::{block_models, BlockKind, BlockModel, ContentBlock, ParsedArticle};
use crate::preprocess::{preprocess, preprocess_ssml, reading_text, ssml_text};
use crate::text::{chars_equal, chars_of, push_all, string_of, trim, trim_chars};
use vstd::prelude::*;

verus! {

/// The options of the command line.
#[derive(Debug)]
pub struct Cli {
    /// The article to read.
    pub input_file: Option<String>,
    /// The output file; by default the input with the extension `.mp3`.
    pub output: Option<String>,
    /// The voice alias or full voice name.
    pub voice: String,
    /// The speed, such as `+20%` or `-10%`.
    pub speed: String,
    /// Whether to write one file per section.
    pub split: bool,
    /// Whether to list the voices only.
    pub list_voices: bool,
    /// How many chunks are synthesized at once.
    pub concurrency: usize,
    /// Whether to read the SSML form, with pauses.
    pub ssml: bool,
}

/// The format keys of the input files accepted.
pub open spec fn supported_format_keys() -> Seq<Seq<char>> {
    seq![".md"@, ".txt"@, ".html"@, ".htm"@]
}

/// The format keys of the input files accepted, in order.
pub fn supported_formats() -> (res: Vec<&'static str>)
    ensures
        res@.map_values(|s: &str| s@) == supported_format_keys(),
{
    let res = vec![".md", ".txt", ".html", ".htm"];
    assert(res@.map_values(|s: &str| s@) =~= supported_format_keys());
    res
}

/// Whether files with the format key `key` are accepted.
pub fn is_supported_format(key: &str) -> (res: bool)
    ensures
        res == supported_format_keys().contains(key@),
{
    let formats = supported_formats();
    let k = chars_of(key);
    let ghost fs = supported_format_keys();
    let mut i: usize = 0;
    while i < formats.len()
        invariant
            i <= formats.len(),
            formats@.map_values(|s: &str| s@) == fs,
            fs == supported_format_keys(),
            k@ == key@,
            forall|j: int| 0 <= j < i ==> fs[j] != key@,
        decreases formats.len() - i,
    {
        assert(fs[i as int] == formats@[i as int]@);
        if chars_equal(&chars_of(formats[i]), &k) {
            assert(fs[i as int] == key@);
            return true;
        }
        i += 1;
    }
    false
}

/// Whether a block is left out of the reading (code, formula, table).
pub open spec fn is_skipped_block(b: BlockModel) -> bool {
    b.kind == BlockKind::Code || b.kind == BlockKind::Math || b.kind == BlockKind::Table
}

/// The number of blocks that are left out of the reading.
pub open spec fn skipped_count(blocks: Seq<BlockModel>) -> nat {
    blocks.filter(|b: BlockModel| is_skipped_block(b)).len()
}

/// The number of code blocks, formulas and tables among `blocks`.
pub fn count_skipped_blocks(blocks: &Vec<ContentBlock>) -> (res: usize)
    ensures
        res == skipped_count(block_models(blocks@)),
{
    let ghost bm = block_models(blocks@);
    let ghost f = |b: BlockModel| is_skipped_block(b);
    let mut n: usize = 0;
    let mut i: usize = 0;
    assert(bm.take(0) =~= seq![]);
    proof {
        reveal(Seq::filter);
    }
    while i < blocks.len()
        invariant
            i <= blocks.len(),
            bm == block_models(blocks@),
            f == (|b: BlockModel| is_skipped_block(b)),
            n == bm.take(i as int).filter(f).len(),
            n <= i,
        decreases blocks.len() - i,
    {
        proof {
            reveal(Seq::filter);
            assert(bm.take(i + 1).drop_last() =~= bm.take(i as int));
            assert(bm.take(i + 1).last() == blocks@[i as int]@);
        }
        let k = blocks[i].kind;
        if k == BlockKind::Code || k == BlockKind::Math || k == BlockKind::Table {
            n += 1;
        }
        i += 1;
    }
    assert(bm.take(blocks.len() as int) =~= bm);
    n
}

/// The text read for a whole article in one file: its SSML document where
/// `ssml` is set, else its reading text.
pub open spec fn article_speech_text(blocks: Seq<BlockModel>, ssml: bool) -> Seq<char> {
    if ssml {
        ssml_text(blocks)
    } else {
        reading_text(blocks)
    }
}

/// The text to synthesize for a whole article in one file, or `None` where
/// that text is blank and the conversion is refused.
pub fn speech_text(article: &ParsedArticle, ssml: bool) -> (res: Option<String>)
    ensures
        match res {
            Some(t) => t@ == article_speech_text(article@.blocks, ssml) && trim(t@).len() > 0,
            None => trim(article_speech_text(article@.blocks, ssml)).len() == 0,
        },
{
    let text = if ssml {
        preprocess_ssml(article)
    } else {
        preprocess(article)
    };
    if trim_chars(&chars_of(text.as_str())).len() == 0 {
        None
    } else {
        Some(text)
    }
}

/// The digit for `d`.
pub open spec fn digit_char(d: nat) -> char {
    (('0' as u32) + d) as char
}

/// The decimal digits of `n`.
pub open spec fn decimal(n: nat) -> Seq<char>
    decreases n,
{
    if n < 10 {
        seq![digit_char(n)]
    } else {
        decimal(n / 10).push(digit_char(n % 10))
    }
}

/// `n` in decimal with at least two digits.
pub open spec fn two_digits(n: nat) -> Seq<char> {
    if n < 10 {
        seq!['0'] + decimal(n)
    } else {
        decimal(n)
    }
}

/// The digit for `d`.
fn digit_of(d: u8) -> (res: char)
    requires
        d < 10,
    ensures
        res == digit_char(d as nat),
{
    if d == 0 {
        '0'
    } else if d == 1 {
        '1'
    } else if d == 2 {
        '2'
    } else if d == 3 {
        '3'
    } else if d == 4 {
        '4'
    } else if d == 5 {
        '5'
    } else if d == 6 {
        '6'
    } else if d == 7 {
        '7'
    } else if d == 8 {
        '8'
    } else {
        '9'
    }
}

/// The decimal digits of `n`.
pub fn decimal_chars(n: usize) -> (res: Vec<char>)
    ensures
        res@ == decimal(n as nat),
    decreases n,
{
    let c = digit_of((n % 10) as u8);
    if n < 10 {
        vec![c]
    } else {
        let mut v = decimal_chars(n / 10);
        v.push(c);
        v
    }
}

/// The name of the output file for section number `index` (counted from
/// 0): the base name, the section's number (from 1) with at least two
/// digits, and its safe title, joined by `-`, with `.mp3`.
pub open spec fn section_file_name_of(base: Seq<char>, index: nat, safe: Seq<char>) -> Seq<char> {
    base + "-"@ + two_digits(index + 1) + "-"@ + safe + ".mp3"@
}

/// The name of the output file for section number `index`.
pub fn section_file_name(base: &str, index: usize, safe: &str) -> (res: String)
    requires
        index < usize::MAX,
    ensures
        res@ == section_file_name_of(base@, index as nat, safe@),
{
    let number = index + 1;
    let mut out = chars_of(base);
    push_all(&mut out, &chars_of("-"));
    if number < 10 {
        push_all(&mut out, &chars_of("0"));
    }
    push_all(&mut out, &decimal_chars(number));
    push_all(&mut out, &chars_of("-"));
    push_all(&mut out, &chars_of(safe));
    push_all(&mut out, &chars_of(".mp3"));
    proof {
        reveal_strlit("0");
        assert("0"@ =~= seq!['0']);
    }
    assert(out@ =~= section_file_name_of(base@, index as nat, safe@));
    string_of(&out)
}

} // verus!
