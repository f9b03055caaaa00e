//! The decisions around speech synthesis: voice and speed from the command
//! line, the synthesis settings, the chunking of long texts, and the retry
//! schedule. The network work itself is done by the caller.

use crate::config::{
    alias_table, alias_to_voice, lookup_first, voice_of_alias, DEFAULT_VOICE, MAX_CHUNK_SIZE,
};
use crate::text::{
    chars_of, concat, is_ws, lemma_concat_append, lemma_concat_single, lemma_no_ws_append,
    lemma_no_ws_single, lemma_no_ws_split_paragraphs, lemma_no_ws_trim, lemma_split_paragraphs_ws,
    lemma_trim_empty, lemma_views_push, no_ws, push_all, slice_chars, split_on_blank_lines,
    split_paragraphs, string_of, trim, trim_chars, trim_start, views,
};
use crate::cli::{decimal, digit_char};
use crate::ui::VoiceInfo;
use vstd::prelude::*;

verus! {

/// The full voice name for `voice`: the voice its alias stands for, or
/// `voice` itself where it is no alias.
pub open spec fn resolved_voice(voice: Seq<char>) -> Seq<char> {
    match voice_of_alias(voice) {
        Some(v) => v,
        None => voice,
    }
}

/// Resolves a voice alias to its full voice name; anything else is taken as
/// a full voice name already.
pub fn resolve_voice(voice: &str) -> (res: String)
    ensures
        res@ == resolved_voice(voice@),
{
    match alias_to_voice(voice) {
        Some(v) => string_of(&chars_of(v)),
        None => string_of(&chars_of(voice)),
    }
}

/// `s` without the copies of `c` at its end.
pub open spec fn trim_end_char(s: Seq<char>, c: char) -> Seq<char>
    decreases s.len(),
{
    if s.len() > 0 && s.last() == c {
        trim_end_char(s.drop_last(), c)
    } else {
        s
    }
}

/// A character of `0` to `9`.
pub open spec fn is_digit(c: char) -> bool {
    '0' <= c && c <= '9'
}

/// The value of a string of decimal digits.
pub open spec fn digits_value(d: Seq<char>) -> nat
    decreases d.len(),
{
    if d.len() == 0 {
        0
    } else {
        digits_value(d.drop_last()) * 10 + ((d.last() as nat) - ('0' as nat)) as nat
    }
}

/// `s` holds decimal digits only.
pub open spec fn all_digits(d: Seq<char>) -> bool {
    forall|i: int| 0 <= i < d.len() ==> is_digit(#[trigger] d[i])
}

/// `s` without its leading sign character, where it has one.
pub open spec fn unsigned_part(s: Seq<char>) -> Seq<char> {
    if s.len() > 0 && (s[0] == '-' || s[0] == '+') {
        s.drop_first()
    } else {
        s
    }
}

/// The `i32` that `s` writes, as `str::parse::<i32>` reads it: an optional
/// sign `+` or `-`, then one or more decimal digits, with a value in range.
pub open spec fn parse_i32(s: Seq<char>) -> Option<i32> {
    if unsigned_part(s).len() == 0 || !all_digits(unsigned_part(s)) {
        None
    } else if i32::MIN <= signed_value(s) <= i32::MAX {
        Some(signed_value(s) as i32)
    } else {
        None
    }
}

/// The value of the digits of `s`, negated where `s` starts with `-`.
pub open spec fn signed_value(s: Seq<char>) -> int {
    if s.len() > 0 && s[0] == '-' {
        -(digits_value(unsigned_part(s)) as int)
    } else {
        digits_value(unsigned_part(s)) as int
    }
}

/// What is left of a speed argument for the number: trimmed, without its
/// trailing `%` signs, trimmed again, and without one leading `+`.
pub open spec fn speed_number(speed: Seq<char>) -> Seq<char> {
    let s = trim(trim_end_char(trim(speed), '%'));
    if s.len() > 0 && s[0] == '+' {
        s.drop_first()
    } else {
        s
    }
}

/// A speed argument that does not read as a whole percentage.
#[derive(Debug)]
pub struct InvalidSpeed {
    pub input: String,
}

/// Reads a speed argument such as `+20%`, `-10%` or `5` as a percentage.
pub fn parse_speed(speed: &str) -> (res: Result<i32, InvalidSpeed>)
    ensures
        match res {
            Ok(v) => parse_i32(speed_number(speed@)) == Some(v),
            Err(e) => parse_i32(speed_number(speed@)) is None && e.input@ == speed@,
        },
{
    let t = trim_chars(&chars_of(speed));
    let mut end = t.len();
    assert(t@.take(t.len() as int) =~= t@);
    while end > 0 && t[end - 1] == '%'
        invariant
            end <= t.len(),
            trim_end_char(t@, '%') == trim_end_char(t@.take(end as int), '%'),
        decreases end,
    {
        assert(t@.take(end as int).drop_last() =~= t@.take(end - 1));
        end -= 1;
    }
    assert(t@.take(t.len() as int) =~= t@);
    let cut = slice_chars(&t, 0, end);
    assert(cut@ =~= t@.take(end as int));
    let s = trim_chars(&cut);
    let num = if s.len() > 0 && s[0] == '+' {
        slice_chars(&s, 1, s.len())
    } else {
        slice_chars(&s, 0, s.len())
    };
    proof {
        if s@.len() > 0 {
            assert(s@.subrange(1, s@.len() as int) =~= s@.drop_first());
        }
    }
    assert(s@.subrange(0, s@.len() as int) =~= s@);
    match parse_i32_chars(&num) {
        Some(v) => Ok(v),
        None => Err(InvalidSpeed { input: string_of(&chars_of(speed)) }),
    }
}

/// The `i32` that `s` writes, if it writes one.
pub fn parse_i32_chars(s: &Vec<char>) -> (res: Option<i32>)
    ensures
        res == parse_i32(s@),
{
    let neg = s.len() > 0 && s[0] == '-';
    let start: usize = if s.len() > 0 && (s[0] == '-' || s[0] == '+') {
        1
    } else {
        0
    };
    let ghost digits = unsigned_part(s@);
    assert(digits =~= s@.skip(start as int));
    if start >= s.len() {
        return None;
    }
    let limit: u64 = 2147483648;
    let mut value: u64 = 0;
    let mut big = false;
    let mut i: usize = start;
    while i < s.len()
        invariant
            start <= i <= s.len(),
            digits == s@.skip(start as int),
            digits == unsigned_part(s@),
            neg == (s@.len() > 0 && s@[0] == '-'),
            limit == 2147483648,
            forall|j: int| 0 <= j < i - start ==> is_digit(#[trigger] digits[j]),
            !big ==> value == digits_value(digits.take(i - start)) && value <= limit,
            big ==> digits_value(digits.take(i - start)) > limit,
        decreases s.len() - i,
    {
        let c = s[i];
        if !('0' <= c && c <= '9') {
            assert(digits[i - start] == c);
            assert(!is_digit(digits[i - start]));
            return None;
        }
        let ghost pre = digits.take(i - start);
        let ghost next = digits.take(i + 1 - start);
        assert(next.drop_last() =~= pre);
        assert(next.last() == c);
        assert(digits_value(next) == digits_value(pre) * 10 + ((c as nat) - ('0' as nat)) as nat);
        if !big {
            let d = (c as u32 - '0' as u32) as u64;
            let v = value * 10 + d;
            if v > limit {
                big = true;
            } else {
                value = v;
            }
        }
        i += 1;
    }
    assert(digits.take(s.len() - start) =~= digits);
    if big {
        None
    } else if neg {
        Some((0 - value as i64) as i32)
    } else if value <= 2147483647 {
        Some(value as i32)
    } else {
        None
    }
}

/// The settings of one synthesis request.
#[derive(Debug)]
pub struct SpeechSettings {
    pub voice_name: String,
    pub audio_format: String,
    pub pitch: i32,
    pub rate: i32,
    pub volume: i32,
}

/// The audio format requested: 24 kHz mono MP3 at 48 kbit/s.
pub const AUDIO_FORMAT: &'static str = "audio-24khz-48kbitrate-mono-mp3";

/// The settings for `voice` at `speed_pct` percent of the normal rate: MP3
/// at 24 kHz and 48 kbit/s, pitch and volume unchanged.
pub fn make_config(voice: &str, speed_pct: i32) -> (res: SpeechSettings)
    ensures
        res.voice_name@ == voice@,
        res.audio_format@ == AUDIO_FORMAT@,
        res.pitch == 0,
        res.rate == speed_pct,
        res.volume == 0,
{
    SpeechSettings {
        voice_name: string_of(&chars_of(voice)),
        audio_format: string_of(&chars_of(AUDIO_FORMAT)),
        pitch: 0,
        rate: speed_pct,
        volume: 0,
    }
}

/// The pieces of `s` of `n` characters each, the last one shorter where
/// `s` does not divide evenly; none for an empty `s`.
pub open spec fn hard_chunks(s: Seq<char>, n: nat) -> Seq<Seq<char>>
    decreases s.len(),
{
    if s.len() == 0 || n == 0 {
        seq![]
    } else if s.len() <= n {
        seq![s]
    } else {
        seq![s.take(n as int)] + hard_chunks(s.skip(n as int), n)
    }
}

/// A chunking in progress: the finished chunks and the chunk being filled.
pub struct ChunkState {
    pub chunks: Seq<Seq<char>>,
    pub current: Seq<char>,
}

/// Adds a piece of text: to the current chunk where both fit in `n`
/// characters; otherwise the current chunk is finished (where it is not
/// empty) and the piece starts the next one, or, where the piece alone is
/// longer than `n`, is cut into pieces of `n` characters.
pub open spec fn place(st: ChunkState, piece: Seq<char>, n: nat) -> ChunkState {
    if st.current.len() + piece.len() <= n {
        ChunkState { chunks: st.chunks, current: st.current + piece }
    } else {
        let chunks = if st.current.len() > 0 {
            st.chunks.push(st.current)
        } else {
            st.chunks
        };
        if piece.len() > n {
            ChunkState { chunks: chunks + hard_chunks(piece, n), current: seq![] }
        } else {
            ChunkState { chunks, current: piece }
        }
    }
}

/// The characters that end a sentence.
pub open spec fn is_sentence_end(c: char) -> bool {
    ||| c == '。'
    ||| c == '！'
    ||| c == '？'
    ||| c == '；'
    ||| c == '.'
    ||| c == '!'
    ||| c == '?'
    ||| c == ';'
}

/// The chunking of `s` sentence by sentence, with the sentence still open
/// at its end.
pub open spec fn sentence_state(s: Seq<char>, n: nat) -> (ChunkState, Seq<char>)
    decreases s.len(),
{
    if s.len() == 0 {
        (ChunkState { chunks: seq![], current: seq![] }, seq![])
    } else {
        let (st, seg) = sentence_state(s.drop_last(), n);
        let seg2 = seg.push(s.last());
        if is_sentence_end(s.last()) {
            (place(st, seg2, n), seq![])
        } else {
            (st, seg2)
        }
    }
}

/// The chunks of a long paragraph: its sentences, each ended by one of
/// `。！？；.!?;` (the last one may be open), gathered in order into chunks
/// of at most `n` characters; a sentence longer than that is cut into
/// pieces of `n` characters.
pub open spec fn sentence_chunks(s: Seq<char>, n: nat) -> Seq<Seq<char>> {
    let (st, seg) = sentence_state(s, n);
    let st2 = if seg.len() > 0 {
        place(st, seg, n)
    } else {
        st
    };
    if st2.current.len() > 0 {
        st2.chunks.push(st2.current)
    } else {
        st2.chunks
    }
}

/// Adds a paragraph: a blank one changes nothing; its trimmed text joins
/// the current chunk after a blank line where that fits in `n` characters;
/// otherwise the current chunk is finished (where it is not empty) and the
/// paragraph starts the next one, or, where it alone is longer than `n`,
/// is chunked sentence by sentence.
pub open spec fn paragraph_step(st: ChunkState, raw: Seq<char>, n: nat) -> ChunkState {
    let para = trim(raw);
    if para.len() == 0 {
        st
    } else {
        let sep: nat = if st.current.len() == 0 {
            0
        } else {
            2
        };
        if st.current.len() + para.len() + sep <= n {
            ChunkState {
                chunks: st.chunks,
                current: if st.current.len() > 0 {
                    st.current + seq!['\n', '\n'] + para
                } else {
                    para
                },
            }
        } else {
            let chunks = if st.current.len() > 0 {
                st.chunks.push(st.current)
            } else {
                st.chunks
            };
            if para.len() > n {
                ChunkState { chunks: chunks + sentence_chunks(para, n), current: seq![] }
            } else {
                ChunkState { chunks, current: para }
            }
        }
    }
}

/// The chunking after the paragraphs `paras`.
pub open spec fn paragraph_state(paras: Seq<Seq<char>>, n: nat) -> ChunkState
    decreases paras.len(),
{
    if paras.len() == 0 {
        ChunkState { chunks: seq![], current: seq![] }
    } else {
        paragraph_step(paragraph_state(paras.drop_last(), n), paras.last(), n)
    }
}

/// The chunks of a text for synthesis: the text itself where it has at
/// most `n` characters; otherwise its paragraphs (the pieces between blank
/// lines), trimmed and gathered in order into chunks of at most `n`
/// characters separated by blank lines, a paragraph longer than that being
/// chunked sentence by sentence.
pub open spec fn text_chunks(text: Seq<char>, n: nat) -> Seq<Seq<char>> {
    if text.len() <= n {
        seq![text]
    } else {
        let st = paragraph_state(split_paragraphs(text), n);
        if st.current.len() > 0 {
            st.chunks.push(st.current)
        } else {
            st.chunks
        }
    }
}

/// Cuts `s` into pieces of `n` characters.
pub fn hard_split_chars(s: &Vec<char>, n: usize) -> (res: Vec<Vec<char>>)
    requires
        n > 0,
    ensures
        views(res@) == hard_chunks(s@, n as nat),
{
    let mut out: Vec<Vec<char>> = Vec::new();
    let mut i: usize = 0;
    assert(s@.skip(0) =~= s@);
    while i < s.len()
        invariant
            i <= s.len(),
            n > 0,
            views(out@) + hard_chunks(s@.skip(i as int), n as nat) == hard_chunks(s@, n as nat),
        decreases s.len() - i,
    {
        let ghost rest = s@.skip(i as int);
        let end = if s.len() - i <= n {
            s.len()
        } else {
            i + n
        };
        let piece = slice_chars(s, i, end);
        let ghost o = views(out@);
        proof {
            lemma_views_push(out@, piece);
        }
        out.push(piece);
        if s.len() - i <= n {
            assert(piece@ =~= rest);
            assert(s@.skip(end as int).len() == 0);
            assert(o + seq![rest] + hard_chunks(s@.skip(end as int), n as nat) =~= o + seq![rest]);
        } else {
            assert(piece@ =~= rest.take(n as int));
            assert(rest.skip(n as int) =~= s@.skip(end as int));
            assert(o + (seq![rest.take(n as int)] + hard_chunks(s@.skip(end as int), n as nat))
                =~= views(out@) + hard_chunks(s@.skip(end as int), n as nat));
        }
        i = end;
    }
    assert(views(out@) + hard_chunks(s@.skip(i as int), n as nat) =~= views(out@));
    out
}

/// Adds a piece of text to a chunking in progress.
fn place_piece(chunks: &mut Vec<Vec<char>>, current: &mut Vec<char>, piece: &Vec<char>, n: usize)
    requires
        n > 0,
    ensures
        place(ChunkState { chunks: views(old(chunks)@), current: old(current)@ }, piece@, n as nat).chunks
            == views(final(chunks)@),
        place(ChunkState { chunks: views(old(chunks)@), current: old(current)@ }, piece@, n as nat).current
            == final(current)@,
{
    if current.len() <= n && piece.len() <= n - current.len() {
        push_all(current, piece);
    } else {
        if current.len() > 0 {
            let finished = slice_chars(current, 0, current.len());
            assert(finished@ =~= old(current)@);
            proof {
                lemma_views_push(chunks@, finished);
            }
            chunks.push(finished);
            current.clear();
        }
        if piece.len() > n {
            let ghost before = views(chunks@);
            let mut pieces = hard_split_chars(piece, n);
            let ghost p = views(pieces@);
            chunks.append(&mut pieces);
            assert(views(chunks@) =~= before + p);
        } else {
            current.clear();
            push_all(current, piece);
        }
    }
}

/// Whether `c` ends a sentence.
pub fn ends_sentence(c: char) -> (res: bool)
    ensures
        res == is_sentence_end(c),
{
    c == '。' || c == '！' || c == '？' || c == '；' || c == '.' || c == '!' || c == '?' || c == ';'
}

/// The chunks of a long paragraph, sentence by sentence.
pub fn sentence_chunks_of(s: &Vec<char>, n: usize) -> (res: Vec<Vec<char>>)
    requires
        n > 0,
    ensures
        views(res@) == sentence_chunks(s@, n as nat),
{
    let mut chunks: Vec<Vec<char>> = Vec::new();
    let mut current: Vec<char> = Vec::new();
    let mut seg: Vec<char> = Vec::new();
    let mut i: usize = 0;
    assert(s@.take(0) =~= seq![]);
    assert(views(chunks@) =~= seq![]);
    while i < s.len()
        invariant
            i <= s.len(),
            n > 0,
            sentence_state(s@.take(i as int), n as nat).0.chunks == views(chunks@),
            sentence_state(s@.take(i as int), n as nat).0.current == current@,
            sentence_state(s@.take(i as int), n as nat).1 == seg@,
        decreases s.len() - i,
    {
        assert(s@.take(i + 1).drop_last() =~= s@.take(i as int));
        assert(s@.take(i + 1).last() == s@[i as int]);
        let c = s[i];
        seg.push(c);
        if ends_sentence(c) {
            place_piece(&mut chunks, &mut current, &seg, n);
            seg.clear();
        }
        i += 1;
    }
    assert(s@.take(s.len() as int) =~= s@);
    if seg.len() > 0 {
        place_piece(&mut chunks, &mut current, &seg, n);
    }
    if current.len() > 0 {
        proof {
            lemma_views_push(chunks@, current);
        }
        chunks.push(current);
    }
    chunks
}

/// Adds a paragraph to a chunking in progress.
fn add_paragraph(chunks: &mut Vec<Vec<char>>, current: &mut Vec<char>, raw: &Vec<char>, n: usize)
    requires
        n > 0,
    ensures
        paragraph_step(
            ChunkState { chunks: views(old(chunks)@), current: old(current)@ },
            raw@,
            n as nat,
        ).chunks == views(final(chunks)@),
        paragraph_step(
            ChunkState { chunks: views(old(chunks)@), current: old(current)@ },
            raw@,
            n as nat,
        ).current == final(current)@,
{
    let para = trim_chars(raw);
    if para.len() == 0 {
        return ;
    }
    let sep: usize = if current.len() == 0 {
        0
    } else {
        2
    };
    if current.len() <= n && para.len() <= n - current.len() && sep <= n - current.len()
        - para.len() {
        if current.len() > 0 {
            current.push('\n');
            current.push('\n');
        }
        push_all(current, &para);
        assert(old(current)@.len() > 0 ==> final(current)@ =~= old(current)@ + seq!['\n', '\n']
            + para@);
        assert(old(current)@.len() == 0 ==> final(current)@ =~= para@);
    } else {
        if current.len() > 0 {
            let finished = slice_chars(current, 0, current.len());
            assert(finished@ =~= old(current)@);
            proof {
                lemma_views_push(chunks@, finished);
            }
            chunks.push(finished);
            current.clear();
        }
        if para.len() > n {
            let ghost before = views(chunks@);
            let mut pieces = sentence_chunks_of(&para, n);
            let ghost p = views(pieces@);
            chunks.append(&mut pieces);
            assert(views(chunks@) =~= before + p);
        } else {
            current.clear();
            push_all(current, &para);
        }
    }
}

/// The chunks of a text for synthesis.
pub fn text_chunks_of(text: &Vec<char>, n: usize) -> (res: Vec<Vec<char>>)
    requires
        n > 0,
    ensures
        views(res@) == text_chunks(text@, n as nat),
{
    if text.len() <= n {
        let mut out: Vec<Vec<char>> = Vec::new();
        let t = slice_chars(text, 0, text.len());
        assert(t@ =~= text@);
        out.push(t);
        assert(views(out@) =~= seq![text@]);
        return out;
    }
    let paras = split_on_blank_lines(text);
    let ghost ps = views(paras@);
    let mut chunks: Vec<Vec<char>> = Vec::new();
    let mut current: Vec<char> = Vec::new();
    let mut i: usize = 0;
    assert(ps.take(0) =~= seq![]);
    assert(views(chunks@) =~= seq![]);
    while i < paras.len()
        invariant
            i <= paras.len(),
            n > 0,
            ps == views(paras@),
            paragraph_state(ps.take(i as int), n as nat).chunks == views(chunks@),
            paragraph_state(ps.take(i as int), n as nat).current == current@,
        decreases paras.len() - i,
    {
        assert(ps.take(i + 1).drop_last() =~= ps.take(i as int));
        assert(ps.take(i + 1).last() == paras@[i as int]@);
        add_paragraph(&mut chunks, &mut current, &paras[i], n);
        i += 1;
    }
    assert(ps.take(paras.len() as int) =~= ps);
    if current.len() > 0 {
        proof {
            lemma_views_push(chunks@, current);
        }
        chunks.push(current);
    }
    chunks
}

/// The strings of a list of character vectors.
fn strings_of(parts: &Vec<Vec<char>>) -> (res: Vec<String>)
    ensures
        res@.map_values(|s: String| s@) == views(parts@),
{
    let mut out: Vec<String> = Vec::new();
    let mut i: usize = 0;
    while i < parts.len()
        invariant
            i <= parts.len(),
            out@.map_values(|s: String| s@) == views(parts@).take(i as int),
        decreases parts.len() - i,
    {
        let ghost before = out@;
        let piece = string_of(&parts[i]);
        out.push(piece);
        assert(out@ =~= before.push(piece));
        assert(before.push(piece).map_values(|s: String| s@) =~= before.map_values(|s: String| s@).push(piece@));
        assert(views(parts@).take(i + 1) =~= views(parts@).take(i as int).push(parts@[i as int]@));
        i += 1;
    }
    assert(views(parts@).take(parts.len() as int) =~= views(parts@));
    out
}

/// The number of characters of `s`.
pub fn char_len(s: &str) -> (res: usize)
    ensures
        res == s@.len(),
{
    chars_of(s).len()
}

/// Cuts `text` into pieces of `chunk_size` characters.
pub fn hard_split(text: &str, chunk_size: usize) -> (res: Vec<String>)
    requires
        chunk_size > 0,
    ensures
        res@.map_values(|s: String| s@) == hard_chunks(text@, chunk_size as nat),
{
    strings_of(&hard_split_chars(&chars_of(text), chunk_size))
}

/// Chunks a long paragraph sentence by sentence.
pub fn split_long_paragraph(text: &str, chunk_size: usize) -> (res: Vec<String>)
    requires
        chunk_size > 0 || text@.len() == 0,
    ensures
        res@.map_values(|s: String| s@) == sentence_chunks(text@, chunk_size as nat),
{
    let chars = chars_of(text);
    if chars.len() == 0 {
        let out: Vec<String> = Vec::new();
        assert(out@.map_values(|s: String| s@) =~= sentence_chunks(text@, chunk_size as nat));
        return out;
    }
    strings_of(&sentence_chunks_of(&chars, chunk_size))
}

/// Chunks a text for synthesis: the whole text where it has at most
/// `chunk_size` characters; otherwise its paragraphs gathered into chunks
/// of at most `chunk_size` characters.
pub fn split_text(text: &str, chunk_size: usize) -> (res: Vec<String>)
    requires
        chunk_size > 0 || trim(text@).len() == 0,
    ensures
        res@.map_values(|s: String| s@) == text_chunks(text@, chunk_size as nat),
{
    let chars = chars_of(text);
    if chunk_size == 0 && chars.len() > 0 {
        proof {
            lemma_blank_text_chunks(text@, chunk_size as nat);
        }
        let out: Vec<String> = Vec::new();
        assert(out@.map_values(|s: String| s@) =~= text_chunks(text@, chunk_size as nat));
        return out;
    }
    if chunk_size == 0 {
        let mut out: Vec<String> = Vec::new();
        out.push(string_of(&chars));
        assert(out@.map_values(|s: String| s@) =~= text_chunks(text@, chunk_size as nat));
        return out;
    }
    strings_of(&text_chunks_of(&chars, chunk_size))
}

/// Paragraphs that are all blank leave a chunking where it was.
proof fn lemma_blank_paragraph_state(paras: Seq<Seq<char>>, n: nat)
    requires
        forall|j: int| 0 <= j < paras.len() ==> trim(#[trigger] paras[j]).len() == 0,
    ensures
        paragraph_state(paras, n) == (ChunkState { chunks: seq![], current: seq![] }),
    decreases paras.len(),
{
    if paras.len() > 0 {
        let init = paras.drop_last();
        assert forall|j: int| 0 <= j < init.len() implies trim(#[trigger] init[j]).len() == 0 by {
            assert(init[j] == paras[j]);
        }
        lemma_blank_paragraph_state(init, n);
        assert(trim(paras[paras.len() - 1]).len() == 0);
    }
}

/// A blank text longer than `n` gives no chunk.
proof fn lemma_blank_text_chunks(text: Seq<char>, n: nat)
    requires
        trim(text).len() == 0,
        text.len() > n,
    ensures
        text_chunks(text, n) == Seq::<Seq<char>>::empty(),
{
    lemma_trim_empty(text);
    lemma_split_paragraphs_ws(text);
    let ps = split_paragraphs(text);
    assert forall|j: int| 0 <= j < ps.len() implies trim(#[trigger] ps[j]).len() == 0 by {
        lemma_trim_empty(ps[j]);
    }
    lemma_blank_paragraph_state(ps, n);
}

/// What a synthesis run is to do: the voice to use and the chunks to
/// synthesize, in order.
pub struct SpeechPlan {
    pub voice: String,
    pub chunks: Vec<String>,
}

/// The plan for reading `text` with `voice`: nothing to synthesize where
/// the text is blank; otherwise the trimmed text chunked to at most
/// `MAX_CHUNK_SIZE` characters, read with `voice`, or with the default
/// voice where `voice` is empty.
pub fn plan_speech(text: &str, voice: &str) -> (res: SpeechPlan)
    ensures
        trim(text@).len() == 0 ==> res.chunks@.len() == 0,
        trim(text@).len() > 0 ==> res.chunks@.map_values(|s: String| s@) == text_chunks(
            trim(text@),
            MAX_CHUNK_SIZE as nat,
        ),
        res.voice@ == (if voice@.len() == 0 {
            DEFAULT_VOICE@
        } else {
            voice@
        }),
{
    let v = chars_of(voice);
    let voice_name = if v.len() == 0 {
        string_of(&chars_of(DEFAULT_VOICE))
    } else {
        string_of(&v)
    };
    let trimmed = trim_chars(&chars_of(text));
    if trimmed.len() == 0 {
        return SpeechPlan { voice: voice_name, chunks: Vec::new() };
    }
    let chunks = strings_of(&text_chunks_of(&trimmed, MAX_CHUNK_SIZE));
    SpeechPlan { voice: voice_name, chunks }
}

/// Two to the power `n`.
pub open spec fn pow2(n: nat) -> nat
    decreases n,
{
    if n == 0 {
        1
    } else {
        2 * pow2((n - 1) as nat)
    }
}

/// The pause in seconds before the next try after try number `attempt`
/// (counted from 0) failed, out of `max_retries` tries: `2^attempt`, or
/// none where that was the last try.
pub fn retry_delay_secs(attempt: u32, max_retries: u32) -> (res: Option<u64>)
    requires
        attempt + 1 < max_retries ==> attempt < 64,
    ensures
        attempt + 1 < max_retries ==> res == Some(pow2(attempt as nat) as u64),
        attempt + 1 >= max_retries ==> res is None,
{
    if attempt as u64 + 1 >= max_retries as u64 {
        return None;
    }
    let mut d: u64 = 1;
    let mut k: u32 = 0;
    while k < attempt
        invariant
            k <= attempt < 64,
            d == pow2(k as nat),
        decreases attempt - k,
    {
        proof {
            lemma_pow2_monotone((k + 1) as nat, 63);
            lemma_pow2_63();
        }
        d = d * 2;
        k += 1;
    }
    Some(d)
}

proof fn lemma_pow2_monotone(a: nat, b: nat)
    requires
        a <= b,
    ensures
        pow2(a) <= pow2(b),
    decreases b,
{
    if a < b {
        lemma_pow2_monotone(a, (b - 1) as nat);
    }
}

proof fn lemma_pow2_63()
    ensures
        pow2(63) == 0x8000_0000_0000_0000,
{
    reveal_with_fuel(pow2, 64);
}

/// A voice's locale starts with `language`.
pub open spec fn speaks(v: VoiceInfo, language: Seq<char>) -> bool {
    match v.locale {
        Some(l) => language.len() <= l@.len() && l@.take(language.len() as int) == language,
        None => false,
    }
}

/// Whether `s` starts with `prefix`.
fn starts_with(s: &Vec<char>, prefix: &Vec<char>) -> (res: bool)
    ensures
        res == (prefix@.len() <= s@.len() && s@.take(prefix@.len() as int) == prefix@),
{
    if prefix.len() > s.len() {
        return false;
    }
    let mut i: usize = 0;
    while i < prefix.len()
        invariant
            i <= prefix.len() <= s.len(),
            forall|k: int| 0 <= k < i ==> s@[k] == prefix@[k],
        decreases prefix.len() - i,
    {
        if s[i] != prefix[i] {
            assert(s@.take(prefix@.len() as int)[i as int] != prefix@[i as int]);
            return false;
        }
        i += 1;
    }
    assert(s@.take(prefix@.len() as int) =~= prefix@);
    true
}

/// The voices whose locale starts with `language`, in order.
pub fn voices_for_language(voices: Vec<VoiceInfo>, language: &str) -> (res: Vec<VoiceInfo>)
    ensures
        res@ == voices@.filter(|v: VoiceInfo| speaks(v, language@)),
{
    let lang = chars_of(language);
    let ghost all = voices@;
    let ghost f = |v: VoiceInfo| speaks(v, language@);
    let mut out: Vec<VoiceInfo> = Vec::new();
    assert(all.take(0) =~= seq![]);
    proof {
        reveal(Seq::filter);
    }
    for v in it: voices
        invariant
            it.seq() == all,
            lang@ == language@,
            f == (|v: VoiceInfo| speaks(v, language@)),
            out@ == all.take(it.index() as int).filter(f),
    {
        proof {
            reveal(Seq::filter);
            assert(all.take(it.index() + 1).drop_last() =~= all.take(it.index() as int));
            assert(all.take(it.index() + 1).last() == v);
        }
        let keep = match &v.locale {
            Some(l) => starts_with(&chars_of(l.as_str()), &lang),
            None => false,
        };
        if keep {
            out.push(v);
        }
    }
    assert(all.take(all.len() as int) =~= all);
    out
}

/// Every chunk holds at least one and at most `n` characters.
pub open spec fn chunks_fit(cs: Seq<Seq<char>>, n: nat) -> bool {
    forall|i: int| 0 <= i < cs.len() ==> 0 < (#[trigger] cs[i]).len() <= n
}

/// A chunking in progress whose chunks fit and whose current chunk is not
/// too long.
pub open spec fn state_fits(st: ChunkState, n: nat) -> bool {
    chunks_fit(st.chunks, n) && st.current.len() <= n
}

proof fn lemma_chunks_fit_append(a: Seq<Seq<char>>, b: Seq<Seq<char>>, n: nat)
    requires
        chunks_fit(a, n),
        chunks_fit(b, n),
    ensures
        chunks_fit(a + b, n),
{
    assert forall|i: int| 0 <= i < (a + b).len() implies 0 < (#[trigger] (a + b)[i]).len() <= n by {
        if i < a.len() {
            assert((a + b)[i] == a[i]);
        } else {
            assert((a + b)[i] == b[i - a.len()]);
        }
    }
}

proof fn lemma_hard_chunks(s: Seq<char>, n: nat)
    requires
        n > 0,
    ensures
        chunks_fit(hard_chunks(s, n), n),
        concat(hard_chunks(s, n)) == s,
    decreases s.len(),
{
    if s.len() == 0 {
    } else if s.len() <= n {
        lemma_concat_single(s);
    } else {
        let rest = s.skip(n as int);
        lemma_hard_chunks(rest, n);
        let first = seq![s.take(n as int)];
        lemma_concat_single(s.take(n as int));
        lemma_chunks_fit_append(first, hard_chunks(rest, n), n);
        lemma_concat_append(first, hard_chunks(rest, n));
        assert(s.take(n as int) + rest =~= s);
    }
}

proof fn lemma_place(st: ChunkState, piece: Seq<char>, n: nat)
    requires
        n > 0,
        state_fits(st, n),
        piece.len() > 0,
    ensures
        state_fits(place(st, piece, n), n),
        concat(place(st, piece, n).chunks) + place(st, piece, n).current == concat(st.chunks)
            + st.current + piece,
{
    let r = place(st, piece, n);
    if st.current.len() + piece.len() <= n {
        assert(concat(st.chunks) + (st.current + piece) =~= concat(st.chunks) + st.current + piece);
    } else {
        let chunks = if st.current.len() > 0 {
            st.chunks.push(st.current)
        } else {
            st.chunks
        };
        if st.current.len() > 0 {
            lemma_chunks_fit_append(st.chunks, seq![st.current], n);
            assert(st.chunks + seq![st.current] =~= st.chunks.push(st.current));
            assert(st.chunks.push(st.current).drop_last() =~= st.chunks);
        } else {
            assert(concat(st.chunks) + st.current =~= concat(st.chunks));
        }
        assert(concat(chunks) == concat(st.chunks) + st.current);
        assert(chunks_fit(chunks, n));
        if piece.len() > n {
            lemma_hard_chunks(piece, n);
            lemma_chunks_fit_append(chunks, hard_chunks(piece, n), n);
            lemma_concat_append(chunks, hard_chunks(piece, n));
            assert(concat(r.chunks) + r.current =~= concat(chunks) + piece);
        }
    }
}

proof fn lemma_sentence_state(s: Seq<char>, n: nat)
    requires
        n > 0,
    ensures
        state_fits(sentence_state(s, n).0, n),
        concat(sentence_state(s, n).0.chunks) + sentence_state(s, n).0.current + sentence_state(
            s,
            n,
        ).1 == s,
    decreases s.len(),
{
    if s.len() == 0 {
        assert(concat(Seq::<Seq<char>>::empty()) + Seq::<char>::empty() + Seq::<char>::empty()
            =~= s);
    } else {
        lemma_sentence_state(s.drop_last(), n);
        let (st, seg) = sentence_state(s.drop_last(), n);
        let seg2 = seg.push(s.last());
        assert(s.drop_last().push(s.last()) =~= s);
        assert(concat(st.chunks) + st.current + seg2 =~= (concat(st.chunks) + st.current + seg).push(
            s.last(),
        ));
        if is_sentence_end(s.last()) {
            lemma_place(st, seg2, n);
        }
    }
}

/// A long paragraph's chunks hold at least one and at most `n` characters
/// each, and together, in order, they are the paragraph.
pub proof fn law_sentence_chunks(s: Seq<char>, n: nat)
    requires
        n > 0,
    ensures
        chunks_fit(sentence_chunks(s, n), n),
        concat(sentence_chunks(s, n)) == s,
{
    lemma_sentence_state(s, n);
    let (st, seg) = sentence_state(s, n);
    let st2 = if seg.len() > 0 {
        place(st, seg, n)
    } else {
        st
    };
    if seg.len() > 0 {
        lemma_place(st, seg, n);
    } else {
        assert(concat(st.chunks) + st.current + seg =~= concat(st.chunks) + st.current);
    }
    if st2.current.len() > 0 {
        lemma_chunks_fit_append(st2.chunks, seq![st2.current], n);
        assert(st2.chunks + seq![st2.current] =~= st2.chunks.push(st2.current));
        assert(st2.chunks.push(st2.current).drop_last() =~= st2.chunks);
    } else {
        assert(concat(st2.chunks) + st2.current =~= concat(st2.chunks));
    }
}

proof fn lemma_paragraph_state(paras: Seq<Seq<char>>, n: nat)
    requires
        n > 0,
    ensures
        state_fits(paragraph_state(paras, n), n),
    decreases paras.len(),
{
    if paras.len() > 0 {
        lemma_paragraph_state(paras.drop_last(), n);
        let st = paragraph_state(paras.drop_last(), n);
        let para = trim(paras.last());
        if para.len() > 0 {
            let sep: nat = if st.current.len() == 0 {
                0
            } else {
                2
            };
            if !(st.current.len() + para.len() + sep <= n) {
                let chunks = if st.current.len() > 0 {
                    st.chunks.push(st.current)
                } else {
                    st.chunks
                };
                if st.current.len() > 0 {
                    lemma_chunks_fit_append(st.chunks, seq![st.current], n);
                    assert(st.chunks + seq![st.current] =~= st.chunks.push(st.current));
                }
                if para.len() > n {
                    law_sentence_chunks(para, n);
                    lemma_chunks_fit_append(chunks, sentence_chunks(para, n), n);
                }
            }
        }
    }
}

/// Every chunk sent for synthesis holds at most `n` characters, and where
/// the text is longer than `n`, no chunk is empty.
pub proof fn law_text_chunks_fit(text: Seq<char>, n: nat)
    requires
        n > 0,
    ensures
        forall|i: int|
            0 <= i < text_chunks(text, n).len() ==> (#[trigger] text_chunks(text, n)[i]).len() <= n,
        text.len() > n ==> chunks_fit(text_chunks(text, n), n),
{
    if text.len() > n {
        let st = paragraph_state(split_paragraphs(text), n);
        lemma_paragraph_state(split_paragraphs(text), n);
        if st.current.len() > 0 {
            lemma_chunks_fit_append(st.chunks, seq![st.current], n);
            assert(st.chunks + seq![st.current] =~= st.chunks.push(st.current));
        }
    }
}

proof fn lemma_paragraph_state_keeps_text(paras: Seq<Seq<char>>, n: nat)
    requires
        n > 0,
    ensures
        no_ws(concat(paragraph_state(paras, n).chunks) + paragraph_state(paras, n).current) == no_ws(
            concat(paras),
        ),
    decreases paras.len(),
{
    if paras.len() > 0 {
        let init = paras.drop_last();
        lemma_paragraph_state_keeps_text(init, n);
        let st = paragraph_state(init, n);
        let raw = paras.last();
        let para = trim(raw);
        let r = paragraph_state(paras, n);
        lemma_no_ws_trim(raw);
        lemma_no_ws_append(concat(init), raw);
        lemma_no_ws_append(concat(st.chunks), st.current);
        assert(concat(paras) == concat(init) + raw);
        let old_text = no_ws(concat(st.chunks)) + no_ws(st.current);
        assert(no_ws(concat(paras)) == old_text + no_ws(para));
        if para.len() == 0 {
            assert(no_ws(para) =~= Seq::<char>::empty());
            assert(old_text + no_ws(para) =~= old_text);
        } else {
            let sep: nat = if st.current.len() == 0 {
                0
            } else {
                2
            };
            if st.current.len() + para.len() + sep <= n {
                if st.current.len() > 0 {
                    let nl = seq!['\n', '\n'];
                    lemma_no_ws_append(st.current + nl, para);
                    lemma_no_ws_append(st.current, nl);
                    assert(nl =~= seq!['\n'] + seq!['\n']);
                    lemma_no_ws_append(seq!['\n'], seq!['\n']);
                    lemma_no_ws_single('\n');
                    assert(no_ws(st.current) + Seq::<char>::empty() =~= no_ws(st.current));
                }
                lemma_no_ws_append(concat(r.chunks), r.current);
                assert(old_text + no_ws(para) =~= no_ws(concat(st.chunks)) + (no_ws(st.current)
                    + no_ws(para)));
            } else {
                let chunks = if st.current.len() > 0 {
                    st.chunks.push(st.current)
                } else {
                    st.chunks
                };
                if st.current.len() > 0 {
                    assert(st.chunks.push(st.current).drop_last() =~= st.chunks);
                } else {
                    assert(no_ws(st.current) =~= Seq::<char>::empty());
                }
                assert(no_ws(concat(chunks)) == old_text) by {
                    lemma_no_ws_append(concat(st.chunks), st.current);
                    if st.current.len() == 0 {
                        assert(concat(st.chunks) + st.current =~= concat(st.chunks));
                        assert(no_ws(concat(st.chunks)) + Seq::<char>::empty() =~= no_ws(concat(st.chunks)));
                    }
                }
                if para.len() > n {
                    law_sentence_chunks(para, n);
                    lemma_concat_append(chunks, sentence_chunks(para, n));
                    lemma_no_ws_append(concat(chunks), para);
                    assert(concat(r.chunks) + r.current =~= concat(chunks) + para);
                } else {
                    lemma_no_ws_append(concat(chunks), para);
                }
            }
        }
    }
}

/// Chunking a text for synthesis loses no character other than whitespace,
/// and adds, doubles or reorders none: the chunks put together hold the
/// text's other characters, in order.
pub proof fn law_chunks_keep_text(text: Seq<char>, n: nat)
    requires
        n > 0,
    ensures
        no_ws(concat(text_chunks(text, n))) == no_ws(text),
{
    if text.len() <= n {
        lemma_concat_single(text);
    } else {
        let ps = split_paragraphs(text);
        lemma_paragraph_state_keeps_text(ps, n);
        lemma_no_ws_split_paragraphs(text);
        let st = paragraph_state(ps, n);
        if st.current.len() > 0 {
            assert(st.chunks.push(st.current).drop_last() =~= st.chunks);
        } else {
            assert(concat(st.chunks) + st.current =~= concat(st.chunks));
        }
    }
}

/// Cutting a text into pieces of `n` characters keeps it whole: the pieces
/// join back to the text, there are `ceil(len / n)` of them, every piece
/// but the last has exactly `n` characters, and the last has 1 to `n`.
pub proof fn law_hard_chunks(s: Seq<char>, n: nat)
    requires
        n > 0,
    ensures
        concat(hard_chunks(s, n)) == s,
        hard_chunks(s, n).len() == (s.len() + n - 1) / (n as int),
        forall|i: int| 0 <= i < hard_chunks(s, n).len() - 1 ==> (#[trigger] hard_chunks(s, n)[i]).len() == n,
        hard_chunks(s, n).len() > 0 ==> 0 < hard_chunks(s, n).last().len() <= n,
    decreases s.len(),
{
    let hc = hard_chunks(s, n);
    if s.len() == 0 {
        vstd::arithmetic::div_mod::lemma_fundamental_div_mod_converse(n - 1, n as int, 0, n - 1);
    } else if s.len() <= n {
        assert(seq![s].drop_last() =~= Seq::<Seq<char>>::empty());
        assert(concat(seq![s]) == concat(Seq::<Seq<char>>::empty()) + s);
        assert(Seq::<char>::empty() + s =~= s);
        vstd::arithmetic::div_mod::lemma_fundamental_div_mod_converse(
            s.len() + n - 1,
            n as int,
            1,
            s.len() - 1,
        );
    } else {
        let rest = s.skip(n as int);
        law_hard_chunks(rest, n);
        let head = seq![s.take(n as int)];
        let tail = hard_chunks(rest, n);
        assert(hc == head + tail);
        lemma_concat_append(head, tail);
        assert(head.drop_last() =~= Seq::<Seq<char>>::empty());
        assert(concat(head) == concat(Seq::<Seq<char>>::empty()) + s.take(n as int));
        assert(concat(head) =~= s.take(n as int));
        assert(s.take(n as int) + rest =~= s);
        vstd::arithmetic::div_mod::lemma_hoist_over_denominator(rest.len() + n - 1, 1, n);
        assert(rest.len() + n - 1 + n == s.len() + n - 1);
        assert forall|i: int| 0 <= i < hc.len() - 1 implies (#[trigger] hc[i]).len() == n by {
            if i > 0 {
                assert(hc[i] == tail[i - 1]);
            }
        }
        assert(hc.last() == tail.last());
    }
}

/// An `i32` in decimal, as `format!("{n}")` writes it: a `-` for a negative
/// number, then the digits of its magnitude.
pub open spec fn i32_decimal(n: i32) -> Seq<char> {
    if n < 0 {
        seq!['-'] + decimal((-n) as nat)
    } else {
        decimal(n as nat)
    }
}

proof fn lemma_digit_char(d: nat)
    requires
        d < 10,
    ensures
        is_digit(digit_char(d)),
        (digit_char(d) as nat) - ('0' as nat) == d,
{
    if d == 0 {
        assert(digit_char(d) == '0');
    } else if d == 1 {
        assert(digit_char(d) == '1');
    } else if d == 2 {
        assert(digit_char(d) == '2');
    } else if d == 3 {
        assert(digit_char(d) == '3');
    } else if d == 4 {
        assert(digit_char(d) == '4');
    } else if d == 5 {
        assert(digit_char(d) == '5');
    } else if d == 6 {
        assert(digit_char(d) == '6');
    } else if d == 7 {
        assert(digit_char(d) == '7');
    } else if d == 8 {
        assert(digit_char(d) == '8');
    } else {
        assert(digit_char(d) == '9');
    }
}

proof fn lemma_decimal_value(m: nat)
    ensures
        decimal(m).len() > 0,
        all_digits(decimal(m)),
        digits_value(decimal(m)) == m,
    decreases m,
{
    lemma_digit_char(m % 10);
    let d = decimal(m);
    assert(d.last() == digit_char(m % 10));
    assert(digits_value(d) == digits_value(d.drop_last()) * 10 + ((d.last() as nat) - ('0' as nat)) as nat);
    assert(m == (m / 10) * 10 + m % 10);
    if m < 10 {
        assert(d.drop_last() =~= Seq::<char>::empty());
        assert(digits_value(Seq::<char>::empty()) == 0);
    } else {
        lemma_decimal_value(m / 10);
        assert(d.drop_last() =~= decimal(m / 10));
        assert forall|i: int| 0 <= i < d.len() implies is_digit(#[trigger] d[i]) by {
            if i < d.len() - 1 {
                assert(d[i] == decimal(m / 10)[i]);
            }
        }
    }
}

/// `s` is kept whole by trimming where it neither starts nor ends with
/// whitespace.
proof fn lemma_trim_keeps(s: Seq<char>)
    requires
        s.len() > 0,
        !is_ws(s[0]),
        !is_ws(s.last()),
    ensures
        trim(s) == s,
{
    assert(trim_start(s) == s);
}

/// The speed argument of `n` reads back as `n`, written as `format!` writes
/// it, with or without a trailing `%`, and with a leading `+` where `n` is
/// not negative.
pub proof fn law_speed_round_trip(n: i32)
    ensures
        parse_i32(speed_number(i32_decimal(n) + seq!['%'])) == Some(n),
        parse_i32(speed_number(i32_decimal(n))) == Some(n),
        n >= 0 ==> parse_i32(speed_number(seq!['+'] + i32_decimal(n) + seq!['%'])) == Some(n),
{
    let m: nat = if n < 0 {
        (-n) as nat
    } else {
        n as nat
    };
    lemma_decimal_value(m);
    let d = decimal(m);
    let s = i32_decimal(n);
    assert(!is_ws(d.last()) && d.last() != '%' && d[0] != '+' && !is_ws(d[0]) && d[0] != '-');
    assert(s.last() == d.last());
    assert(!is_ws(s[0]) && s[0] != '+');
    assert(unsigned_part(s) == d) by {
        if n < 0 {
            assert(s.drop_first() =~= d);
        }
    }
    assert(parse_i32(s) == Some(n));
    lemma_trim_keeps(s);
    assert(trim_end_char(s, '%') == s);
    assert(speed_number(s) == s);
    let sp = s + seq!['%'];
    lemma_trim_keeps(sp);
    assert(sp.drop_last() =~= s);
    assert(trim_end_char(sp, '%') == s);
    assert(speed_number(sp) == s);
    if n >= 0 {
        let pp = seq!['+'] + s + seq!['%'];
        lemma_trim_keeps(pp);
        assert(pp.drop_last() =~= seq!['+'] + s);
        let q = seq!['+'] + s;
        assert(trim_end_char(q, '%') == q);
        assert(trim_end_char(pp, '%') == q);
        lemma_trim_keeps(q);
        assert(q.drop_first() =~= s);
        assert(speed_number(pp) == s);
    }
}

/// Resolving a voice twice gives what resolving it once gives: the full
/// voice names are no aliases.
pub proof fn law_resolve_voice_idempotent(voice: Seq<char>)
    ensures
        resolved_voice(resolved_voice(voice)) == resolved_voice(voice),
{
    reveal_strlit("xiaoxiao");
    reveal_strlit("yunxi");
    reveal_strlit("xiaohan");
    reveal_strlit("yunyang");
    reveal_strlit("zh-CN-XiaoxiaoNeural");
    reveal_strlit("zh-CN-YunxiNeural");
    reveal_strlit("zh-CN-XiaohanNeural");
    reveal_strlit("zh-CN-YunyangNeural");
    let t0 = alias_table();
    let t1 = t0.drop_first();
    let t2 = t1.drop_first();
    let t3 = t2.drop_first();
    let t4 = t3.drop_first();
    assert(t1 =~= seq![t0[1], t0[2], t0[3]]);
    assert(t2 =~= seq![t0[2], t0[3]]);
    assert(t3 =~= seq![t0[3]]);
    assert(t4.len() == 0);
    reveal_with_fuel(lookup_first, 5);
    let r = resolved_voice(voice);
    assert(t0[0].0.len() == 8 && t0[1].0.len() == 5 && t0[2].0.len() == 7 && t0[3].0.len() == 7);
    assert(t0[0].1.len() == 20 && t0[1].1.len() == 17 && t0[2].1.len() == 19 && t0[3].1.len() == 19);
    if voice_of_alias(voice) is Some {
        assert(r == t0[0].1 || r == t0[1].1 || r == t0[2].1 || r == t0[3].1);
        assert(r.len() >= 17);
        assert(voice_of_alias(r) is None);
    }
}


/// The characters that close a sentence, listed: `。！？；.!?;`.
pub open spec fn sentence_enders() -> Seq<char> {
    seq!['。', '！', '？', '；', '.', '!', '?', ';']
}

/// Some character of `s[i..i + n]` closes a sentence.
pub open spec fn window_has_ender(s: Seq<char>, i: int, n: nat) -> bool {
    exists|k: int| i <= k < i + n && #[trigger] sentence_enders().contains(s[k])
}

/// No `n` characters of `s` in a row go without a sentence end: every
/// sentence of `s`, but an unfinished one at its end, fits in `n`
/// characters with its closing mark.
pub open spec fn sentences_fit(s: Seq<char>, n: nat) -> bool {
    forall|i: int| 0 <= i && i + n <= s.len() ==> #[trigger] window_has_ender(s, i, n)
}

proof fn lemma_ender(c: char)
    ensures
        is_sentence_end(c) <==> sentence_enders().contains(c),
{
    let l = sentence_enders();
    if is_sentence_end(c) {
        if c == '。' {
            assert(l[0] == c);
        } else if c == '！' {
            assert(l[1] == c);
        } else if c == '？' {
            assert(l[2] == c);
        } else if c == '；' {
            assert(l[3] == c);
        } else if c == '.' {
            assert(l[4] == c);
        } else if c == '!' {
            assert(l[5] == c);
        } else if c == '?' {
            assert(l[6] == c);
        } else {
            assert(l[7] == c);
        }
    }
    if l.contains(c) {
        let i = choose|i: int| 0 <= i < l.len() && l[i] == c;
        assert(l[i] == c);
    }
}

proof fn lemma_sentence_ends(t: Seq<char>, n: nat)
    requires
        n > 0,
        sentences_fit(t, n),
    ensures
        forall|k: int| 0 <= k < sentence_state(t, n).1.len() ==> !is_sentence_end(
            #[trigger] sentence_state(t, n).1[k],
        ),
        sentence_state(t, n).1.len() <= t.len(),
        sentence_state(t, n).1 == t.skip(t.len() - sentence_state(t, n).1.len()),
        sentence_state(t, n).1.len() < n,
        forall|j: int|
            0 <= j < sentence_state(t, n).0.chunks.len() ==> (#[trigger] sentence_state(t, n).0.chunks[j]).len()
                > 0 && sentence_enders().contains(sentence_state(t, n).0.chunks[j].last()),
        sentence_state(t, n).0.current.len() == 0 || sentence_enders().contains(
            sentence_state(t, n).0.current.last(),
        ),
    decreases t.len(),
{
    if t.len() == 0 {
        assert(t.skip(0) =~= Seq::<char>::empty());
    } else {
        let d = t.drop_last();
        assert forall|i: int| 0 <= i && i + n <= d.len() implies #[trigger] window_has_ender(d, i, n) by {
            assert(window_has_ender(t, i, n));
            let k = choose|k: int| i <= k < i + n && #[trigger] sentence_enders().contains(t[k]);
            assert(d[k] == t[k]);
        }
        lemma_sentence_ends(d, n);
        let (st, seg) = sentence_state(d, n);
        let c = t.last();
        let seg2 = seg.push(c);
        lemma_ender(c);
        assert(seg2 =~= t.skip(t.len() - seg2.len())) by {
            assert(t.skip(t.len() - seg2.len()).drop_last() =~= d.skip(d.len() - seg.len()));
        }
        if is_sentence_end(c) {
            let r = place(st, seg2, n);
            assert(seg2.last() == c);
            if st.current.len() + seg2.len() <= n {
                assert((st.current + seg2).last() == c);
            } else {
                if st.current.len() > 0 {
                    assert forall|j: int| 0 <= j < st.chunks.push(st.current).len() implies (
                    #[trigger] st.chunks.push(st.current)[j]).len() > 0 && sentence_enders().contains(
                        st.chunks.push(st.current)[j].last(),
                    ) by {
                        if j < st.chunks.len() {
                            assert(st.chunks.push(st.current)[j] == st.chunks[j]);
                        }
                    }
                }
            }
            assert(sentence_state(t, n) == (r, Seq::<char>::empty()));
            assert(t.skip(t.len() as int) =~= Seq::<char>::empty());
        } else {
            assert(sentence_state(t, n) == (st, seg2));
            assert forall|k: int| 0 <= k < seg2.len() implies !is_sentence_end(#[trigger] seg2[k]) by {
                if k < seg.len() {
                    assert(seg2[k] == seg[k]);
                }
            }
            if seg2.len() >= n {
                let i = t.len() - seg2.len();
                assert(window_has_ender(t, i, n));
                let k = choose|k: int| i <= k < i + n && #[trigger] sentence_enders().contains(t[k]);
                assert(t[k] == seg2[k - i]);
                lemma_ender(t[k]);
                assert(false);
            }
        }
    }
}

/// A long paragraph is cut only where a sentence ends, where its sentences
/// fit in a chunk: when no `n` characters in a row go without one of
/// `。！？；.!?;`, every chunk but the last ends with one of them.
pub proof fn law_chunks_end_at_sentence_ends(s: Seq<char>, n: nat)
    requires
        n > 0,
        sentences_fit(s, n),
    ensures
        forall|j: int|
            0 <= j < sentence_chunks(s, n).len() - 1 ==> sentence_enders().contains(
                (#[trigger] sentence_chunks(s, n)[j]).last(),
            ),
{
    lemma_sentence_ends(s, n);
    let (st, seg) = sentence_state(s, n);
    let st2 = if seg.len() > 0 {
        place(st, seg, n)
    } else {
        st
    };
    assert(forall|j: int| 0 <= j < st2.chunks.len() ==> sentence_enders().contains(
        (#[trigger] st2.chunks[j]).last(),
    )) by {
        if seg.len() > 0 && st.current.len() + seg.len() > n && st.current.len() > 0 {
            assert forall|j: int| 0 <= j < st2.chunks.len() implies sentence_enders().contains(
                (#[trigger] st2.chunks[j]).last(),
            ) by {
                assert(st2.chunks == st.chunks.push(st.current));
                if j < st.chunks.len() {
                    assert(st2.chunks[j] == st.chunks[j]);
                }
            }
        }
    }
    let r = sentence_chunks(s, n);
    if st2.current.len() > 0 {
        assert(r == st2.chunks.push(st2.current));
        assert forall|j: int| 0 <= j < r.len() - 1 implies sentence_enders().contains(
            (#[trigger] r[j]).last(),
        ) by {
            assert(r[j] == st2.chunks[j]);
        }
    } else {
        if st.current.len() > 0 && seg.len() == 0 {
            assert(st2.current == st.current);
        }
        assert(r == st2.chunks);
        assert forall|j: int| 0 <= j < r.len() - 1 implies sentence_enders().contains(
            (#[trigger] r[j]).last(),
        ) by {
            assert(r[j] == st2.chunks[j]);
        }
    }
}

} // verus!
