//! What the terminal output is made of: the voice table rows, the lines of
//! the summary, and the layout of the framed panel.

use crate::config::{alias_of_voice, alias_table, voice_aliases, voice_to_alias, pair_views};
use crate::text::{chars_equal, chars_of, push_all, replace_all, replace_chars, string_of};
use vstd::prelude::*;

verus! {

/// A voice offered by the speech service: its name, short name, gender
/// and locale.
#[derive(Debug)]
pub struct VoiceInfo {
    pub name: String,
    pub short_name: Option<String>,
    pub gender: Option<String>,
    pub locale: Option<String>,
}

/// The view of an optional string.
pub open spec fn opt_chars(s: Option<String>) -> Option<Seq<char>> {
    match s {
        Some(t) => Some(t@),
        None => None,
    }
}

/// The name a voice is listed under: its short name, or its name.
pub open spec fn listed_name(v: VoiceInfo) -> Seq<char> {
    match v.short_name {
        Some(s) => s@,
        None => v.name@,
    }
}

/// A voice name without the "zh-CN-" and "Neural" parts.
pub open spec fn display_name(voice: Seq<char>) -> Seq<char> {
    replace_all(replace_all(voice, "zh-CN-"@, ""@), "Neural"@, ""@)
}

/// The gender shown for a voice: "女" for a female voice, "男" otherwise.
pub open spec fn gender_label(gender: Option<Seq<char>>) -> Seq<char> {
    if gender == Some("Female"@) {
        "女"@
    } else {
        "男"@
    }
}

/// The row of a voice: its alias (or "-"), its display name, its gender.
pub open spec fn voice_row(v: VoiceInfo) -> (Seq<char>, Seq<char>, Seq<char>) {
    (
        match alias_of_voice(listed_name(v)) {
            Some(a) => a,
            None => "-"@,
        },
        display_name(listed_name(v)),
        gender_label(opt_chars(v.gender)),
    )
}

/// The rows of the voices whose alias is `alias`, in order.
pub open spec fn rows_with_alias(voices: Seq<VoiceInfo>, alias: Seq<char>) -> Seq<
    (Seq<char>, Seq<char>, Seq<char>),
>
    decreases voices.len(),
{
    if voices.len() == 0 {
        seq![]
    } else {
        rows_with_alias(voices.drop_last(), alias) + if alias_of_voice(listed_name(voices.last()))
            == Some(alias) {
            seq![voice_row(voices.last())]
        } else {
            seq![]
        }
    }
}

/// The rows of the voices without an alias, in order.
pub open spec fn rows_without_alias(voices: Seq<VoiceInfo>) -> Seq<(Seq<char>, Seq<char>, Seq<char>)>
    decreases voices.len(),
{
    if voices.len() == 0 {
        seq![]
    } else {
        rows_without_alias(voices.drop_last()) + if alias_of_voice(
            listed_name(voices.last()),
        ) is None {
            seq![voice_row(voices.last())]
        } else {
            seq![]
        }
    }
}

/// The rows of the voices with an alias, ordered by the alias table (the
/// voices of one alias in their given order).
pub open spec fn aliased_rows(voices: Seq<VoiceInfo>, k: int) -> Seq<
    (Seq<char>, Seq<char>, Seq<char>),
>
    decreases k,
{
    if k <= 0 {
        seq![]
    } else {
        aliased_rows(voices, k - 1) + rows_with_alias(voices, alias_table()[k - 1].0)
    }
}

/// The rows of the voice table: the voices with an alias first, in the
/// order of the alias table, then the others in their given order.
pub open spec fn voice_rows_of(voices: Seq<VoiceInfo>) -> Seq<(Seq<char>, Seq<char>, Seq<char>)> {
    aliased_rows(voices, alias_table().len() as int) + rows_without_alias(voices)
}

/// The views of table rows.
pub open spec fn row_views(rows: Seq<(String, String, String)>) -> Seq<
    (Seq<char>, Seq<char>, Seq<char>),
> {
    rows.map_values(|r: (String, String, String)| (r.0@, r.1@, r.2@))
}

/// A voice name without the "zh-CN-" and "Neural" parts.
pub fn voice_display_name(voice: &str) -> (res: String)
    ensures
        res@ == display_name(voice@),
{
    proof {
        reveal_strlit("zh-CN-");
        reveal_strlit("Neural");
    }
    let empty = chars_of("");
    let a = replace_chars(&chars_of(voice), &chars_of("zh-CN-"), &empty);
    string_of(&replace_chars(&a, &chars_of("Neural"), &empty))
}

/// The row of one voice.
pub fn voice_row_of(v: &VoiceInfo) -> (res: (String, String, String))
    ensures
        (res.0@, res.1@, res.2@) == voice_row(*v),
{
    let short: &str = match &v.short_name {
        Some(s) => s.as_str(),
        None => v.name.as_str(),
    };
    let alias = match voice_to_alias(short) {
        Some(a) => string_of(&chars_of(a)),
        None => string_of(&chars_of("-")),
    };
    let female = match &v.gender {
        Some(g) => chars_equal(&chars_of(g.as_str()), &chars_of("Female")),
        None => false,
    };
    let gender = if female {
        string_of(&chars_of("女"))
    } else {
        string_of(&chars_of("男"))
    };
    (alias, voice_display_name(short), gender)
}

/// The rows of the voice table: alias, display name, gender; the voices
/// with an alias first, in the order of the alias table, then the rest.
pub fn voice_rows(voices: &Vec<VoiceInfo>) -> (res: Vec<(String, String, String)>)
    ensures
        row_views(res@) == voice_rows_of(voices@),
{
    let table = voice_aliases();
    let mut rows: Vec<(String, String, String)> = Vec::new();
    let mut k: usize = 0;
    while k < table.len()
        invariant
            k <= table.len(),
            pair_views(table@) == alias_table(),
            row_views(rows@) == aliased_rows(voices@, k as int),
        decreases table.len() - k,
    {
        let alias = chars_of(table[k].0);
        assert(alias@ == alias_table()[k as int].0);
        let mut i: usize = 0;
        let ghost start = row_views(rows@);
        assert(voices@.take(0) =~= seq![]);
        while i < voices.len()
            invariant
                i <= voices.len(),
                k < table.len(),
                alias@ == alias_table()[k as int].0,
                row_views(rows@) == start + rows_with_alias(voices@.take(i as int), alias@),
            decreases voices.len() - i,
        {
            assert(voices@.take(i + 1).drop_last() =~= voices@.take(i as int));
            assert(voices@.take(i + 1).last() == voices@[i as int]);
            let v = &voices[i];
            let short: &str = match &v.short_name {
                Some(s) => s.as_str(),
                None => v.name.as_str(),
            };
            let has = match voice_to_alias(short) {
                Some(a) => chars_equal(&chars_of(a), &alias),
                None => false,
            };
            let ghost before = row_views(rows@);
            if has {
                let r = voice_row_of(v);
                rows.push(r);
                assert(row_views(rows@) =~= before.push((r.0@, r.1@, r.2@)));
            }
            i += 1;
            assert(row_views(rows@) =~= start + rows_with_alias(voices@.take(i as int), alias@));
        }
        assert(voices@.take(voices.len() as int) =~= voices@);
        k += 1;
    }
    let ghost start = row_views(rows@);
    let mut i: usize = 0;
    assert(voices@.take(0) =~= seq![]);
    while i < voices.len()
        invariant
            i <= voices.len(),
            row_views(rows@) == start + rows_without_alias(voices@.take(i as int)),
        decreases voices.len() - i,
    {
        assert(voices@.take(i + 1).drop_last() =~= voices@.take(i as int));
        assert(voices@.take(i + 1).last() == voices@[i as int]);
        let v = &voices[i];
        let short: &str = match &v.short_name {
            Some(s) => s.as_str(),
            None => v.name.as_str(),
        };
        let ghost before = row_views(rows@);
        if voice_to_alias(short).is_none() {
            let r = voice_row_of(v);
            rows.push(r);
            assert(row_views(rows@) =~= before.push((r.0@, r.1@, r.2@)));
        }
        i += 1;
        assert(row_views(rows@) =~= start + rows_without_alias(voices@.take(i as int)));
    }
    assert(voices@.take(voices.len() as int) =~= voices@);
    rows
}

/// The width of a character on a terminal: 1 for ASCII, 2 otherwise.
pub open spec fn char_width(c: char) -> nat {
    if (c as u32) < 128 {
        1
    } else {
        2
    }
}

/// The width of a text on a terminal.
pub open spec fn text_width(s: Seq<char>) -> nat
    decreases s.len(),
{
    if s.len() == 0 {
        0
    } else {
        text_width(s.drop_last()) + char_width(s.last())
    }
}

proof fn lemma_text_width_bound(s: Seq<char>)
    ensures
        text_width(s) <= 2 * s.len(),
    decreases s.len(),
{
    if s.len() > 0 {
        lemma_text_width_bound(s.drop_last());
    }
}

/// The width of `s` on a terminal: ASCII characters count one column,
/// others two.
pub fn display_width(s: &str) -> (res: usize)
    requires
        2 * s@.len() <= usize::MAX,
    ensures
        res == text_width(s@),
{
    let chars = chars_of(s);
    let mut w: usize = 0;
    let mut i: usize = 0;
    while i < chars.len()
        invariant
            i <= chars.len(),
            chars@ == s@,
            2 * s@.len() <= usize::MAX,
            w == text_width(chars@.take(i as int)),
        decreases chars.len() - i,
    {
        assert(chars@.take(i + 1).drop_last() =~= chars@.take(i as int));
        proof {
            lemma_text_width_bound(chars@.take(i + 1));
        }
        w = w + if (chars[i] as u32) < 128 {
            1
        } else {
            2
        };
        i += 1;
    }
    assert(chars@.take(chars.len() as int) =~= chars@);
    w
}

/// The title of the summary panel.
pub const SUMMARY_TITLE: &'static str = "✅ 转换完成";

/// The lines of the summary after a conversion: the source file, the
/// output file, the voice (its alias, or its name, then its display name in
/// brackets), the speed and the file size.
pub open spec fn summary(
    input: Seq<char>,
    output: Seq<char>,
    voice_id: Seq<char>,
    speed: Seq<char>,
    size_text: Seq<char>,
) -> Seq<Seq<char>> {
    seq![
        "源文件:   "@ + input,
        "输出文件: "@ + output,
        "声音:     "@ + (match alias_of_voice(voice_id) {
            Some(a) => a,
            None => voice_id,
        }) + " ("@ + display_name(voice_id) + ")"@,
        "语速:     "@ + speed,
        "文件大小: "@ + size_text,
    ]
}

/// The views of a list of strings.
pub open spec fn string_views(v: Seq<String>) -> Seq<Seq<char>> {
    v.map_values(|s: String| s@)
}

/// `a` followed by `b`.
fn concat2(a: &str, b: &str) -> (res: String)
    ensures
        res@ == a@ + b@,
{
    let mut v = chars_of(a);
    push_all(&mut v, &chars_of(b));
    string_of(&v)
}

/// The lines of the summary panel; `size_text` is the file size as it is
/// shown.
pub fn summary_lines(input: &str, output: &str, voice_id: &str, speed: &str, size_text: &str) -> (res:
    Vec<String>)
    ensures
        string_views(res@) == summary(input@, output@, voice_id@, speed@, size_text@),
{
    let alias: &str = match voice_to_alias(voice_id) {
        Some(a) => a,
        None => voice_id,
    };
    let mut voice = chars_of("声音:     ");
    push_all(&mut voice, &chars_of(alias));
    push_all(&mut voice, &chars_of(" ("));
    push_all(&mut voice, &chars_of(voice_display_name(voice_id).as_str()));
    push_all(&mut voice, &chars_of(")"));
    let res = vec![
        concat2("源文件:   ", input),
        concat2("输出文件: ", output),
        string_of(&voice),
        concat2("语速:     ", speed),
        concat2("文件大小: ", size_text),
    ];
    assert(string_views(res@) =~= summary(input@, output@, voice_id@, speed@, size_text@));
    res
}

/// The widest of `lines`, or `floor` where none is wider.
pub open spec fn max_width(lines: Seq<Seq<char>>, floor: nat) -> nat
    decreases lines.len(),
{
    if lines.len() == 0 {
        floor
    } else {
        let w = max_width(lines.drop_last(), floor);
        if text_width(lines.last()) > w {
            text_width(lines.last())
        } else {
            w
        }
    }
}

/// The layout of a framed panel: the inner width, the rule lengths left and
/// right of the title, and the padding after each line.
pub struct PanelLayout {
    pub width: usize,
    pub left: usize,
    pub right: usize,
    pub pads: Vec<usize>,
}

/// `a - b`, or 0 where `b` is larger.
pub open spec fn sat_sub(a: int, b: int) -> int {
    if a >= b {
        a - b
    } else {
        0
    }
}

/// The width of a panel: the widest line, at least the title's width plus
/// four, and at least 40.
pub open spec fn panel_width(title: Seq<char>, lines: Seq<Seq<char>>) -> nat {
    let w = max_width(lines, text_width(title) + 4);
    if w > 40 {
        w
    } else {
        40
    }
}

/// Lays out a framed panel for `title` and `lines`: the width of the
/// widest line (and at least the title's width plus four, and 40), the title
/// centred in the top rule (the odd column going right), and each line
/// padded to the width.
pub fn panel_layout(title: &str, lines: &Vec<String>) -> (res: PanelLayout)
    requires
        2 * title@.len() + 4 <= usize::MAX,
        forall|i: int| 0 <= i < lines@.len() ==> 2 * (#[trigger] lines@[i])@.len() <= usize::MAX,
    ensures
        res.width == panel_width(title@, string_views(lines@)),
        res.left == sat_sub(res.width as int, text_width(title@) + 2 as int) / 2,
        res.left + res.right == sat_sub(res.width as int, text_width(title@) + 2 as int),
        res.pads@.len() == lines@.len(),
        forall|i: int| 0 <= i < lines@.len() ==> #[trigger] res.pads@[i] == sat_sub(res.width as int, text_width(lines@[i]@) as int),
{
    let tw = display_width(title);
    proof {
        lemma_text_width_bound(title@);
    }
    let ghost ls = string_views(lines@);
    let mut w: usize = tw + 4;
    let mut i: usize = 0;
    while i < lines.len()
        invariant
            i <= lines.len(),
            ls == string_views(lines@),
            forall|k: int| 0 <= k < lines@.len() ==> 2 * (#[trigger] lines@[k])@.len() <= usize::MAX,
            w == max_width(ls.take(i as int), text_width(title@) + 4),
        decreases lines.len() - i,
    {
        assert(ls.take(i + 1).drop_last() =~= ls.take(i as int));
        assert(ls.take(i + 1).last() == lines@[i as int]@);
        let lw = display_width(lines[i].as_str());
        if lw > w {
            w = lw;
        }
        i += 1;
    }
    assert(ls.take(lines.len() as int) =~= ls);
    let width = if w > 40 {
        w
    } else {
        40
    };
    let total = if width >= tw + 2 {
        width - (tw + 2)
    } else {
        0
    };
    let left = total / 2;
    let right = total - left;
    let mut pads: Vec<usize> = Vec::new();
    let mut j: usize = 0;
    while j < lines.len()
        invariant
            j <= lines.len(),
            pads@.len() == j,
            forall|k: int| 0 <= k < lines@.len() ==> 2 * (#[trigger] lines@[k])@.len() <= usize::MAX,
            forall|k: int| 0 <= k < j ==> #[trigger] pads@[k] == sat_sub(width as int, text_width(lines@[k]@) as int),
        decreases lines.len() - j,
    {
        let lw = display_width(lines[j].as_str());
        pads.push(if width >= lw {
            width - lw
        } else {
            0
        });
        j += 1;
    }
    PanelLayout { width, left, right, pads }
}

} // verus!
