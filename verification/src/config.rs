//! Defaults and the table of voice aliases.

use crate::text::str_equal;
use vstd::prelude::*;

verus! {

/// The voice used where none is given.
pub const DEFAULT_VOICE: &'static str = "zh-CN-XiaoxiaoNeural";

/// The largest number of characters sent to the speech service at once.
pub const MAX_CHUNK_SIZE: usize = 4000;

/// The short aliases of the voices and the full voice names they stand for.
pub open spec fn alias_table() -> Seq<(Seq<char>, Seq<char>)> {
    seq![
        ("xiaoxiao"@, "zh-CN-XiaoxiaoNeural"@),
        ("yunxi"@, "zh-CN-YunxiNeural"@),
        ("xiaohan"@, "zh-CN-XiaohanNeural"@),
        ("yunyang"@, "zh-CN-YunyangNeural"@),
    ]
}

/// The views of a table of string pairs.
pub open spec fn pair_views(t: Seq<(&str, &str)>) -> Seq<(Seq<char>, Seq<char>)> {
    t.map_values(|p: (&str, &str)| (p.0@, p.1@))
}

/// The alias table, in order.
pub fn voice_aliases() -> (res: Vec<(&'static str, &'static str)>)
    ensures
        pair_views(res@) == alias_table(),
{
    let res = vec![
        ("xiaoxiao", "zh-CN-XiaoxiaoNeural"),
        ("yunxi", "zh-CN-YunxiNeural"),
        ("xiaohan", "zh-CN-XiaohanNeural"),
        ("yunyang", "zh-CN-YunyangNeural"),
    ];
    assert(pair_views(res@) =~= alias_table());
    res
}

/// The second component of the first pair in `t` whose first component is
/// `key`.
pub open spec fn lookup_first(t: Seq<(Seq<char>, Seq<char>)>, key: Seq<char>) -> Option<Seq<char>>
    decreases t.len(),
{
    if t.len() == 0 {
        None
    } else if t[0].0 == key {
        Some(t[0].1)
    } else {
        lookup_first(t.drop_first(), key)
    }
}

/// The first component of the first pair in `t` whose second component is
/// `value`.
pub open spec fn lookup_second(t: Seq<(Seq<char>, Seq<char>)>, value: Seq<char>) -> Option<
    Seq<char>,
>
    decreases t.len(),
{
    if t.len() == 0 {
        None
    } else if t[0].1 == value {
        Some(t[0].0)
    } else {
        lookup_second(t.drop_first(), value)
    }
}

/// The full voice name that `alias` stands for.
pub open spec fn voice_of_alias(alias: Seq<char>) -> Option<Seq<char>> {
    lookup_first(alias_table(), alias)
}

/// The alias of the full voice name `voice`.
pub open spec fn alias_of_voice(voice: Seq<char>) -> Option<Seq<char>> {
    lookup_second(alias_table(), voice)
}

/// The full voice name that `alias` stands for, if it is an alias.
pub fn alias_to_voice(alias: &str) -> (res: Option<&'static str>)
    ensures
        match res {
            Some(v) => voice_of_alias(alias@) == Some(v@),
            None => voice_of_alias(alias@) is None,
        },
{
    let table = voice_aliases();
    let ghost t = pair_views(table@);
    let mut i: usize = 0;
    assert(t.skip(0) =~= t);
    while i < table.len()
        invariant
            i <= table.len(),
            t == pair_views(table@),
            t == alias_table(),
            lookup_first(t, alias@) == lookup_first(t.skip(i as int), alias@),
        decreases table.len() - i,
    {
        assert(t.skip(i as int)[0] == (table@[i as int].0@, table@[i as int].1@));
        if str_equal(table[i].0, alias) {
            return Some(table[i].1);
        }
        assert(t.skip(i as int).drop_first() =~= t.skip(i + 1));
        i += 1;
    }
    None
}

/// The alias of the full voice name `voice`, if it has one.
pub fn voice_to_alias(voice: &str) -> (res: Option<&'static str>)
    ensures
        match res {
            Some(a) => alias_of_voice(voice@) == Some(a@),
            None => alias_of_voice(voice@) is None,
        },
{
    let table = voice_aliases();
    let ghost t = pair_views(table@);
    let mut i: usize = 0;
    assert(t.skip(0) =~= t);
    while i < table.len()
        invariant
            i <= table.len(),
            t == pair_views(table@),
            t == alias_table(),
            lookup_second(t, voice@) == lookup_second(t.skip(i as int), voice@),
        decreases table.len() - i,
    {
        assert(t.skip(i as int)[0] == (table@[i as int].0@, table@[i as int].1@));
        if str_equal(table[i].1, voice) {
            return Some(table[i].0);
        }
        assert(t.skip(i as int).drop_first() =~= t.skip(i + 1));
        i += 1;
    }
    None
}

/// An alias and the voice it stands for determine each other: looking up
/// the voice of an alias and then the alias of that voice gives the alias
/// back, and the other way round.
pub proof fn law_alias_voice_round_trip(alias: Seq<char>, voice: Seq<char>)
    ensures
        voice_of_alias(alias) == Some(voice) <==> alias_of_voice(voice) == Some(alias),
{
    reveal_strlit("xiaoxiao");
    reveal_strlit("yunxi");
    reveal_strlit("xiaohan");
    reveal_strlit("yunyang");
    reveal_strlit("zh-CN-XiaoxiaoNeural");
    reveal_strlit("zh-CN-YunxiNeural");
    reveal_strlit("zh-CN-XiaohanNeural");
    reveal_strlit("zh-CN-YunyangNeural");
    let e0 = ("xiaoxiao"@, "zh-CN-XiaoxiaoNeural"@);
    let e1 = ("yunxi"@, "zh-CN-YunxiNeural"@);
    let e2 = ("xiaohan"@, "zh-CN-XiaohanNeural"@);
    let e3 = ("yunyang"@, "zh-CN-YunyangNeural"@);
    let t0 = alias_table();
    let t1 = t0.drop_first();
    let t2 = t1.drop_first();
    let t3 = t2.drop_first();
    let t4 = t3.drop_first();
    assert(t0 =~= seq![e0, e1, e2, e3]);
    assert(t1 =~= seq![e1, e2, e3]);
    assert(t2 =~= seq![e2, e3]);
    assert(t3 =~= seq![e3]);
    assert(t4.len() == 0);
    reveal_with_fuel(lookup_first, 5);
    reveal_with_fuel(lookup_second, 5);
    assert(lookup_first(t4, alias) is None);
    assert(lookup_second(t4, voice) is None);
    assert(e0.0.len() == 8 && e1.0.len() == 5 && e2.0.len() == 7 && e3.0.len() == 7);
    assert(e0.1.len() == 20 && e1.1.len() == 17 && e2.1.len() == 19 && e3.1.len() == 19);
    assert(e2.1[8] != e3.1[8]);
    assert(e0.0 != e1.0 && e0.0 != e2.0 && e0.0 != e3.0 && e1.0 != e2.0 && e1.0 != e3.0);
    assert(e2.0[0] != e3.0[0]);
    assert(e0.1 != e1.1 && e0.1 != e2.1 && e0.1 != e3.1 && e1.1 != e2.1 && e1.1 != e3.1
        && e2.1 != e3.1);
}

} // verus!
