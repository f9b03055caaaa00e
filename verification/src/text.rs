//! Character-sequence utilities shared by the parsers and the text
//! preparation: Unicode whitespace, trimming, replacing, splitting on
//! blank lines and joining.

use vstd::prelude::*;

verus! {

/// The Unicode `White_Space` property, which `char::is_whitespace`,
/// `str::trim` and `str::split_whitespace` go by.
pub open spec fn is_ws(c: char) -> bool {
    ||| ('\u{9}' <= c && c <= '\u{d}')
    ||| c == ' '
    ||| c == '\u{85}'
    ||| c == '\u{a0}'
    ||| c == '\u{1680}'
    ||| ('\u{2000}' <= c && c <= '\u{200a}')
    ||| c == '\u{2028}'
    ||| c == '\u{2029}'
    ||| c == '\u{202f}'
    ||| c == '\u{205f}'
    ||| c == '\u{3000}'
}

/// Whether `c` is a whitespace character.
pub fn is_whitespace(c: char) -> (res: bool)
    ensures
        res == is_ws(c),
{
    ('\u{9}' <= c && c <= '\u{d}') || c == ' ' || c == '\u{85}' || c == '\u{a0}' || c
        == '\u{1680}' || ('\u{2000}' <= c && c <= '\u{200a}') || c == '\u{2028}' || c
        == '\u{2029}' || c == '\u{202f}' || c == '\u{205f}' || c == '\u{3000}'
}

/// `s` without its leading whitespace.
pub open spec fn trim_start(s: Seq<char>) -> Seq<char>
    decreases s.len(),
{
    if s.len() > 0 && is_ws(s[0]) {
        trim_start(s.drop_first())
    } else {
        s
    }
}

/// `s` without its trailing whitespace.
pub open spec fn trim_end(s: Seq<char>) -> Seq<char>
    decreases s.len(),
{
    if s.len() > 0 && is_ws(s.last()) {
        trim_end(s.drop_last())
    } else {
        s
    }
}

/// `s` without leading and trailing whitespace, as `str::trim` gives it.
pub open spec fn trim(s: Seq<char>) -> Seq<char> {
    trim_end(trim_start(s))
}

pub proof fn lemma_trim_start_skip(s: Seq<char>, a: int)
    requires
        0 <= a <= s.len(),
        forall|i: int| 0 <= i < a ==> is_ws(#[trigger] s[i]),
        a == s.len() || !is_ws(s[a]),
    ensures
        trim_start(s) == s.skip(a),
    decreases a,
{
    if a == 0 {
        assert(s.skip(0) =~= s);
    } else {
        let t = s.drop_first();
        assert forall|i: int| 0 <= i < a - 1 implies is_ws(#[trigger] t[i]) by {
            assert(t[i] == s[i + 1]);
        }
        if a - 1 < t.len() {
            assert(t[a - 1] == s[a]);
        }
        lemma_trim_start_skip(t, a - 1);
        assert(t.skip(a - 1) =~= s.skip(a));
    }
}

pub proof fn lemma_trim_end_take(s: Seq<char>, b: int)
    requires
        0 <= b <= s.len(),
        forall|i: int| b <= i < s.len() ==> is_ws(#[trigger] s[i]),
        b == 0 || !is_ws(s[b - 1]),
    ensures
        trim_end(s) == s.take(b),
    decreases s.len() - b,
{
    if b == s.len() {
        assert(s.take(b) =~= s);
    } else {
        let t = s.drop_last();
        assert forall|i: int| b <= i < t.len() implies is_ws(#[trigger] t[i]) by {
            assert(t[i] == s[i]);
        }
        if b > 0 {
            assert(t[b - 1] == s[b - 1]);
        }
        lemma_trim_end_take(t, b);
        assert(t.take(b) =~= s.take(b));
    }
}

proof fn lemma_trim_end_keeps(s: Seq<char>, k: int)
    requires
        0 <= k < s.len(),
        !is_ws(s[k]),
    ensures
        trim_end(s).len() > k,
    decreases s.len(),
{
    if is_ws(s.last()) {
        assert(k < s.len() - 1);
        assert(s.drop_last()[k] == s[k]);
        lemma_trim_end_keeps(s.drop_last(), k);
    }
}

/// `s` holds no character but whitespace.
pub open spec fn all_ws(s: Seq<char>) -> bool {
    forall|i: int| 0 <= i < s.len() ==> is_ws(#[trigger] s[i])
}

proof fn lemma_trim_first_nonws(s: Seq<char>, k: int)
    requires
        0 <= k < s.len(),
        !is_ws(s[k]),
    ensures
        trim(s).len() > 0,
    decreases k,
{
    if k == 0 || !is_ws(s[0]) {
        assert(trim_start(s) == s);
        lemma_trim_end_keeps(s, 0);
    } else {
        assert(s.drop_first()[k - 1] == s[k]);
        lemma_trim_first_nonws(s.drop_first(), k - 1);
    }
}

/// The trimmed text is empty exactly when the text is all whitespace.
pub proof fn lemma_trim_empty(s: Seq<char>)
    ensures
        (trim(s).len() == 0) == all_ws(s),
{
    if all_ws(s) {
        lemma_trim_start_skip(s, s.len() as int);
        assert(s.skip(s.len() as int).len() == 0);
    } else {
        let k = choose|k: int| 0 <= k < s.len() && !is_ws(#[trigger] s[k]);
        lemma_trim_first_nonws(s, k);
    }
}

proof fn lemma_split_blank_from_ws(s: Seq<char>, i: int, cur: Seq<char>)
    requires
        0 <= i,
        all_ws(s),
        all_ws(cur),
    ensures
        forall|j: int|
            0 <= j < split_blank_from(s, i, cur).len() ==> all_ws(
                #[trigger] split_blank_from(s, i, cur)[j],
            ),
    decreases s.len() - i,
{
    if i >= s.len() {
        assert(split_blank_from(s, i, cur) == seq![cur]);
        assert forall|j: int| 0 <= j < split_blank_from(s, i, cur).len() implies all_ws(
            #[trigger] split_blank_from(s, i, cur)[j],
        ) by {
            assert(split_blank_from(s, i, cur)[j] == cur);
        }
    } else {
        if blank_at(s, i) {
            lemma_split_blank_from_ws(s, i + 2, seq![]);
            let rest = split_blank_from(s, i + 2, seq![]);
            assert(split_blank_from(s, i, cur) == seq![cur] + rest);
            assert forall|j: int| 0 <= j < (seq![cur] + rest).len() implies all_ws(
                #[trigger] (seq![cur] + rest)[j],
            ) by {
                if j > 0 {
                    assert((seq![cur] + rest)[j] == rest[j - 1]);
                }
            }
        } else {
            let c2 = cur.push(s[i]);
            assert forall|k: int| 0 <= k < c2.len() implies is_ws(#[trigger] c2[k]) by {
                if k < cur.len() {
                    assert(c2[k] == cur[k]);
                }
            }
            assert(all_ws(c2));
            lemma_split_blank_from_ws(s, i + 1, c2);
            assert(split_blank_from(s, i, cur) == split_blank_from(s, i + 1, c2));
        }
    }
}

/// The pieces between blank lines of a text that is all whitespace are all
/// whitespace too.
pub proof fn lemma_split_paragraphs_ws(s: Seq<char>)
    requires
        all_ws(s),
    ensures
        forall|j: int|
            0 <= j < split_paragraphs(s).len() ==> all_ws(#[trigger] split_paragraphs(s)[j]),
{
    lemma_split_blank_from_ws(s, 0, seq![]);
}

/// The concatenation of `parts`, in order.
pub open spec fn concat(parts: Seq<Seq<char>>) -> Seq<char>
    decreases parts.len(),
{
    if parts.len() == 0 {
        seq![]
    } else {
        concat(parts.drop_last()) + parts.last()
    }
}

pub proof fn lemma_concat_append(a: Seq<Seq<char>>, b: Seq<Seq<char>>)
    ensures
        concat(a + b) == concat(a) + concat(b),
    decreases b.len(),
{
    if b.len() == 0 {
        assert(a + b =~= a);
        assert(concat(a) + concat(b) =~= concat(a));
    } else {
        assert((a + b).drop_last() =~= a + b.drop_last());
        assert((a + b).last() == b.last());
        lemma_concat_append(a, b.drop_last());
        assert(concat(a) + concat(b.drop_last()) + b.last() =~= concat(a) + (concat(
            b.drop_last(),
        ) + b.last()));
    }
}

pub proof fn lemma_concat_single(x: Seq<char>)
    ensures
        concat(seq![x]) == x,
{
    let e = Seq::<Seq<char>>::empty();
    assert(seq![x].drop_last() =~= e);
    assert(concat(e) == Seq::<char>::empty());
    assert(concat(seq![x]) == concat(e) + x);
    assert(Seq::<char>::empty() + x =~= x);
}

/// `s` without its whitespace characters.
pub open spec fn no_ws(s: Seq<char>) -> Seq<char> {
    s.filter(|c: char| !is_ws(c))
}

pub proof fn lemma_no_ws_append(a: Seq<char>, b: Seq<char>)
    ensures
        no_ws(a + b) == no_ws(a) + no_ws(b),
{
    Seq::filter_distributes_over_add(a, b, |c: char| !is_ws(c));
}

pub proof fn lemma_no_ws_single(c: char)
    ensures
        no_ws(seq![c]) == if is_ws(c) {
            Seq::<char>::empty()
        } else {
            seq![c]
        },
{
    reveal(Seq::filter);
    assert(seq![c].drop_last() =~= Seq::<char>::empty());
    assert(Seq::<char>::empty().filter(|c: char| !is_ws(c)) =~= Seq::<char>::empty());
    if !is_ws(c) {
        assert(Seq::<char>::empty().push(c) =~= seq![c]);
    }
}

proof fn lemma_no_ws_trim_start(s: Seq<char>)
    ensures
        no_ws(trim_start(s)) == no_ws(s),
    decreases s.len(),
{
    if s.len() > 0 && is_ws(s[0]) {
        lemma_no_ws_trim_start(s.drop_first());
        assert(s =~= seq![s[0]] + s.drop_first());
        lemma_no_ws_append(seq![s[0]], s.drop_first());
        lemma_no_ws_single(s[0]);
        assert(Seq::<char>::empty() + no_ws(s.drop_first()) =~= no_ws(s.drop_first()));
    }
}

proof fn lemma_no_ws_trim_end(s: Seq<char>)
    ensures
        no_ws(trim_end(s)) == no_ws(s),
    decreases s.len(),
{
    if s.len() > 0 && is_ws(s.last()) {
        lemma_no_ws_trim_end(s.drop_last());
        assert(s =~= s.drop_last() + seq![s.last()]);
        lemma_no_ws_append(s.drop_last(), seq![s.last()]);
        lemma_no_ws_single(s.last());
        assert(no_ws(s.drop_last()) + Seq::<char>::empty() =~= no_ws(s.drop_last()));
    }
}

/// Trimming drops whitespace only.
pub proof fn lemma_no_ws_trim(s: Seq<char>)
    ensures
        no_ws(trim(s)) == no_ws(s),
{
    lemma_no_ws_trim_start(s);
    lemma_no_ws_trim_end(trim_start(s));
}

proof fn lemma_no_ws_split_blank_from(s: Seq<char>, i: int, cur: Seq<char>)
    requires
        0 <= i <= s.len(),
    ensures
        no_ws(concat(split_blank_from(s, i, cur))) == no_ws(cur + s.skip(i)),
    decreases s.len() - i,
{
    if i >= s.len() {
        assert(split_blank_from(s, i, cur) == seq![cur]);
        lemma_concat_single(cur);
        assert(cur + s.skip(i) =~= cur);
    } else if blank_at(s, i) {
        lemma_no_ws_split_blank_from(s, i + 2, seq![]);
        let rest = split_blank_from(s, i + 2, seq![]);
        assert(split_blank_from(s, i, cur) == seq![cur] + rest);
        lemma_concat_append(seq![cur], rest);
        lemma_concat_single(cur);
        assert(Seq::<char>::empty() + s.skip(i + 2) =~= s.skip(i + 2));
        assert(cur + s.skip(i) =~= cur + seq![s[i]] + seq![s[i + 1]] + s.skip(i + 2));
        lemma_no_ws_append(cur + seq![s[i]] + seq![s[i + 1]], s.skip(i + 2));
        lemma_no_ws_append(cur + seq![s[i]], seq![s[i + 1]]);
        lemma_no_ws_append(cur, seq![s[i]]);
        lemma_no_ws_single(s[i]);
        lemma_no_ws_single(s[i + 1]);
        lemma_no_ws_append(cur, concat(rest));
        assert(no_ws(cur) + Seq::<char>::empty() =~= no_ws(cur));
    } else {
        lemma_no_ws_split_blank_from(s, i + 1, cur.push(s[i]));
        assert(split_blank_from(s, i, cur) == split_blank_from(s, i + 1, cur.push(s[i])));
        assert(cur.push(s[i]) + s.skip(i + 1) =~= cur + s.skip(i));
    }
}

/// The paragraphs of a text, put together, hold its characters other than
/// whitespace, in order.
pub proof fn lemma_no_ws_split_paragraphs(s: Seq<char>)
    ensures
        no_ws(concat(split_paragraphs(s))) == no_ws(s),
{
    lemma_no_ws_split_blank_from(s, 0, seq![]);
    assert(Seq::<char>::empty() + s.skip(0) =~= s);
}

/// The views of a sequence of character vectors.
pub open spec fn views(v: Seq<Vec<char>>) -> Seq<Seq<char>> {
    v.map_values(|x: Vec<char>| x@)
}

pub proof fn lemma_views_push(v: Seq<Vec<char>>, x: Vec<char>)
    ensures
        views(v.push(x)) == views(v).push(x@),
{
    assert(views(v.push(x)) =~= views(v).push(x@));
}

/// `s` with every occurrence of `from` replaced by `to`, found from left to
/// right without overlap, as `str::replace` does it.
pub open spec fn replace_all(s: Seq<char>, from: Seq<char>, to: Seq<char>) -> Seq<char>
    decreases s.len(),
{
    if from.len() == 0 || s.len() == 0 {
        s
    } else if from.len() <= s.len() && s.take(from.len() as int) == from {
        to + replace_all(s.skip(from.len() as int), from, to)
    } else {
        seq![s[0]] + replace_all(s.drop_first(), from, to)
    }
}

/// Whether `p` occurs in `s` at position `i`.
pub fn occurs_at(s: &Vec<char>, i: usize, p: &Vec<char>) -> (res: bool)
    requires
        i <= s.len(),
    ensures
        res == (p.len() <= s.len() - i && s@.subrange(i as int, i + p.len()) == p@),
{
    if p.len() > s.len() - i {
        return false;
    }
    let mut k: usize = 0;
    while k < p.len()
        invariant
            k <= p.len() <= s.len() - i,
            forall|j: int| 0 <= j < k ==> s@[i + j] == p@[j],
        decreases p.len() - k,
    {
        if s[i + k] != p[k] {
            assert(s@.subrange(i as int, i + p.len())[k as int] != p@[k as int]);
            return false;
        }
        k += 1;
    }
    assert(s@.subrange(i as int, i + p.len()) =~= p@);
    true
}

/// `s` with every occurrence of `from` replaced by `to`.
pub fn replace_chars(s: &Vec<char>, from: &Vec<char>, to: &Vec<char>) -> (res: Vec<char>)
    requires
        from.len() > 0,
    ensures
        res@ == replace_all(s@, from@, to@),
{
    let mut out: Vec<char> = Vec::new();
    let mut i: usize = 0;
    assert(s@.skip(0) =~= s@);
    while i < s.len()
        invariant
            i <= s.len(),
            from.len() > 0,
            out@ + replace_all(s@.skip(i as int), from@, to@) == replace_all(s@, from@, to@),
        decreases s.len() - i,
    {
        let ghost t = s@.skip(i as int);
        if occurs_at(s, i, from) {
            proof {
                assert(t.take(from.len() as int) =~= s@.subrange(i as int, i + from.len()));
                assert(t.skip(from.len() as int) =~= s@.skip(i + from.len()));
            }
            let ghost before = out@;
            push_all(&mut out, to);
            i += from.len();
            assert(before + (to@ + replace_all(s@.skip(i as int), from@, to@)) =~= out@
                + replace_all(s@.skip(i as int), from@, to@));
        } else {
            proof {
                if from.len() <= t.len() {
                    assert(t.take(from.len() as int) =~= s@.subrange(i as int, i + from.len()));
                }
                assert(t.drop_first() =~= s@.skip(i + 1));
            }
            let ghost before = out@;
            out.push(s[i]);
            i += 1;
            assert(before + (seq![t[0]] + replace_all(s@.skip(i as int), from@, to@)) =~= out@
                + replace_all(s@.skip(i as int), from@, to@));
        }
    }
    assert(out@ + replace_all(s@.skip(i as int), from@, to@) =~= out@);
    out
}

/// `s` has a blank-line separator (two line feeds) at `i`.
pub open spec fn blank_at(s: Seq<char>, i: int) -> bool {
    0 <= i && i + 1 < s.len() && s[i] == '\n' && s[i + 1] == '\n'
}

/// The pieces of `s[i..]` split at the separator "\n\n", found left to
/// right without overlap, where `cur` is the piece read so far.
pub open spec fn split_blank_from(s: Seq<char>, i: int, cur: Seq<char>) -> Seq<Seq<char>>
    decreases s.len() - i,
{
    if i < 0 || i >= s.len() {
        seq![cur]
    } else if blank_at(s, i) {
        seq![cur] + split_blank_from(s, i + 2, seq![])
    } else {
        split_blank_from(s, i + 1, cur.push(s[i]))
    }
}

/// The pieces of `s` between the separators "\n\n", as
/// `str::split("\n\n")` gives them.
pub open spec fn split_paragraphs(s: Seq<char>) -> Seq<Seq<char>> {
    split_blank_from(s, 0, seq![])
}

/// The pieces of `s` between the separators "\n\n".
pub fn split_on_blank_lines(s: &Vec<char>) -> (res: Vec<Vec<char>>)
    ensures
        views(res@) == split_paragraphs(s@),
{
    let mut out: Vec<Vec<char>> = Vec::new();
    let mut cur: Vec<char> = Vec::new();
    let mut i: usize = 0;
    while i < s.len()
        invariant
            i <= s.len(),
            views(out@) + split_blank_from(s@, i as int, cur@) == split_paragraphs(s@),
        decreases s.len() - i,
    {
        if i + 1 < s.len() && s[i] == '\n' && s[i + 1] == '\n' {
            let ghost o = views(out@);
            let piece = cur;
            cur = Vec::new();
            proof {
                lemma_views_push(out@, piece);
            }
            out.push(piece);
            i += 2;
            assert(o + (seq![piece@] + split_blank_from(s@, i as int, cur@)) =~= views(out@)
                + split_blank_from(s@, i as int, cur@));
        } else {
            cur.push(s[i]);
            i += 1;
        }
    }
    proof {
        lemma_views_push(out@, cur);
    }
    out.push(cur);
    out
}

/// `parts` joined with `sep` between consecutive parts.
pub open spec fn join(parts: Seq<Seq<char>>, sep: Seq<char>) -> Seq<char>
    decreases parts.len(),
{
    if parts.len() == 0 {
        seq![]
    } else if parts.len() == 1 {
        parts[0]
    } else {
        join(parts.drop_last(), sep) + sep + parts.last()
    }
}

/// `parts` joined with `sep`.
pub fn join_chars(parts: &Vec<Vec<char>>, sep: &Vec<char>) -> (res: Vec<char>)
    ensures
        res@ == join(views(parts@), sep@),
{
    let mut out: Vec<char> = Vec::new();
    let mut i: usize = 0;
    while i < parts.len()
        invariant
            i <= parts.len(),
            out@ == join(views(parts@).take(i as int), sep@),
        decreases parts.len() - i,
    {
        let ghost ps = views(parts@);
        assert(ps.take(i + 1).drop_last() =~= ps.take(i as int));
        if i > 0 {
            push_all(&mut out, sep);
        }
        push_all(&mut out, &parts[i]);
        i += 1;
        assert(ps.take(i as int).last() == parts@[i - 1]@);
        assert(i == 1 ==> ps.take(i as int)[0] == parts@[0]@);
    }
    assert(views(parts@).take(parts.len() as int) =~= views(parts@));
    out
}

/// The whitespace-separated words of `s[i..]`, where `cur` is the word read
/// so far.
pub open spec fn words_from(s: Seq<char>, i: int, cur: Seq<char>) -> Seq<Seq<char>>
    decreases s.len() - i,
{
    if i < 0 || i >= s.len() {
        if cur.len() > 0 {
            seq![cur]
        } else {
            seq![]
        }
    } else if is_ws(s[i]) {
        (if cur.len() > 0 {
            seq![cur]
        } else {
            seq![]
        }) + words_from(s, i + 1, seq![])
    } else {
        words_from(s, i + 1, cur.push(s[i]))
    }
}

/// The maximal runs of non-whitespace characters of `s`, as
/// `str::split_whitespace` gives them.
pub open spec fn words(s: Seq<char>) -> Seq<Seq<char>> {
    words_from(s, 0, seq![])
}

/// The words of `s` joined by single spaces.
pub open spec fn normalize_ws(s: Seq<char>) -> Seq<char> {
    join(words(s), seq![' '])
}

/// The words of `s`.
pub fn split_words(s: &Vec<char>) -> (res: Vec<Vec<char>>)
    ensures
        views(res@) == words(s@),
{
    let mut out: Vec<Vec<char>> = Vec::new();
    let mut cur: Vec<char> = Vec::new();
    let mut i: usize = 0;
    while i < s.len()
        invariant
            i <= s.len(),
            views(out@) + words_from(s@, i as int, cur@) == words(s@),
        decreases s.len() - i,
    {
        if is_whitespace(s[i]) {
            let ghost o = views(out@);
            let ghost c = cur@;
            if cur.len() > 0 {
                let piece = cur;
                proof {
                    lemma_views_push(out@, piece);
                }
                out.push(piece);
            }
            cur = Vec::new();
            i += 1;
            assert(o + ((if c.len() > 0 {
                seq![c]
            } else {
                seq![]
            }) + words_from(s@, i as int, cur@)) =~= views(out@) + words_from(s@, i as int, cur@));
        } else {
            cur.push(s[i]);
            i += 1;
        }
    }
    if cur.len() > 0 {
        proof {
            lemma_views_push(out@, cur);
        }
        out.push(cur);
    } else {
        assert(views(out@) + seq![] =~= views(out@));
    }
    out
}

/// The words of `s` joined by single spaces.
pub fn normalize_whitespace(s: &Vec<char>) -> (res: Vec<char>)
    ensures
        res@ == normalize_ws(s@),
{
    let w = split_words(s);
    let sep = vec![' '];
    assert(sep@ =~= seq![' ']);
    join_chars(&w, &sep)
}

/// A copy of `v[from..to]`.
pub fn slice_chars(v: &Vec<char>, from: usize, to: usize) -> (res: Vec<char>)
    requires
        from <= to <= v.len(),
    ensures
        res@ == v@.subrange(from as int, to as int),
{
    let mut out: Vec<char> = Vec::new();
    let mut i = from;
    while i < to
        invariant
            from <= i <= to <= v.len(),
            out@ == v@.subrange(from as int, i as int),
        decreases to - i,
    {
        out.push(v[i]);
        i += 1;
        assert(out@ =~= v@.subrange(from as int, i as int));
    }
    out
}

/// Appends `b` to `a`.
pub fn push_all(a: &mut Vec<char>, b: &Vec<char>)
    ensures
        final(a)@ == old(a)@ + b@,
{
    let mut i: usize = 0;
    while i < b.len()
        invariant
            i <= b.len(),
            a@ == old(a)@ + b@.take(i as int),
        decreases b.len() - i,
    {
        a.push(b[i]);
        i += 1;
        assert(a@ =~= old(a)@ + b@.take(i as int));
    }
    assert(b@.take(b.len() as int) =~= b@);
}

/// `v` with leading and trailing whitespace removed.
pub fn trim_chars(v: &Vec<char>) -> (res: Vec<char>)
    ensures
        res@ == trim(v@),
{
    let n = v.len();
    let mut a: usize = 0;
    while a < n && is_whitespace(v[a])
        invariant
            a <= n == v.len(),
            forall|i: int| 0 <= i < a ==> is_ws(#[trigger] v@[i]),
        decreases n - a,
    {
        a += 1;
    }
    proof {
        lemma_trim_start_skip(v@, a as int);
    }
    let mut b: usize = n;
    while b > a && is_whitespace(v[b - 1])
        invariant
            a <= b <= n == v.len(),
            forall|i: int| b <= i < n ==> is_ws(#[trigger] v@[i]),
        decreases b,
    {
        b -= 1;
    }
    let ghost t = v@.skip(a as int);
    proof {
        assert forall|i: int| (b - a) <= i < t.len() implies is_ws(#[trigger] t[i]) by {
            assert(t[i] == v@[i + a]);
        }
        if b > a {
            assert(t[b - a - 1] == v@[b - 1]);
        }
        lemma_trim_end_take(t, (b - a) as int);
        assert(t.take((b - a) as int) =~= v@.subrange(a as int, b as int));
    }
    slice_chars(v, a, b)
}

/// The characters of `s`.
pub fn chars_of(s: &str) -> (res: Vec<char>)
    ensures
        res@ == s@,
{
    broadcast use vstd::string::group_string_axioms;
    let mut out: Vec<char> = Vec::new();
    for c in it: s.chars()
        invariant
            it.seq() == s@,
            out@ == it.seq().take(it.index() as int),
    {
        out.push(c);
        assert(out@ =~= it.seq().take(it.index() + 1));
    }
    assert(s@.take(s@.len() as int) =~= s@);
    out
}

/// Whether two character vectors are equal.
pub fn chars_equal(a: &Vec<char>, b: &Vec<char>) -> (res: bool)
    ensures
        res == (a@ == b@),
{
    if a.len() != b.len() {
        return false;
    }
    let mut i: usize = 0;
    while i < a.len()
        invariant
            i <= a.len() == b.len(),
            forall|j: int| 0 <= j < i ==> a@[j] == b@[j],
        decreases a.len() - i,
    {
        if a[i] != b[i] {
            return false;
        }
        i += 1;
    }
    assert(a@ =~= b@);
    true
}

/// Whether two strings are equal.
pub fn str_equal(a: &str, b: &str) -> (res: bool)
    ensures
        res == (a@ == b@),
{
    chars_equal(&chars_of(a), &chars_of(b))
}

/// The string made of `chars`, through std's `FromIterator<&char>` for
/// `String`, which collects the characters in order.
#[verifier::external_body]
pub(crate) fn string_of(chars: &Vec<char>) -> (res: String)
    ensures
        res@ == chars@,
{
    chars.iter().collect()
}

} // verus!
