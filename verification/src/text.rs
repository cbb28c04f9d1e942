//! Character-sequence helpers: literals as character vectors, prefix tests and
//! splitting on ASCII whitespace.

use vstd::prelude::*;
use vstd::string::*;

verus! {

/// The five characters that count as ASCII whitespace: space, tab, line feed,
/// form feed and carriage return.
pub open spec fn is_space(c: char) -> bool {
    c == ' ' || c == '\t' || c == '\n' || c == '\x0C' || c == '\r'
}

/// `s` begins with `p`.
pub open spec fn has_prefix(s: Seq<char>, p: Seq<char>) -> bool {
    p.len() <= s.len() && s.subrange(0, p.len() as int) == p
}

/// The pending word `cur`, if it is not empty, appended to `acc`.
pub open spec fn flush(acc: Seq<Seq<char>>, cur: Seq<char>) -> Seq<Seq<char>> {
    if cur.len() > 0 {
        acc.push(cur)
    } else {
        acc
    }
}

/// Left-to-right scan of `s` from position `i`: `cur` is the word being read,
/// `acc` the words already complete.
pub open spec fn scan(s: Seq<char>, i: int, cur: Seq<char>, acc: Seq<Seq<char>>) -> Seq<Seq<char>>
    decreases s.len() - i,
{
    if i < 0 || i >= s.len() {
        flush(acc, cur)
    } else if is_space(s[i]) {
        scan(s, i + 1, Seq::empty(), flush(acc, cur))
    } else {
        scan(s, i + 1, cur.push(s[i]), acc)
    }
}

/// The maximal runs of non-whitespace characters of `s`, in order.
pub open spec fn words(s: Seq<char>) -> Seq<Seq<char>> {
    scan(s, 0, Seq::empty(), Seq::empty())
}

/// The character sequences held by a vector of words.
pub open spec fn views(v: Seq<Vec<char>>) -> Seq<Seq<char>> {
    Seq::new(v.len(), |i: int| v[i]@)
}

/// A word is solid when it is non-empty and holds no whitespace.
pub open spec fn solid(w: Seq<char>) -> bool {
    w.len() > 0 && forall|k: int| 0 <= k < w.len() ==> !is_space(#[trigger] w[k])
}

/// Every member of `ws` is solid.
pub open spec fn all_solid(ws: Seq<Seq<char>>) -> bool {
    forall|j: int| 0 <= j < ws.len() ==> solid(#[trigger] ws[j])
}

/// A scan yields only solid words, provided that the completed words it
/// started with are solid and the pending word holds no whitespace.
pub proof fn lemma_scan_words_are_solid(s: Seq<char>, i: int, cur: Seq<char>, acc: Seq<Seq<char>>)
    requires
        0 <= i,
        forall|k: int| 0 <= k < cur.len() ==> !is_space(#[trigger] cur[k]),
        all_solid(acc),
    ensures
        all_solid(scan(s, i, cur, acc)),
    decreases s.len() - i,
{
    if i >= s.len() {
    } else if is_space(s[i]) {
        lemma_scan_words_are_solid(s, i + 1, Seq::empty(), flush(acc, cur));
    } else {
        lemma_scan_words_are_solid(s, i + 1, cur.push(s[i]), acc);
    }
}

/// No word of `words(s)` is empty, and none holds a whitespace character.
pub proof fn lemma_words_are_solid(s: Seq<char>)
    ensures
        all_solid(words(s)),
{
    lemma_scan_words_are_solid(s, 0, Seq::empty(), Seq::empty());
}

/// The characters of `s` from position `i` on that are not whitespace.
pub open spec fn solid_chars(s: Seq<char>, i: int) -> Seq<char>
    decreases s.len() - i,
{
    if i < 0 || i >= s.len() {
        Seq::empty()
    } else if is_space(s[i]) {
        solid_chars(s, i + 1)
    } else {
        seq![s[i]] + solid_chars(s, i + 1)
    }
}

/// The words of `ws` written one after the other.
pub open spec fn joined(ws: Seq<Seq<char>>) -> Seq<char>
    decreases ws.len(),
{
    if ws.len() == 0 {
        Seq::empty()
    } else {
        joined(ws.drop_last()) + ws.last()
    }
}

/// A scan loses and adds nothing: what it yields, joined, is what it started
/// with followed by the non-whitespace characters still to come.
pub proof fn lemma_scan_keeps_solid_chars(
    s: Seq<char>,
    i: int,
    cur: Seq<char>,
    acc: Seq<Seq<char>>,
)
    requires
        0 <= i,
    ensures
        joined(scan(s, i, cur, acc)) == joined(acc) + cur + solid_chars(s, i),
    decreases s.len() - i,
{
    let pushed = acc.push(cur);
    assert(pushed.drop_last() =~= acc);
    assert(joined(flush(acc, cur)) =~= joined(acc) + cur);
    if i >= s.len() {
        assert(joined(acc) + cur + solid_chars(s, i) =~= joined(acc) + cur);
    } else if is_space(s[i]) {
        lemma_scan_keeps_solid_chars(s, i + 1, Seq::empty(), flush(acc, cur));
        assert(joined(flush(acc, cur)) + Seq::<char>::empty() + solid_chars(s, i + 1) =~= joined(acc)
            + cur + solid_chars(s, i));
    } else {
        lemma_scan_keeps_solid_chars(s, i + 1, cur.push(s[i]), acc);
        assert(joined(acc) + cur.push(s[i]) + solid_chars(s, i + 1) =~= joined(acc) + cur
            + solid_chars(s, i));
    }
}

/// The words of `s`, joined, are `s` without its whitespace.
pub proof fn lemma_words_keep_solid_chars(s: Seq<char>)
    ensures
        joined(words(s)) == solid_chars(s, 0),
{
    lemma_scan_keeps_solid_chars(s, 0, Seq::empty(), Seq::empty());
    assert(joined(Seq::<Seq<char>>::empty()) + Seq::<char>::empty() + solid_chars(s, 0)
        =~= solid_chars(s, 0));
}

/// `w` is the run of `s` from `a` up to `b`: it is not empty, holds no
/// whitespace, and cannot be made longer, since on either side there is
/// whitespace or the end of `s`.
pub open spec fn maximal_run(s: Seq<char>, w: Seq<char>, a: int, b: int) -> bool {
    &&& 0 <= a < b <= s.len()
    &&& w == s.subrange(a, b)
    &&& forall|i: int| a <= i < b ==> !is_space(#[trigger] s[i])
    &&& (a == 0 || is_space(s[a - 1]))
    &&& (b == s.len() || is_space(s[b]))
}

/// Position `i` lies inside one of the runs that `cuts` marks.
pub open spec fn covered(cuts: Seq<(int, int)>, i: int) -> bool {
    exists|k: int| 0 <= k < cuts.len() && (#[trigger] cuts[k]).0 <= i < cuts[k].1
}

/// `ws` is `s` cut into its maximal runs up to position `upto`: `cuts` gives
/// the bounds of each word, the runs come in order with whitespace between
/// them, and every character before `upto` that is no whitespace lies in one.
pub open spec fn split_upto(s: Seq<char>, ws: Seq<Seq<char>>, cuts: Seq<(int, int)>, upto: int) -> bool {
    &&& cuts.len() == ws.len()
    &&& forall|k: int|
        0 <= k < cuts.len() ==> maximal_run(s, ws[k], (#[trigger] cuts[k]).0, cuts[k].1)
            && cuts[k].1 <= upto
    &&& forall|k: int| 0 <= k < cuts.len() - 1 ==> (#[trigger] cuts[k]).1 < cuts[k + 1].0
    &&& forall|i: int| 0 <= i < upto && !is_space(s[i]) ==> #[trigger] covered(cuts, i)
}

/// Adding the run from `a` up to `b` to a split that reached `a` gives a
/// split that reaches `upto`, where nothing but whitespace lies from `b` on.
proof fn lemma_push_run(
    s: Seq<char>,
    ws: Seq<Seq<char>>,
    cuts: Seq<(int, int)>,
    w: Seq<char>,
    a: int,
    b: int,
    upto: int,
)
    requires
        split_upto(s, ws, cuts, a),
        maximal_run(s, w, a, b),
        b <= upto <= s.len(),
        forall|i: int| b <= i < upto ==> is_space(#[trigger] s[i]),
    ensures
        split_upto(s, ws.push(w), cuts.push((a, b)), upto),
{
    let ws2 = ws.push(w);
    let cuts2 = cuts.push((a, b));
    assert forall|k: int| 0 <= k < cuts2.len() implies maximal_run(
        s,
        ws2[k],
        (#[trigger] cuts2[k]).0,
        cuts2[k].1,
    ) && cuts2[k].1 <= upto by {
        if k < cuts.len() {
            assert(cuts2[k] == cuts[k]);
            assert(ws2[k] == ws[k]);
        }
    }
    assert forall|k: int| 0 <= k < cuts2.len() - 1 implies (#[trigger] cuts2[k]).1 < cuts2[k
        + 1].0 by {
        assert(cuts2[k] == cuts[k]);
        if k + 1 < cuts.len() {
            assert(cuts2[k + 1] == cuts[k + 1]);
        } else {
            assert(maximal_run(s, ws[k], cuts[k].0, cuts[k].1));
            assert(cuts[k].1 <= a);
            assert(!is_space(s[a]));
        }
    }
    assert forall|i: int| 0 <= i < upto && !is_space(s[i]) implies #[trigger] covered(cuts2, i) by {
        if i < a {
            assert(covered(cuts, i));
            let k = choose|k: int| 0 <= k < cuts.len() && (#[trigger] cuts[k]).0 <= i < cuts[k].1;
            assert(cuts2[k] == cuts[k]);
        } else {
            assert(i < b);
            assert(cuts2[cuts.len() as int] == (a, b));
        }
    }
}

/// A scan that has cut everything before its pending word into maximal runs
/// ends with all of `s` cut into maximal runs.
proof fn lemma_scan_cuts(
    s: Seq<char>,
    i: int,
    cur: Seq<char>,
    acc: Seq<Seq<char>>,
    cuts: Seq<(int, int)>,
) -> (out: Seq<(int, int)>)
    requires
        0 <= i <= s.len(),
        cur.len() <= i,
        cur == s.subrange(i - cur.len(), i),
        forall|k: int| i - cur.len() <= k < i ==> !is_space(#[trigger] s[k]),
        i - cur.len() == 0 || is_space(s[i - cur.len() - 1]),
        split_upto(s, acc, cuts, i - cur.len()),
    ensures
        split_upto(s, scan(s, i, cur, acc), out, s.len() as int),
    decreases s.len() - i,
{
    let a = i - cur.len();
    if i >= s.len() {
        if cur.len() > 0 {
            lemma_push_run(s, acc, cuts, cur, a, i, i);
            cuts.push((a, i))
        } else {
            cuts
        }
    } else if is_space(s[i]) {
        if cur.len() > 0 {
            lemma_push_run(s, acc, cuts, cur, a, i, i + 1);
            assert(Seq::<char>::empty() =~= s.subrange(i + 1, i + 1));
            lemma_scan_cuts(s, i + 1, Seq::empty(), acc.push(cur), cuts.push((a, i)))
        } else {
            assert(Seq::<char>::empty() =~= s.subrange(i + 1, i + 1));
            assert forall|j: int| 0 <= j < i + 1 && !is_space(s[j]) implies #[trigger] covered(
                cuts,
                j,
            ) by {}
            lemma_scan_cuts(s, i + 1, Seq::empty(), acc, cuts)
        }
    } else {
        assert(cur.push(s[i]) =~= s.subrange(a, i + 1));
        lemma_scan_cuts(s, i + 1, cur.push(s[i]), acc, cuts)
    }
}

/// The words of `s` are exactly its maximal runs of non-whitespace, in order:
/// there are bounds for each word that make it a run which whitespace or an
/// end of `s` closes on both sides, the runs follow one another, and no
/// character outside them is anything but whitespace.
pub proof fn lemma_words_are_maximal_runs(s: Seq<char>) -> (cuts: Seq<(int, int)>)
    ensures
        split_upto(s, words(s), cuts, s.len() as int),
{
    assert(Seq::<char>::empty() =~= s.subrange(0, 0));
    lemma_scan_cuts(s, 0, Seq::empty(), Seq::empty(), Seq::empty())
}

pub fn is_ascii_space(c: char) -> (r: bool)
    ensures
        r == is_space(c),
{
    c == ' ' || c == '\t' || c == '\n' || c == '\x0C' || c == '\r'
}

/// The characters of `s` as a vector.
pub fn chars_of(s: &str) -> (r: Vec<char>)
    ensures
        r@ == s@,
{
    let n: usize = s.unicode_len();
    let mut out: Vec<char> = Vec::new();
    let mut i: usize = 0;
    while i < n
        invariant
            n == s@.len(),
            i <= n,
            out@ == s@.subrange(0, i as int),
        decreases n - i,
    {
        out.push(s.get_char(i));
        i = i + 1;
        assert(out@ =~= s@.subrange(0, i as int));
    }
    assert(s@.subrange(0, n as int) =~= s@);
    out
}

/// Whether `a` and `b` hold the same characters.
pub fn same_text(a: &Vec<char>, b: &Vec<char>) -> (r: bool)
    ensures
        r == (a@ == b@),
{
    if a.len() != b.len() {
        return false;
    }
    let mut i: usize = 0;
    while i < a.len()
        invariant
            a@.len() == b@.len(),
            i <= a@.len(),
            a@.subrange(0, i as int) == b@.subrange(0, i as int),
        decreases a@.len() - i,
    {
        if a[i] != b[i] {
            return false;
        }
        i = i + 1;
        assert(a@.subrange(0, i as int) =~= a@.subrange(0, i - 1).push(a@[i - 1]));
        assert(b@.subrange(0, i as int) =~= b@.subrange(0, i - 1).push(b@[i - 1]));
    }
    assert(a@ =~= a@.subrange(0, i as int));
    assert(b@ =~= b@.subrange(0, i as int));
    true
}

/// Whether `text` spells exactly `word`.
pub fn is_word(text: &Vec<char>, word: &str) -> (r: bool)
    ensures
        r == (text@ == word@),
{
    let w = chars_of(word);
    same_text(text, &w)
}

/// Whether `text` begins with `prefix`.
pub fn starts_with(text: &Vec<char>, prefix: &Vec<char>) -> (r: bool)
    ensures
        r == has_prefix(text@, prefix@),
{
    if prefix.len() > text.len() {
        return false;
    }
    let mut i: usize = 0;
    while i < prefix.len()
        invariant
            prefix@.len() <= text@.len(),
            i <= prefix@.len(),
            text@.subrange(0, i as int) == prefix@.subrange(0, i as int),
        decreases prefix@.len() - i,
    {
        if text[i] != prefix[i] {
            assert(text@.subrange(0, prefix@.len() as int)[i as int] != prefix@[i as int]);
            return false;
        }
        i = i + 1;
        assert(text@.subrange(0, i as int) =~= text@.subrange(0, i - 1).push(text@[i - 1]));
        assert(prefix@.subrange(0, i as int) =~= prefix@.subrange(0, i - 1).push(prefix@[i - 1]));
    }
    assert(prefix@ =~= prefix@.subrange(0, i as int));
    true
}

/// The tail of `text` from position `from` on.
pub fn tail_from(text: &Vec<char>, from: usize) -> (r: Vec<char>)
    requires
        from <= text@.len(),
    ensures
        r@ == text@.skip(from as int),
{
    let mut out: Vec<char> = Vec::new();
    let mut i: usize = from;
    while i < text.len()
        invariant
            from <= i <= text@.len(),
            out@ == text@.subrange(from as int, i as int),
        decreases text@.len() - i,
    {
        out.push(text[i]);
        i = i + 1;
        assert(out@ =~= text@.subrange(from as int, i as int));
    }
    assert(out@ =~= text@.skip(from as int));
    out
}

/// Splits `text` on ASCII whitespace, dropping empty pieces.
pub fn split_words(text: &Vec<char>) -> (r: Vec<Vec<char>>)
    ensures
        views(r@) == words(text@),
{
    let mut acc: Vec<Vec<char>> = Vec::new();
    let mut cur: Vec<char> = Vec::new();
    let mut i: usize = 0;
    assert(views(acc@) =~= Seq::<Seq<char>>::empty());
    while i < text.len()
        invariant
            i <= text@.len(),
            scan(text@, i as int, cur@, views(acc@)) == words(text@),
        decreases text@.len() - i,
    {
        let c = text[i];
        if is_ascii_space(c) {
            if cur.len() > 0 {
                let ghost before = views(acc@);
                acc.push(cur);
                assert(views(acc@) =~= before.push(cur@));
                cur = Vec::new();
            }
            assert(cur@ =~= Seq::<char>::empty());
        } else {
            cur.push(c);
        }
        i = i + 1;
    }
    if cur.len() > 0 {
        let ghost before = views(acc@);
        acc.push(cur);
        assert(views(acc@) =~= before.push(cur@));
    }
    acc
}

} // verus!
