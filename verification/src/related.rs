//! Related-note support: the topic tokens of a note (lower-cased words of
//! its text and path, without stop words), the `related.bin` encoding and
//! the per-note lists of related notes.

use std::collections::BTreeSet;
use vstd::prelude::*;
use crate::le::{extend_u32s_le, le_u32s};
use crate::links::{sorted_vec, split_strings, strictly_sorted};
use crate::order::{insert_sorted_str, sorted_strs, sorted_u32, sort_dedup_u32};
use crate::strs::{chars_of, ends_with, has_suffix, lemma_keys_view, slice_vec, split, str_eq, string_of};
use crate::text::strings_view;

verus! {

/// How many related edges a note keeps (its top `k`).
pub const TOP_K: usize = 8;

/// Shortest accepted token, in characters.
pub const MIN_TOKEN_CHARS: usize = 2;

/// Longest accepted token, in characters.
pub const MAX_TOKEN_CHARS: usize = 24;

// ---------------------------------------------------------------------------
// Characters
// ---------------------------------------------------------------------------
/// `char::is_alphanumeric`: the Unicode `Alphabetic` or `Numeric` property.
pub uninterp spec fn alnum(c: char) -> bool;

/// `char::to_lowercase`: the Unicode lower-case mapping of one character.
pub uninterp spec fn char_lower(c: char) -> Seq<char>;

/// Whether `c` is alphanumeric (`char::is_alphanumeric`).
#[verifier::external_body]
pub(crate) fn is_alnum(c: char) -> (r: bool)
    ensures
        r == alnum(c),
{
    c.is_alphanumeric()
}

/// The lower-case form of `c` (`char::to_lowercase`), as characters.
#[verifier::external_body]
fn lower_char(c: char) -> (r: Vec<char>)
    ensures
        r@ == char_lower(c),
{
    c.to_lowercase().collect()
}

// ---------------------------------------------------------------------------
// Words and tokens
// ---------------------------------------------------------------------------
/// Reading `s`: the finished words and the word being read. A word is a run
/// of alphanumeric characters, lower-cased; any other character ends it.
pub open spec fn words_fold(s: Seq<char>) -> (Seq<Seq<char>>, Seq<char>)
    decreases s.len(),
{
    if s.len() == 0 {
        (Seq::empty(), Seq::empty())
    } else {
        let (ws, cur) = words_fold(s.drop_last());
        let ch = s.last();
        if alnum(ch) {
            (ws, cur + char_lower(ch))
        } else {
            (ws.push(cur), Seq::empty())
        }
    }
}

/// The words of `s` (empty ones included).
pub open spec fn words(s: Seq<char>) -> Seq<Seq<char>> {
    words_fold(s).0.push(words_fold(s).1)
}

/// A word that is no topic: common English and Korean words.
pub open spec fn is_stopword(w: Seq<char>) -> bool {
    w == "the"@ || w == "and"@ || w == "for"@ || w == "with"@ || w == "this"@ ||
    w == "that"@ || w == "from"@ || w == "into"@ || w == "are"@ || w == "was"@ ||
    w == "were"@ || w == "will"@ || w == "not"@ || w == "you"@ || w == "your"@ ||
    w == "can"@ || w == "use"@ || w == "used"@ || w == "using"@ || w == "when"@ ||
    w == "then"@ || w == "than"@ || w == "there"@ || w == "here"@ || w == "they"@ ||
    w == "them"@ || w == "his"@ || w == "her"@ || w == "its"@ || w == "our"@ || w == "out"@ ||
    w == "one"@ || w == "two"@ || w == "all"@ || w == "any"@ || w == "how"@ || w == "what"@ ||
    w == "which"@ || w == "who"@ || w == "why"@ || w == "has"@ || w == "have"@ ||
    w == "had"@ || w == "but"@ || w == "also"@ || w == "more"@ || w == "most"@ ||
    w == "some"@ || w == "such"@ || w == "only"@ || w == "like"@ || w == "just"@ ||
    w == "each"@ || w == "other"@ || w == "same"@ || w == "new"@ || w == "get"@ ||
    w == "set"@ || w == "add"@ || w == "run"@ || w == "code"@ ||
    w == "그리고"@ || w == "하지만"@ || w == "그런데"@ || w == "그래서"@ || w == "이렇게"@ || w == "그렇게"@ ||
    w == "저렇게"@ || w == "때문"@ || w == "경우"@ || w == "대한"@ || w == "대해"@ || w == "통해"@ ||
    w == "위해"@ || w == "위한"@ || w == "있다"@ || w == "없다"@ || w == "있고"@ || w == "없고"@ ||
    w == "하는"@ || w == "되는"@ || w == "하고"@ || w == "되고"@ || w == "하면"@ || w == "되면"@ ||
    w == "해서"@ || w == "에서"@ || w == "으로"@ || w == "로서"@ || w == "로써"@ || w == "부터"@ ||
    w == "까지"@ || w == "보다"@ || w == "처럼"@ || w == "같이"@ || w == "등등"@ || w == "또는"@ ||
    w == "혹은"@ || w == "그것"@ || w == "이것"@ || w == "저것"@ || w == "여기"@ || w == "저기"@ ||
    w == "우리"@ || w == "너희"@ || w == "자신"@ || w == "서로"@ || w == "정도"@ || w == "다음"@ ||
    w == "이후"@ || w == "이전"@ || w == "먼저"@ || w == "나중"@ || w == "다시"@ || w == "아주"@ ||
    w == "매우"@ || w == "정말"@ || w == "너무"@ || w == "조금"@ || w == "이런"@ || w == "그런"@ ||
    w == "저런"@ || w == "어떤"@ || w == "무슨"@ || w == "각각"@ || w == "모두"@ || w == "전부"@ ||
    w == "일부"@ || w == "여러"@ || w == "많은"@ || w == "적은"@
}

/// Only ASCII digits.
pub open spec fn all_ascii_digits(w: Seq<char>) -> bool {
    forall|i: int| 0 <= i < w.len() ==> '0' <= #[trigger] w[i] <= '9'
}

/// A word kept as a token: 2 to 24 characters, not only digits, no stop word.
pub open spec fn accepted(w: Seq<char>) -> bool {
    MIN_TOKEN_CHARS <= w.len() <= MAX_TOKEN_CHARS && !all_ascii_digits(w) && !is_stopword(w)
}

/// The accepted words of `ws`, as a set.
pub open spec fn accepted_set(ws: Seq<Seq<char>>) -> Set<Seq<char>>
    decreases ws.len(),
{
    if ws.len() == 0 {
        Set::empty()
    } else if accepted(ws.last()) {
        accepted_set(ws.drop_last()).insert(ws.last())
    } else {
        accepted_set(ws.drop_last())
    }
}

/// A path piece without a `.md` suffix.
pub open spec fn stem_of(part: Seq<char>) -> Seq<char> {
    if ends_with(part, ".md"@) {
        part.take(part.len() - 3)
    } else {
        part
    }
}

/// The tokens of the stems of path pieces.
pub open spec fn parts_tokens(parts: Seq<Seq<char>>) -> Set<Seq<char>>
    decreases parts.len(),
{
    if parts.len() == 0 {
        Set::empty()
    } else {
        parts_tokens(parts.drop_last()).union(accepted_set(words(stem_of(parts.last()))))
    }
}

/// The topic tokens of a note: those of its text and of each piece of its
/// path.
pub open spec fn token_set(text: Seq<char>, path: Seq<char>) -> Set<Seq<char>> {
    accepted_set(words(text)).union(parts_tokens(split(path, '/')))
}

fn stopword(w: &str) -> (r: bool)
    ensures
        r == is_stopword(w@),
{
    str_eq(w, "the") || str_eq(w, "and") || str_eq(w, "for") || str_eq(w, "with") ||
    str_eq(w, "this") || str_eq(w, "that") || str_eq(w, "from") || str_eq(w, "into") ||
    str_eq(w, "are") || str_eq(w, "was") || str_eq(w, "were") || str_eq(w, "will") ||
    str_eq(w, "not") || str_eq(w, "you") || str_eq(w, "your") || str_eq(w, "can") ||
    str_eq(w, "use") || str_eq(w, "used") || str_eq(w, "using") || str_eq(w, "when") ||
    str_eq(w, "then") || str_eq(w, "than") || str_eq(w, "there") || str_eq(w, "here") ||
    str_eq(w, "they") || str_eq(w, "them") || str_eq(w, "his") || str_eq(w, "her") ||
    str_eq(w, "its") || str_eq(w, "our") || str_eq(w, "out") || str_eq(w, "one") ||
    str_eq(w, "two") || str_eq(w, "all") || str_eq(w, "any") || str_eq(w, "how") ||
    str_eq(w, "what") || str_eq(w, "which") || str_eq(w, "who") || str_eq(w, "why") ||
    str_eq(w, "has") || str_eq(w, "have") || str_eq(w, "had") || str_eq(w, "but") ||
    str_eq(w, "also") || str_eq(w, "more") || str_eq(w, "most") || str_eq(w, "some") ||
    str_eq(w, "such") || str_eq(w, "only") || str_eq(w, "like") || str_eq(w, "just") ||
    str_eq(w, "each") || str_eq(w, "other") || str_eq(w, "same") || str_eq(w, "new") ||
    str_eq(w, "get") || str_eq(w, "set") || str_eq(w, "add") || str_eq(w, "run") ||
    str_eq(w, "code") ||
    str_eq(w, "그리고") || str_eq(w, "하지만") || str_eq(w, "그런데") || str_eq(w, "그래서") ||
    str_eq(w, "이렇게") || str_eq(w, "그렇게") || str_eq(w, "저렇게") || str_eq(w, "때문") ||
    str_eq(w, "경우") || str_eq(w, "대한") || str_eq(w, "대해") || str_eq(w, "통해") ||
    str_eq(w, "위해") || str_eq(w, "위한") || str_eq(w, "있다") || str_eq(w, "없다") ||
    str_eq(w, "있고") || str_eq(w, "없고") || str_eq(w, "하는") || str_eq(w, "되는") ||
    str_eq(w, "하고") || str_eq(w, "되고") || str_eq(w, "하면") || str_eq(w, "되면") ||
    str_eq(w, "해서") || str_eq(w, "에서") || str_eq(w, "으로") || str_eq(w, "로서") ||
    str_eq(w, "로써") || str_eq(w, "부터") || str_eq(w, "까지") || str_eq(w, "보다") ||
    str_eq(w, "처럼") || str_eq(w, "같이") || str_eq(w, "등등") || str_eq(w, "또는") ||
    str_eq(w, "혹은") || str_eq(w, "그것") || str_eq(w, "이것") || str_eq(w, "저것") ||
    str_eq(w, "여기") || str_eq(w, "저기") || str_eq(w, "우리") || str_eq(w, "너희") ||
    str_eq(w, "자신") || str_eq(w, "서로") || str_eq(w, "정도") || str_eq(w, "다음") ||
    str_eq(w, "이후") || str_eq(w, "이전") || str_eq(w, "먼저") || str_eq(w, "나중") ||
    str_eq(w, "다시") || str_eq(w, "아주") || str_eq(w, "매우") || str_eq(w, "정말") ||
    str_eq(w, "너무") || str_eq(w, "조금") || str_eq(w, "이런") || str_eq(w, "그런") ||
    str_eq(w, "저런") || str_eq(w, "어떤") || str_eq(w, "무슨") || str_eq(w, "각각") ||
    str_eq(w, "모두") || str_eq(w, "전부") || str_eq(w, "일부") || str_eq(w, "여러") ||
    str_eq(w, "많은") || str_eq(w, "적은")
}

fn ascii_digits(w: &Vec<char>) -> (r: bool)
    ensures
        r == all_ascii_digits(w@),
{
    let mut i: usize = 0;
    while i < w.len()
        invariant
            i <= w@.len(),
            forall|k: int| 0 <= k < i ==> '0' <= #[trigger] w@[k] <= '9',
        decreases w.len() - i,
    {
        if !('0' <= w[i] && w[i] <= '9') {
            return false;
        }
        i += 1;
    }
    true
}

/// Adds the word being read to the set if it is accepted, and empties it.
fn flush(cur: &mut Vec<char>, set: &mut Vec<Vec<char>>)
    requires
        sorted_strs(old(set).deep_view()),
    ensures
        final(cur)@ == Seq::<char>::empty(),
        sorted_strs(final(set).deep_view()),
        final(set).deep_view().to_set() == (if accepted(old(cur)@) {
            old(set).deep_view().to_set().insert(old(cur)@)
        } else {
            old(set).deep_view().to_set()
        }),
{
    if cur.len() == 0 {
        *cur = Vec::new();
        return;
    }
    let n = cur.len();
    let all_digit = ascii_digits(cur);
    let word = string_of(cur);
    if n >= MIN_TOKEN_CHARS && n <= MAX_TOKEN_CHARS && !all_digit && !stopword(word.as_str()) {
        let w = cur.clone();
        proof {
            assert(w@ =~= cur@);
        }
        insert_sorted_str(set, w);
    }
    *cur = Vec::new();
}

/// Adds the accepted words of `text` to the set.
fn collect(text: &Vec<char>, set: &mut Vec<Vec<char>>)
    requires
        sorted_strs(old(set).deep_view()),
    ensures
        sorted_strs(final(set).deep_view()),
        final(set).deep_view().to_set() == old(set).deep_view().to_set().union(
            accepted_set(words(text@)),
        ),
{
    let ghost base = set.deep_view().to_set();
    let mut cur: Vec<char> = Vec::new();
    let mut i: usize = 0;
    assert(text@.take(0) =~= Seq::<char>::empty());
    assert(base.union(accepted_set(Seq::<Seq<char>>::empty())) =~= base);
    while i < text.len()
        invariant
            i <= text@.len(),
            sorted_strs(set.deep_view()),
            cur@ == words_fold(text@.take(i as int)).1,
            set.deep_view().to_set() == base.union(accepted_set(words_fold(text@.take(i as int)).0)),
        decreases text.len() - i,
    {
        let ch = text[i];
        assert(text@.take(i + 1).drop_last() =~= text@.take(i as int));
        let ghost ws = words_fold(text@.take(i as int)).0;
        if is_alnum(ch) {
            let low = lower_char(ch);
            let mut k: usize = 0;
            let ghost c0 = cur@;
            while k < low.len()
                invariant
                    k <= low@.len(),
                    cur@ == c0 + low@.take(k as int),
                decreases low.len() - k,
            {
                cur.push(low[k]);
                assert(cur@ =~= c0 + low@.take(k + 1));
                k += 1;
            }
            assert(low@.take(low@.len() as int) =~= low@);
        } else {
            let ghost c0 = cur@;
            flush(&mut cur, set);
            assert(ws.push(c0).drop_last() =~= ws);
            assert(set.deep_view().to_set() =~= base.union(accepted_set(ws.push(c0))));
        }
        i += 1;
    }
    assert(text@.take(text@.len() as int) =~= text@);
    let ghost ws = words_fold(text@).0;
    let ghost c0 = cur@;
    flush(&mut cur, set);
    assert(ws.push(c0).drop_last() =~= ws);
    assert(set.deep_view().to_set() =~= base.union(accepted_set(ws.push(c0))));
}

/// The topic tokens of a note from its text and its repository path: words
/// lower-cased, without duplicates, in increasing order.
pub fn tokens(text: &str, path: &str) -> (r: Vec<String>)
    ensures
        sorted_strs(strings_view(r@)),
        strings_view(r@).to_set() == token_set(text@, path@),
{
    let mut set: Vec<Vec<char>> = Vec::new();
    assert(set.deep_view().to_set() =~= Set::<Seq<char>>::empty());
    let tv = chars_of(text);
    collect(&tv, &mut set);
    let pv = chars_of(path);
    let parts = split_strings(&pv, '/');
    let ghost ps = strings_view(parts@);
    let ghost head = accepted_set(words(text@));
    assert(Set::<Seq<char>>::empty().union(head) =~= head);
    let md = chars_of(".md");
    proof {
        reveal_strlit(".md");
    }
    let mut k: usize = 0;
    assert(ps.take(0) =~= Seq::<Seq<char>>::empty());
    assert(head.union(parts_tokens(ps.take(0))) =~= head);
    while k < parts.len()
        invariant
            k <= parts@.len(),
            ps == strings_view(parts@),
            ps == split(path@, '/'),
            md@ == ".md"@,
            md@.len() == 3,
            sorted_strs(set.deep_view()),
            set.deep_view().to_set() == head.union(parts_tokens(ps.take(k as int))),
        decreases parts.len() - k,
    {
        let part = chars_of(parts[k].as_str());
        let stem = if has_suffix(&part, &md) {
            slice_vec(&part, 0, part.len() - 3)
        } else {
            slice_vec(&part, 0, part.len())
        };
        assert(stem@ =~= stem_of(ps[k as int]));
        let ghost before = set.deep_view().to_set();
        collect(&stem, &mut set);
        assert(ps.take(k + 1).drop_last() =~= ps.take(k as int));
        assert(set.deep_view().to_set() =~= head.union(parts_tokens(ps.take(k + 1))));
        k += 1;
    }
    assert(ps.take(ps.len() as int) =~= ps);
    let mut out: Vec<String> = Vec::new();
    let mut i: usize = 0;
    proof {
        lemma_keys_view(&set);
    }
    while i < set.len()
        invariant
            i <= set@.len(),
            set.deep_view().len() == set@.len(),
            forall|j: int| 0 <= j < set@.len() ==> #[trigger] set.deep_view()[j] == set@[j]@,
            strings_view(out@) == set.deep_view().take(i as int),
        decreases set.len() - i,
    {
        let ghost before = out@;
        let st = string_of(&set[i]);
        assert(st@ == set.deep_view()[i as int]);
        out.push(st);
        assert(out@ == before.push(st));
        assert(strings_view(out@) =~= strings_view(before).push(st@));
        assert(strings_view(out@) =~= set.deep_view().take(i + 1));
        i += 1;
    }
    assert(set.deep_view().take(set@.len() as int) =~= set.deep_view());
    out
}

// ---------------------------------------------------------------------------
// related.bin and neighbour lists
// ---------------------------------------------------------------------------
/// The pairs flattened: `[u0, v0, u1, v1, ...]`.
pub open spec fn flat_pairs(pairs: Seq<(u32, u32)>) -> Seq<u32>
    decreases pairs.len(),
{
    if pairs.len() == 0 {
        Seq::empty()
    } else {
        flat_pairs(pairs.drop_last()) + seq![pairs.last().0, pairs.last().1]
    }
}

/// The body of `related.bin`: each pair as two little-endian `u32`.
pub fn to_le_bytes(pairs: &[(u32, u32)]) -> (r: Vec<u8>)
    ensures
        r@ == le_u32s(flat_pairs(pairs@)),
{
    let mut flat: Vec<u32> = Vec::new();
    let mut i: usize = 0;
    assert(pairs@.take(0) =~= Seq::<(u32, u32)>::empty());
    while i < pairs.len()
        invariant
            i <= pairs@.len(),
            flat@ == flat_pairs(pairs@.take(i as int)),
        decreases pairs.len() - i,
    {
        let (u, v) = pairs[i];
        flat.push(u);
        flat.push(v);
        assert(pairs@.take(i + 1).drop_last() =~= pairs@.take(i as int));
        assert(flat@ =~= flat_pairs(pairs@.take(i + 1)));
        i += 1;
    }
    assert(pairs@.take(pairs@.len() as int) =~= pairs@);
    let mut out: Vec<u8> = Vec::new();
    extend_u32s_le(&mut out, &flat);
    assert(out@ =~= le_u32s(flat@));
    out
}

/// The notes paired with `i` in `pairs`, in either position.
pub open spec fn paired_with(pairs: Seq<(u32, u32)>, i: int) -> Set<u32> {
    Set::new(
        |v: u32|
            exists|k: int|
                0 <= k < pairs.len() && ((pairs[k].0 == i && pairs[k].1 == v) || (pairs[k].1 == i
                    && pairs[k].0 == v)),
    )
}

/// Every note of every pair is below `n`.
pub open spec fn pairs_below(pairs: Seq<(u32, u32)>, n: int) -> bool {
    forall|k: int| 0 <= k < pairs.len() ==> #[trigger] pairs[k].0 < n && pairs[k].1 < n
}

fn partners(i: usize, pairs: &[(u32, u32)]) -> (r: Vec<u32>)
    ensures
        r@.to_set() == paired_with(pairs@, i as int),
{
    let mut raw: Vec<u32> = Vec::new();
    let mut k: usize = 0;
    while k < pairs.len()
        invariant
            k <= pairs@.len(),
            raw@.to_set() == paired_with(pairs@.take(k as int), i as int),
        decreases pairs.len() - k,
    {
        let (u, v) = pairs[k];
        let ghost before = raw@;
        let ghost t = pairs@.take(k + 1);
        if u as usize == i {
            raw.push(v);
        }
        if v as usize == i {
            raw.push(u);
        }
        proof {
            assert forall|x: u32| #[trigger] raw@.to_set().contains(x) == paired_with(t, i as int).contains(x) by {
                if raw@.to_set().contains(x) {
                    let j = choose|j: int| 0 <= j < raw@.len() && raw@[j] == x;
                    if j < before.len() {
                        assert(before.contains(x));
                        assert(before.to_set().contains(x));
                        let m = choose|m: int| 0 <= m < k && ((pairs@.take(k as int)[m].0 == i && pairs@.take(k as int)[m].1 == x) || (pairs@.take(k as int)[m].1 == i && pairs@.take(k as int)[m].0 == x));
                        assert(t[m] == pairs@.take(k as int)[m]);
                    } else {
                        assert(t[k as int] == (u, v));
                    }
                }
                if paired_with(t, i as int).contains(x) {
                    let m = choose|m: int| 0 <= m < t.len() && ((t[m].0 == i && t[m].1 == x) || (t[m].1 == i && t[m].0 == x));
                    if m < k {
                        assert(pairs@.take(k as int)[m] == t[m]);
                        assert(paired_with(pairs@.take(k as int), i as int).contains(x));
                        assert(before.to_set().contains(x));
                        let j = choose|j: int| 0 <= j < before.len() && before[j] == x;
                        assert(raw@[j] == x);
                    } else {
                        if u as usize == i && v == x {
                            assert(raw@[before.len() as int] == x);
                        } else {
                            assert(raw@[raw@.len() - 1] == x);
                        }
                    }
                }
            }
            assert(raw@.to_set() =~= paired_with(t, i as int));
        }
        k += 1;
    }
    assert(pairs@.take(pairs@.len() as int) =~= pairs@);
    raw
}

/// For each note below `note_count`, the notes it is paired with, without
/// duplicates, in increasing order.
pub fn adjacency(note_count: usize, pairs: &[(u32, u32)]) -> (r: Vec<Vec<u32>>)
    requires
        pairs_below(pairs@, note_count as int),
    ensures
        r@.len() == note_count,
        forall|i: int|
            0 <= i < note_count ==> sorted_u32(#[trigger] r@[i]@) && r@[i]@.to_set() == paired_with(
                pairs@,
                i,
            ),
{
    let mut adj: Vec<Vec<u32>> = Vec::new();
    let mut i: usize = 0;
    while i < note_count
        invariant
            i <= note_count,
            adj@.len() == i,
            forall|j: int|
                0 <= j < i ==> sorted_u32(#[trigger] adj@[j]@) && adj@[j]@.to_set() == paired_with(
                    pairs@,
                    j,
                ),
        decreases note_count - i,
    {
        let raw = partners(i, pairs);
        let list = sort_dedup_u32(&raw);
        adj.push(list);
        i += 1;
    }
    adj
}

/// Relatedness is symmetric: `u` is listed with `v` exactly when `v` is
/// listed with `u`.
pub proof fn law_related_symmetric(pairs: Seq<(u32, u32)>, u: u32, v: u32)
    ensures
        paired_with(pairs, u as int).contains(v) <==> paired_with(pairs, v as int).contains(u),
{
    if paired_with(pairs, u as int).contains(v) {
        let k = choose|k: int|
            0 <= k < pairs.len() && ((pairs[k].0 == u && pairs[k].1 == v) || (pairs[k].1 == u
                && pairs[k].0 == v));
        assert(paired_with(pairs, v as int).contains(u));
    }
    if paired_with(pairs, v as int).contains(u) {
        let k = choose|k: int|
            0 <= k < pairs.len() && ((pairs[k].0 == v && pairs[k].1 == u) || (pairs[k].1 == v
                && pairs[k].0 == u));
        assert(paired_with(pairs, u as int).contains(v));
    }
}

proof fn lemma_le_len(s: Seq<u32>)
    ensures
        le_u32s(s).len() == 4 * s.len(),
    decreases s.len(),
{
    if s.len() > 0 {
        lemma_le_len(s.drop_last());
    }
}

proof fn lemma_flat_len(p: Seq<(u32, u32)>)
    ensures
        flat_pairs(p).len() == 2 * p.len(),
    decreases p.len(),
{
    if p.len() > 0 {
        lemma_flat_len(p.drop_last());
    }
}

/// `related.bin` holds eight bytes per pair.
pub proof fn law_related_bytes_length(pairs: Seq<(u32, u32)>)
    ensures
        le_u32s(flat_pairs(pairs)).len() == 8 * pairs.len(),
{
    lemma_flat_len(pairs);
    lemma_le_len(flat_pairs(pairs));
}

// ---------------------------------------------------------------------------
// Choosing the related edges
// ---------------------------------------------------------------------------
/// The undirected pair `{i, j}`, smaller id first.
pub open spec fn norm_pair(i: u32, j: u32) -> (u32, u32) {
    if i <= j {
        (i, j)
    } else {
        (j, i)
    }
}

/// The explicit links as undirected pairs.
pub open spec fn explicit_set(explicit: Seq<(u32, u32)>) -> Set<(u32, u32)>
    decreases explicit.len(),
{
    if explicit.len() == 0 {
        Set::empty()
    } else {
        explicit_set(explicit.drop_last()).insert(
            norm_pair(explicit.last().0, explicit.last().1),
        )
    }
}

/// The candidates that note `i` keeps from its ranked list: walking the list
/// in order, those whose pair is not already an explicit link, until `k`
/// are kept.
pub open spec fn picks(i: u32, ranked: Seq<u32>, ex: Set<(u32, u32)>, k: nat) -> Seq<u32>
    decreases ranked.len(),
{
    if ranked.len() == 0 {
        Seq::empty()
    } else {
        let p = picks(i, ranked.drop_last(), ex, k);
        if p.len() < k && !ex.contains(norm_pair(i, ranked.last())) {
            p.push(ranked.last())
        } else {
            p
        }
    }
}

/// The pairs that note `i` contributes.
pub open spec fn row_pairs(i: u32, kept: Seq<u32>) -> Set<(u32, u32)> {
    Set::new(|p: (u32, u32)| exists|m: int| 0 <= m < kept.len() && p == norm_pair(i, #[trigger] kept[m]))
}

/// All related pairs: the union over the notes of what each keeps from its
/// ranked candidates.
pub open spec fn related_set(ranked: Seq<Seq<u32>>, ex: Set<(u32, u32)>, k: nat) -> Set<(u32, u32)>
    decreases ranked.len(),
{
    if ranked.len() == 0 {
        Set::empty()
    } else {
        let i = (ranked.len() - 1) as int;
        related_set(ranked.drop_last(), ex, k).union(row_pairs(i as u32, picks(i as u32, ranked.last(), ex, k)))
    }
}

/// Each note keeps at most `k` candidates, each from its ranked list and none
/// already linked explicitly.
pub proof fn law_picks_bounded(i: u32, ranked: Seq<u32>, ex: Set<(u32, u32)>, k: nat)
    ensures
        picks(i, ranked, ex, k).len() <= k,
        picks(i, ranked, ex, k).len() <= ranked.len(),
        forall|m: int|
            0 <= m < picks(i, ranked, ex, k).len() ==> ranked.contains(
                #[trigger] picks(i, ranked, ex, k)[m],
            ) && !ex.contains(norm_pair(i, picks(i, ranked, ex, k)[m])),
    decreases ranked.len(),
{
    if ranked.len() > 0 {
        law_picks_bounded(i, ranked.drop_last(), ex, k);
        let p = picks(i, ranked.drop_last(), ex, k);
        assert forall|m: int| 0 <= m < p.len() implies ranked.contains(#[trigger] p[m]) by {
            let w = choose|w: int| 0 <= w < ranked.drop_last().len() && ranked.drop_last()[w] == p[m];
            assert(ranked[w] == p[m]);
        }
        assert(ranked[ranked.len() - 1] == ranked.last());
    }
}

/// No related pair repeats an explicit link, and each is written smaller id
/// first.
pub proof fn law_related_avoids_explicit(
    ranked: Seq<Seq<u32>>,
    ex: Set<(u32, u32)>,
    k: nat,
    p: (u32, u32),
)
    requires
        related_set(ranked, ex, k).contains(p),
    ensures
        !ex.contains(p),
        p.0 <= p.1,
    decreases ranked.len(),
{
    let i = (ranked.len() - 1) as int;
    if related_set(ranked.drop_last(), ex, k).contains(p) {
        law_related_avoids_explicit(ranked.drop_last(), ex, k, p);
    } else {
        let kept = picks(i as u32, ranked.last(), ex, k);
        law_picks_bounded(i as u32, ranked.last(), ex, k);
        let m = choose|m: int| 0 <= m < kept.len() && p == norm_pair(i as u32, #[trigger] kept[m]);
        assert(!ex.contains(norm_pair(i as u32, kept[m])));
    }
}

proof fn lemma_picks_step(i: u32, ranked: Seq<u32>, m: int, ex: Set<(u32, u32)>, k: nat)
    requires
        0 <= m < ranked.len(),
    ensures
        picks(i, ranked.take(m + 1), ex, k) == ({
            let p = picks(i, ranked.take(m), ex, k);
            if p.len() < k && !ex.contains(norm_pair(i, ranked[m])) {
                p.push(ranked[m])
            } else {
                p
            }
        }),
{
    assert(ranked.take(m + 1).drop_last() =~= ranked.take(m));
}

/// The explicit links as a set of undirected pairs.
fn explicit_btree(explicit: &[(u32, u32)]) -> (r: BTreeSet<(u32, u32)>)
    ensures
        r@ == explicit_set(explicit@),
{
    broadcast use vstd::std_specs::btree::group_btree_axioms;

    let mut ex: BTreeSet<(u32, u32)> = BTreeSet::new();
    let mut e: usize = 0;
    while e < explicit.len()
        invariant
            e <= explicit@.len(),
            ex@ == explicit_set(explicit@.take(e as int)),
        decreases explicit.len() - e,
    {
        let (a, b) = explicit[e];
        let pair = if a <= b {
            (a, b)
        } else {
            (b, a)
        };
        add_pair(&mut ex, pair);
        assert(explicit@.take(e + 1).drop_last() =~= explicit@.take(e as int));
        e += 1;
    }
    assert(explicit@.take(explicit@.len() as int) =~= explicit@);
    ex
}

/// Adds a pair to a set of pairs.
fn add_pair(set: &mut BTreeSet<(u32, u32)>, pair: (u32, u32))
    ensures
        final(set)@ == old(set)@.insert(pair),
{
    broadcast use vstd::std_specs::btree::group_btree_axioms;
    broadcast use vstd::laws_cmp::group_laws_cmp;

    assert(vstd::laws_cmp::obeys_cmp::<(u32, u32)>());
    set.insert(pair);
}

/// Whether a set of pairs holds a pair.
fn has_pair(set: &BTreeSet<(u32, u32)>, pair: (u32, u32)) -> (r: bool)
    ensures
        r == set@.contains(pair),
{
    broadcast use vstd::std_specs::btree::group_btree_axioms;
    broadcast use vstd::laws_cmp::group_laws_cmp;

    assert(vstd::laws_cmp::obeys_cmp::<(u32, u32)>());
    set.contains(&pair)
}

/// The related pairs, each once and smaller id first, in increasing order.
/// `ranked[i]` lists note `i`'s candidates best first, already cut at the
/// lowest accepted score; a candidate whose pair is an explicit link is passed
/// over, and each note keeps at most `top_k`.
pub fn select_pairs(ranked: &Vec<Vec<u32>>, explicit: &[(u32, u32)], top_k: usize) -> (r: Vec<(u32, u32)>)
    requires
        ranked@.len() <= 0x1_0000_0000,
    ensures
        strictly_sorted(r@),
        r@.to_set() == related_set(ranked.deep_view(), explicit_set(explicit@), top_k as nat),
{
    let ex = explicit_btree(explicit);
    let ghost exs = explicit_set(explicit@);
    let ghost rv = ranked.deep_view();
    let mut result: BTreeSet<(u32, u32)> = BTreeSet::new();
    let mut i: usize = 0;
    while i < ranked.len()
        invariant
            i <= ranked@.len() <= 0x1_0000_0000,
            rv == ranked.deep_view(),
            ex@ == exs,
            result@ == related_set(rv.take(i as int), exs, top_k as nat),
        decreases ranked.len() - i,
    {
        let list = &ranked[i];
        let iu = i as u32;
        let ghost before = result@;
        let mut kept: usize = 0;
        let mut m: usize = 0;
        while m < list.len()
            invariant
                m <= list@.len(),
                iu == i,
                ex@ == exs,
                list@ == rv[i as int],
                kept == picks(iu, list@.take(m as int), exs, top_k as nat).len(),
                result@ == before.union(
                    row_pairs(iu, picks(iu, list@.take(m as int), exs, top_k as nat)),
                ),
            decreases list.len() - m,
        {
            proof {
                lemma_picks_step(iu, list@, m as int, exs, top_k as nat);
                law_picks_bounded(iu, list@.take(m as int), exs, top_k as nat);
            }
            let ghost p0 = picks(iu, list@.take(m as int), exs, top_k as nat);
            if kept < top_k {
                let j = list[m];
                let pair = if iu <= j {
                    (iu, j)
                } else {
                    (j, iu)
                };
                if !has_pair(&ex, pair) {
                    add_pair(&mut result, pair);
                    kept += 1;
                    proof {
                        let p1 = p0.push(j);
                        assert(row_pairs(iu, p1) =~= row_pairs(iu, p0).insert(pair)) by {
                            assert(p1[p0.len() as int] == j);
                            assert forall|q: (u32, u32)| row_pairs(iu, p1).contains(q) implies row_pairs(iu, p0).insert(pair).contains(q) by {
                                let w = choose|w: int| 0 <= w < p1.len() && q == norm_pair(iu, #[trigger] p1[w]);
                                if w < p0.len() {
                                    assert(p1[w] == p0[w]);
                                }
                            }
                            assert forall|q: (u32, u32)| row_pairs(iu, p0).insert(pair).contains(q) implies row_pairs(iu, p1).contains(q) by {
                                if q != pair {
                                    let w = choose|w: int| 0 <= w < p0.len() && q == norm_pair(iu, #[trigger] p0[w]);
                                    assert(p1[w] == p0[w]);
                                }
                            }
                        }
                    }
                }
            }
            m += 1;
        }
        proof {
            assert(list@.take(list@.len() as int) =~= list@);
            assert(rv.take(i + 1).drop_last() =~= rv.take(i as int));
            assert(rv.take(i + 1).last() == rv[i as int]);
        }
        i += 1;
    }
    assert(rv.take(ranked@.len() as int) =~= rv);
    sorted_vec(result)
}

} // verus!
