//! Character-level helpers shared by the text modules: searching, splitting,
//! joining and trimming sequences of characters, with their specifications.

use vstd::prelude::*;
use vstd::std_specs::iter::IteratorSpec;

verus! {

/// `String::push` appends one character at the end.
pub assume_specification[ String::push ](s: &mut String, ch: char)
    ensures
        final(s)@ == old(s)@.push(ch),
;

// ---------------------------------------------------------------------------
// Searching
// ---------------------------------------------------------------------------
/// Index of the last occurrence of `c` in `s`.
pub open spec fn rfind(s: Seq<char>, c: char) -> Option<int>
    decreases s.len(),
{
    if s.len() == 0 {
        None
    } else if s.last() == c {
        Some(s.len() - 1)
    } else {
        rfind(s.drop_last(), c)
    }
}

/// Index of the first occurrence of `c` in `s`.
pub open spec fn find(s: Seq<char>, c: char) -> Option<int>
    decreases s.len(),
{
    if s.len() == 0 {
        None
    } else if s[0] == c {
        Some(0)
    } else {
        match find(s.drop_first(), c) {
            Some(i) => Some(i + 1),
            None => None,
        }
    }
}

pub proof fn lemma_rfind(s: Seq<char>, c: char)
    ensures
        match rfind(s, c) {
            Some(i) => 0 <= i < s.len() && s[i] == c && forall|j: int| i < j < s.len() ==> s[j] != c,
            None => forall|j: int| 0 <= j < s.len() ==> s[j] != c,
        },
    decreases s.len(),
{
    if s.len() > 0 && s.last() != c {
        lemma_rfind(s.drop_last(), c);
        assert forall|j: int| 0 <= j < s.len() - 1 implies s[j] == s.drop_last()[j] by {}
    }
}

pub proof fn lemma_find(s: Seq<char>, c: char)
    ensures
        match find(s, c) {
            Some(i) => 0 <= i < s.len() && s[i] == c && forall|j: int| 0 <= j < i ==> s[j] != c,
            None => forall|j: int| 0 <= j < s.len() ==> s[j] != c,
        },
    decreases s.len(),
{
    if s.len() > 0 && s[0] != c {
        lemma_find(s.drop_first(), c);
        match find(s.drop_first(), c) {
            Some(i) => {
                assert forall|j: int| 0 <= j < i + 1 implies s[j] != c by {
                    if j > 0 {
                        assert(s[j] == s.drop_first()[j - 1]);
                    }
                }
            },
            None => {
                assert forall|j: int| 0 <= j < s.len() implies s[j] != c by {
                    if j > 0 {
                        assert(s[j] == s.drop_first()[j - 1]);
                    }
                }
            },
        }
    }
}

/// Adding a character at the end moves the last occurrence only when it matches.
pub proof fn lemma_rfind_push(s: Seq<char>, ch: char, c: char)
    ensures
        rfind(s.push(ch), c) == (if ch == c {
            Some(s.len() as int)
        } else {
            rfind(s, c)
        }),
{
    assert(s.push(ch).drop_last() =~= s);
}

/// Position of the last occurrence of `c` in `s`.
pub fn rfind_char(s: &[char], c: char) -> (r: Option<usize>)
    ensures
        match r {
            Some(i) => rfind(s@, c) == Some(i as int),
            None => rfind(s@, c) is None,
        },
{
    let mut i = s.len();
    assert(s@.take(i as int) =~= s@);
    while i > 0
        invariant
            i <= s@.len(),
            rfind(s@, c) == rfind(s@.take(i as int), c),
        decreases i,
    {
        assert(s@.take(i as int).drop_last() =~= s@.take(i - 1));
        if s[i - 1] == c {
            return Some(i - 1);
        }
        i -= 1;
    }
    None
}

/// Position of the first occurrence of `c` in `s`.
pub fn find_char(s: &[char], c: char) -> (r: Option<usize>)
    ensures
        match r {
            Some(i) => find(s@, c) == Some(i as int),
            None => find(s@, c) is None,
        },
{
    let mut i: usize = 0;
    assert(s@.skip(0) =~= s@);
    while i < s.len()
        invariant
            i <= s@.len(),
            find(s@, c) == match find(s@.skip(i as int), c) {
                Some(k) => Some(k + i),
                None => None,
            },
        decreases s.len() - i,
    {
        assert(s@.skip(i as int).drop_first() =~= s@.skip(i + 1));
        if s[i] == c {
            return Some(i);
        }
        i += 1;
    }
    None
}

// ---------------------------------------------------------------------------
// Conversions
// ---------------------------------------------------------------------------
/// The characters of `s`, in order.
pub fn chars_of(s: &str) -> (v: Vec<char>)
    ensures
        v@ == s@,
{
    let mut v: Vec<char> = Vec::new();
    for c in it: s.chars()
        invariant
            it.seq() == s@,
            v@ == it.seq().take(it.index()),
    {
        v.push(c);
    }
    v
}

/// Appends the characters of `v` to `out`.
pub fn push_chars(out: &mut String, v: &[char])
    ensures
        final(out)@ == old(out)@ + v@,
{
    let ghost start = out@;
    let mut i: usize = 0;
    while i < v.len()
        invariant
            i <= v@.len(),
            out@ == start + v@.take(i as int),
        decreases v.len() - i,
    {
        out.push(v[i]);
        assert(v@.take(i + 1) =~= v@.take(i as int).push(v@[i as int]));
        i += 1;
    }
    assert(v@.take(v.len() as int) =~= v@);
}

/// A string holding exactly the characters of `v`.
pub fn string_of(v: &[char]) -> (s: String)
    ensures
        s@ == v@,
{
    let mut s = String::new();
    push_chars(&mut s, v);
    s
}

/// Whether two character sequences are equal.
pub fn chars_eq(a: &[char], b: &[char]) -> (r: bool)
    ensures
        r == (a@ == b@),
{
    if a.len() != b.len() {
        return false;
    }
    let mut i: usize = 0;
    while i < a.len()
        invariant
            a@.len() == b@.len(),
            i <= a@.len(),
            forall|j: int| 0 <= j < i ==> a@[j] == b@[j],
        decreases a.len() - i,
    {
        if a[i] != b[i] {
            return false;
        }
        i += 1;
    }
    assert(a@ =~= b@);
    true
}

/// Whether two strings hold the same characters.
pub fn str_eq(a: &str, b: &str) -> (r: bool)
    ensures
        r == (a@ == b@),
{
    let va = chars_of(a);
    let vb = chars_of(b);
    chars_eq(&va, &vb)
}

/// Whether `p` is a prefix of `s`.
pub open spec fn starts_with(s: Seq<char>, p: Seq<char>) -> bool {
    p.len() <= s.len() && s.take(p.len() as int) == p
}

/// Whether `p` is a suffix of `s`.
pub open spec fn ends_with(s: Seq<char>, p: Seq<char>) -> bool {
    p.len() <= s.len() && s.skip(s.len() - p.len()) == p
}

/// Whether `p` occurs in `s` starting at position `i`.
pub open spec fn occurs_at(s: Seq<char>, p: Seq<char>, i: int) -> bool {
    0 <= i && i + p.len() <= s.len() && s.subrange(i, i + p.len()) == p
}

pub fn has_prefix_at(s: &[char], i: usize, p: &[char]) -> (r: bool)
    requires
        i <= s@.len(),
    ensures
        r == occurs_at(s@, p@, i as int),
{
    if p.len() > s.len() - i {
        return false;
    }
    let n = s.len();
    let mut k: usize = 0;
    while k < p.len()
        invariant
            n == s@.len(),
            i + p@.len() <= n,
            k <= p@.len(),
            forall|j: int| 0 <= j < k ==> s@[i + j] == p@[j],
        decreases p.len() - k,
    {
        if s[i + k] != p[k] {
            assert(s@.subrange(i as int, i + p@.len())[k as int] != p@[k as int]);
            return false;
        }
        k += 1;
    }
    assert(s@.subrange(i as int, i + p@.len()) =~= p@);
    true
}

pub fn has_prefix(s: &[char], p: &[char]) -> (r: bool)
    ensures
        r == starts_with(s@, p@),
{
    let r = has_prefix_at(s, 0, p);
    proof {
        if p@.len() <= s@.len() {
            assert(s@.subrange(0, p@.len() as int) =~= s@.take(p@.len() as int));
        }
    }
    r
}

pub fn has_suffix(s: &[char], p: &[char]) -> (r: bool)
    ensures
        r == ends_with(s@, p@),
{
    if p.len() > s.len() {
        return false;
    }
    let r = has_prefix_at(s, s.len() - p.len(), p);
    assert(s@.subrange(s@.len() - p@.len(), s@.len() as int) =~= s@.skip(s@.len() - p@.len()));
    r
}

/// The sub-sequence `s[from..to]` as a vector.
pub fn slice_vec(s: &[char], from: usize, to: usize) -> (v: Vec<char>)
    requires
        from <= to <= s@.len(),
    ensures
        v@ == s@.subrange(from as int, to as int),
{
    let mut v: Vec<char> = Vec::new();
    let mut i = from;
    while i < to
        invariant
            from <= i <= to <= s@.len(),
            v@ == s@.subrange(from as int, i as int),
        decreases to - i,
    {
        v.push(s[i]);
        assert(s@.subrange(from as int, i + 1) =~= s@.subrange(from as int, i as int).push(
            s@[i as int],
        ));
        i += 1;
    }
    v
}

/// A copy of `s`.
pub fn copy_vec(s: &[char]) -> (v: Vec<char>)
    ensures
        v@ == s@,
{
    let v = slice_vec(s, 0, s.len());
    assert(s@.subrange(0, s@.len() as int) =~= s@);
    v
}

// ---------------------------------------------------------------------------
// Substring search
// ---------------------------------------------------------------------------
/// First position at or after `i` where `p` occurs in `s`.
pub open spec fn find_sub_from(s: Seq<char>, p: Seq<char>, i: int) -> Option<int>
    decreases s.len() + 1 - i,
{
    if i < 0 || i + p.len() > s.len() {
        None
    } else if occurs_at(s, p, i) {
        Some(i)
    } else {
        find_sub_from(s, p, i + 1)
    }
}

/// First position where `p` occurs in `s`.
pub open spec fn find_sub(s: Seq<char>, p: Seq<char>) -> Option<int> {
    find_sub_from(s, p, 0)
}

/// First position at or after `from` where `p` occurs in `s`.
pub fn find_sub_from_vec(s: &[char], p: &[char], from: usize) -> (r: Option<usize>)
    requires
        from <= s@.len(),
    ensures
        match r {
            Some(i) => find_sub_from(s@, p@, from as int) == Some(i as int),
            None => find_sub_from(s@, p@, from as int) is None,
        },
{
    let n = s.len();
    let m = p.len();
    if m > n - from {
        return None;
    }
    if m == 0 {
        assert(s@.subrange(from as int, from as int) =~= p@);
        return Some(from);
    }
    let mut i: usize = from;
    while i <= n - m
        invariant
            n == s@.len(),
            m == p@.len(),
            1 <= m <= n,
            from <= i <= n - m + 1,
            find_sub_from(s@, p@, from as int) == find_sub_from(s@, p@, i as int),
        decreases n - m + 1 - i,
    {
        if has_prefix_at(s, i, p) {
            return Some(i);
        }
        i += 1;
    }
    None
}

/// First position where `p` occurs in `s`.
pub fn find_sub_vec(s: &[char], p: &[char]) -> (r: Option<usize>)
    ensures
        match r {
            Some(i) => find_sub(s@, p@) == Some(i as int),
            None => find_sub(s@, p@) is None,
        },
{
    find_sub_from_vec(s, p, 0)
}

pub proof fn lemma_find_sub_from(s: Seq<char>, p: Seq<char>, i: int)
    ensures
        find_sub_from(s, p, i) matches Some(k) ==> occurs_at(s, p, k) && k >= i,
    decreases s.len() + 1 - i,
{
    if !(i < 0 || i + p.len() > s.len()) && !occurs_at(s, p, i) {
        lemma_find_sub_from(s, p, i + 1);
    }
}

// ---------------------------------------------------------------------------
// Splitting and joining
// ---------------------------------------------------------------------------
/// `s` cut at every `c` (as `str::split`): always at least one piece.
pub open spec fn split(s: Seq<char>, c: char) -> Seq<Seq<char>>
    decreases s.len(),
{
    match rfind(s, c) {
        None => seq![s],
        Some(i) => {
            if 0 <= i < s.len() {
                split(s.take(i), c).push(s.skip(i + 1))
            } else {
                seq![s]
            }
        },
    }
}

pub proof fn lemma_split_nonempty(s: Seq<char>, c: char)
    ensures
        split(s, c).len() >= 1,
    decreases s.len(),
{
    lemma_rfind(s, c);
    if let Some(i) = rfind(s, c) {
        lemma_split_nonempty(s.take(i), c);
    }
}

/// How `split` grows when one character is appended.
pub proof fn lemma_split_push(s: Seq<char>, ch: char, c: char)
    ensures
        split(s, c).len() >= 1,
        split(s.push(ch), c) == (if ch == c {
            split(s, c).push(Seq::<char>::empty())
        } else {
            split(s, c).drop_last().push(split(s, c).last().push(ch))
        }),
{
    lemma_split_nonempty(s, c);
    lemma_rfind_push(s, ch, c);
    lemma_rfind(s, c);
    let t = s.push(ch);
    if ch == c {
        assert(t.take(s.len() as int) =~= s);
        assert(t.skip(s.len() as int + 1) =~= Seq::<char>::empty());
    } else {
        match rfind(s, c) {
            None => {
                assert(split(t, c) =~= seq![t]);
                assert(split(s, c) =~= seq![s]);
                assert(split(s, c).drop_last().push(split(s, c).last().push(ch)) =~= seq![t]);
            },
            Some(i) => {
                assert(t.take(i) =~= s.take(i));
                assert(t.skip(i + 1) =~= s.skip(i + 1).push(ch));
                assert(split(s, c).drop_last() =~= split(s.take(i), c));
            },
        }
    }
}

/// The pieces of `segs` glued with `sep` between neighbours.
pub open spec fn join(segs: Seq<Seq<char>>, sep: Seq<char>) -> Seq<char>
    decreases segs.len(),
{
    if segs.len() == 0 {
        Seq::empty()
    } else if segs.len() == 1 {
        segs[0]
    } else {
        join(segs.drop_last(), sep) + sep + segs.last()
    }
}

/// Joins the pieces with `sep` between neighbours.
pub fn join_chars(segs: &Vec<Vec<char>>, sep: &[char]) -> (r: Vec<char>)
    ensures
        r@ == join(segs.deep_view(), sep@),
{
    let mut out: Vec<char> = Vec::new();
    let mut i: usize = 0;
    while i < segs.len()
        invariant
            i <= segs@.len(),
            out@ == join(segs.deep_view().take(i as int), sep@),
        decreases segs.len() - i,
    {
        let ghost prev = join(segs.deep_view().take(i as int), sep@);
        assert(segs.deep_view().take(i + 1).drop_last() =~= segs.deep_view().take(i as int));
        if i > 0 {
            out.extend_from_slice(sep);
        }
        out.extend_from_slice(segs[i].as_slice());
        proof {
            if i == 0 {
                assert(out@ =~= segs.deep_view().take(1)[0]);
            } else {
                assert(out@ =~= prev + sep@ + segs.deep_view()[i as int]);
            }
        }
        i += 1;
    }
    assert(segs.deep_view().take(segs.len() as int) =~= segs.deep_view());
    out
}

// ---------------------------------------------------------------------------
// Whitespace and trimming
// ---------------------------------------------------------------------------
/// The Unicode `White_Space` property (the set `char::is_whitespace` tests).
pub open spec fn is_ws(c: char) -> bool {
    let u = c as u32;
    (0x9 <= u <= 0xD) || u == 0x20 || u == 0x85 || u == 0xA0 || u == 0x1680 || (0x2000 <= u
        <= 0x200A) || u == 0x2028 || u == 0x2029 || u == 0x202F || u == 0x205F || u == 0x3000
}

pub fn char_is_ws(c: char) -> (r: bool)
    ensures
        r == is_ws(c),
{
    let u = c as u32;
    (0x9 <= u && u <= 0xD) || u == 0x20 || u == 0x85 || u == 0xA0 || u == 0x1680 || (0x2000 <= u
        && u <= 0x200A) || u == 0x2028 || u == 0x2029 || u == 0x202F || u == 0x205F || u == 0x3000
}

/// Number of leading characters of `s` that satisfy `p`.
pub open spec fn lead_count(s: Seq<char>, p: spec_fn(char) -> bool) -> nat
    decreases s.len(),
{
    if s.len() == 0 {
        0
    } else if p(s[0]) {
        1 + lead_count(s.drop_first(), p)
    } else {
        0
    }
}

/// Number of trailing characters of `s` that satisfy `p`.
pub open spec fn trail_count(s: Seq<char>, p: spec_fn(char) -> bool) -> nat
    decreases s.len(),
{
    if s.len() == 0 {
        0
    } else if p(s.last()) {
        1 + trail_count(s.drop_last(), p)
    } else {
        0
    }
}

pub proof fn lemma_lead_count_bound(s: Seq<char>, p: spec_fn(char) -> bool)
    ensures
        lead_count(s, p) <= s.len(),
    decreases s.len(),
{
    if s.len() > 0 && p(s[0]) {
        lemma_lead_count_bound(s.drop_first(), p);
    }
}

pub proof fn lemma_trail_count_bound(s: Seq<char>, p: spec_fn(char) -> bool)
    ensures
        trail_count(s, p) <= s.len(),
    decreases s.len(),
{
    if s.len() > 0 && p(s.last()) {
        lemma_trail_count_bound(s.drop_last(), p);
    }
}

/// `s` without its leading characters that satisfy `p`.
pub open spec fn trim_start_by(s: Seq<char>, p: spec_fn(char) -> bool) -> Seq<char> {
    s.skip(lead_count(s, p) as int)
}

/// `s` without its trailing characters that satisfy `p`.
pub open spec fn trim_end_by(s: Seq<char>, p: spec_fn(char) -> bool) -> Seq<char> {
    s.take(s.len() - trail_count(s, p))
}

pub open spec fn ws_pred() -> spec_fn(char) -> bool {
    |c: char| is_ws(c)
}

/// `str::trim`: no leading or trailing white space.
pub open spec fn trim(s: Seq<char>) -> Seq<char> {
    trim_end_by(trim_start_by(s, ws_pred()), ws_pred())
}

/// Index just past the leading white space of `s[from..]`.
pub fn skip_ws(s: &[char], from: usize) -> (r: usize)
    requires
        from <= s@.len(),
    ensures
        r == from + lead_count(s@.skip(from as int), ws_pred()),
        r <= s@.len(),
{
    let mut i = from;
    while i < s.len() && char_is_ws(s[i])
        invariant
            from <= i <= s@.len(),
            lead_count(s@.skip(from as int), ws_pred()) == (i - from) + lead_count(
                s@.skip(i as int),
                ws_pred(),
            ),
        decreases s.len() - i,
    {
        assert(s@.skip(i as int).drop_first() =~= s@.skip(i + 1));
        i += 1;
    }
    proof {
        r_done(s, from, i);
    }
    i
}

proof fn r_done(s: &[char], from: usize, i: usize)
    requires
        from <= i <= s@.len(),
        i == s@.len() || !is_ws(s@[i as int]),
        lead_count(s@.skip(from as int), ws_pred()) == (i - from) + lead_count(
            s@.skip(i as int),
            ws_pred(),
        ),
    ensures
        i == from + lead_count(s@.skip(from as int), ws_pred()),
{
    assert(lead_count(s@.skip(i as int), ws_pred()) == 0);
}

/// End index of `s[..to]` without its trailing white space.
pub fn skip_ws_back(s: &[char], to: usize) -> (r: usize)
    requires
        to <= s@.len(),
    ensures
        r == to - trail_count(s@.take(to as int), ws_pred()),
{
    let mut i = to;
    while i > 0 && char_is_ws(s[i - 1])
        invariant
            i <= to <= s@.len(),
            trail_count(s@.take(to as int), ws_pred()) == (to - i) + trail_count(
                s@.take(i as int),
                ws_pred(),
            ),
        decreases i,
    {
        assert(s@.take(i as int).drop_last() =~= s@.take(i - 1));
        i -= 1;
    }
    proof {
        if i > 0 {
            assert(s@.take(i as int).last() == s@[i - 1]);
        }
        assert(trail_count(s@.take(i as int), ws_pred()) == 0);
    }
    i
}

/// `s` with leading and trailing white space removed.
pub fn trim_chars(s: &[char]) -> (r: Vec<char>)
    ensures
        r@ == trim(s@),
{
    let a = skip_ws(s, 0);
    assert(s@.skip(0) =~= s@);
    let b = skip_ws_back(s, s.len());
    assert(s@.take(s@.len() as int) =~= s@);
    let ghost t = trim_start_by(s@, ws_pred());
    assert(t =~= s@.skip(a as int));
    proof {
        lemma_trail_back(s@, a as int);
    }
    if b <= a {
        let v: Vec<char> = Vec::new();
        proof {
            lemma_trail_count_bound(t, ws_pred());
        }
        assert(v@ =~= trim(s@));
        v
    } else {
        let v = slice_vec(s, a, b);
        assert(v@ =~= trim(s@));
        v
    }
}

/// Trailing white space of `s.skip(a)` is that of `s`, cut at `a`.
proof fn lemma_trail_back(s: Seq<char>, a: int)
    requires
        0 <= a <= s.len(),
    ensures
        ({
            let t = s.skip(a);
            let n = trail_count(s, ws_pred());
            let m = trail_count(t, ws_pred());
            (s.len() - n >= a ==> m == n) && (s.len() - n < a ==> m == t.len())
        }),
    decreases s.len() - a,
{
    let t = s.skip(a);
    if t.len() == 0 {
    } else if is_ws(s.last()) {
        assert(t.last() == s.last());
        assert(t.drop_last() =~= s.drop_last().skip(a));
        lemma_trail_back(s.drop_last(), a);
    } else {
        assert(t.last() == s.last());
    }
}

// ---------------------------------------------------------------------------
// Decimal numbers
// ---------------------------------------------------------------------------
/// The ASCII digit for `d` (0..10).
pub open spec fn digit_char(d: nat) -> char {
    ((48 + d) as u8) as char
}

/// The decimal representation of `n`, without leading zeros.
pub open spec fn decimal(n: nat) -> Seq<char>
    decreases n,
{
    if n < 10 {
        seq![digit_char(n)]
    } else {
        decimal(n / 10).push(digit_char(n % 10))
    }
}

/// The decimal digits of `n`.
pub fn decimal_chars(n: usize) -> (r: Vec<char>)
    ensures
        r@ == decimal(n as nat),
    decreases n,
{
    if n < 10 {
        let mut v: Vec<char> = Vec::new();
        v.push(((48 + n) as u8) as char);
        assert(v@ =~= decimal(n as nat));
        v
    } else {
        let mut v = decimal_chars(n / 10);
        v.push(((48 + n % 10) as u8) as char);
        v
    }
}

/// Appends the decimal digits of `n` to `out`.
pub fn push_decimal(out: &mut String, n: usize)
    ensures
        final(out)@ == old(out)@ + decimal(n as nat),
{
    let d = decimal_chars(n);
    push_chars(out, &d);
}

/// The decimal digits of a 64-bit `n`.
pub fn decimal_chars_u64(n: u64) -> (r: Vec<char>)
    ensures
        r@ == decimal(n as nat),
    decreases n,
{
    if n < 10 {
        let mut v: Vec<char> = Vec::new();
        v.push(((48 + n) as u8) as char);
        assert(v@ =~= decimal(n as nat));
        v
    } else {
        let mut v = decimal_chars_u64(n / 10);
        v.push(((48 + n % 10) as u8) as char);
        v
    }
}

/// Appends the decimal digits of a 64-bit `n` to `out`.
pub fn push_decimal_u64(out: &mut String, n: u64)
    ensures
        final(out)@ == old(out)@ + decimal(n as nat),
{
    let d = decimal_chars_u64(n);
    push_chars(out, &d);
}

/// Appends the characters of `s` to `out`.
pub fn push_str(out: &mut String, s: &str)
    ensures
        final(out)@ == old(out)@ + s@,
{
    out.append(s);
}

// ---------------------------------------------------------------------------
// Lower case and keyed lookup
// ---------------------------------------------------------------------------
/// What `str::to_lowercase` makes of a character sequence.
pub uninterp spec fn lowercase_of(s: Seq<char>) -> Seq<char>;

/// `str::to_lowercase` (Unicode lower case mapping); the contract names the
/// result without restating the Unicode tables.
#[verifier::external_body]
pub(crate) fn to_lowercase(s: &str) -> (r: String)
    ensures
        r@ == lowercase_of(s@),
{
    s.to_lowercase()
}

/// The lower case of a character sequence.
pub fn lowercase_vec(v: &[char]) -> (r: Vec<char>)
    ensures
        r@ == lowercase_of(v@),
{
    let s = string_of(v);
    let l = to_lowercase(s.as_str());
    chars_of(l.as_str())
}

/// Every key in lower case.
pub open spec fn lower_all(keys: Seq<Seq<char>>) -> Seq<Seq<char>> {
    keys.map_values(|k: Seq<char>| lowercase_of(k))
}

/// Index of the first key equal to `k`.
pub open spec fn index_of(keys: Seq<Seq<char>>, k: Seq<char>) -> Option<int>
    decreases keys.len(),
{
    if keys.len() == 0 {
        None
    } else {
        match index_of(keys.drop_last(), k) {
            Some(i) => Some(i),
            None => if keys.last() == k {
                Some(keys.len() - 1)
            } else {
                None
            },
        }
    }
}

/// Number of keys equal to `k`.
pub open spec fn count_of(keys: Seq<Seq<char>>, k: Seq<char>) -> nat
    decreases keys.len(),
{
    if keys.len() == 0 {
        0
    } else {
        count_of(keys.drop_last(), k) + if keys.last() == k {
            1nat
        } else {
            0nat
        }
    }
}

pub proof fn lemma_index_of(keys: Seq<Seq<char>>, k: Seq<char>)
    ensures
        match index_of(keys, k) {
            Some(i) => 0 <= i < keys.len() && keys[i] == k && forall|j: int|
                0 <= j < i ==> keys[j] != k,
            None => forall|j: int| 0 <= j < keys.len() ==> keys[j] != k,
        },
        index_of(keys, k) is Some <==> keys.contains(k),
    decreases keys.len(),
{
    if keys.len() > 0 {
        lemma_index_of(keys.drop_last(), k);
        assert forall|j: int| 0 <= j < keys.len() - 1 implies keys[j] == keys.drop_last()[j] by {}
        if keys.contains(k) {
            let j = choose|j: int| 0 <= j < keys.len() && keys[j] == k;
            if j < keys.len() - 1 {
                assert(keys.drop_last().contains(k));
            }
        }
        if keys.drop_last().contains(k) {
            let j = choose|j: int| 0 <= j < keys.len() - 1 && keys.drop_last()[j] == k;
            assert(keys[j] == k);
        }
    }
}

/// A first match inside a prefix is the first match of the whole sequence.
pub proof fn lemma_index_of_prefix(keys: Seq<Seq<char>>, k: Seq<char>, m: int)
    requires
        0 <= m <= keys.len(),
        index_of(keys.take(m), k) is Some,
    ensures
        index_of(keys, k) == index_of(keys.take(m), k),
    decreases keys.len() - m,
{
    if m == keys.len() {
        assert(keys.take(m) =~= keys);
    } else {
        assert(keys.drop_last().take(m) =~= keys.take(m));
        lemma_index_of_prefix(keys.drop_last(), k, m);
    }
}

/// The deep view of a vector of character vectors, element by element.
pub proof fn lemma_keys_view(v: &Vec<Vec<char>>)
    ensures
        v.deep_view().len() == v@.len(),
        forall|k: int| 0 <= k < v@.len() ==> #[trigger] v.deep_view()[k] == v@[k]@,
{
    assert forall|k: int| 0 <= k < v@.len() implies #[trigger] v.deep_view()[k] == v@[k]@ by {
        assert(v@[k].deep_view() =~= v@[k]@);
    }
}

/// Position of the first key equal to `k`.
pub fn find_key(keys: &Vec<Vec<char>>, k: &[char]) -> (r: Option<usize>)
    ensures
        match r {
            Some(i) => index_of(keys.deep_view(), k@) == Some(i as int),
            None => index_of(keys.deep_view(), k@) is None,
        },
{
    let ghost dv = keys.deep_view();
    let mut i: usize = 0;
    assert(dv.take(0) =~= Seq::<Seq<char>>::empty());
    while i < keys.len()
        invariant
            i <= keys@.len(),
            dv == keys.deep_view(),
            index_of(dv.take(i as int), k@) is None,
        decreases keys.len() - i,
    {
        assert(dv.take(i + 1).drop_last() =~= dv.take(i as int));
        assert(dv[i as int] =~= keys@[i as int]@);
        if chars_eq(keys[i].as_slice(), k) {
            proof {
                lemma_index_of_prefix(dv, k@, i + 1);
            }
            return Some(i);
        }
        i += 1;
    }
    assert(dv.take(i as int) =~= dv);
    None
}

/// How many keys equal `k`, and the first of them.
pub fn count_key(keys: &Vec<Vec<char>>, k: &[char]) -> (r: (usize, Option<usize>))
    ensures
        r.0 == count_of(keys.deep_view(), k@),
        match r.1 {
            Some(i) => index_of(keys.deep_view(), k@) == Some(i as int),
            None => index_of(keys.deep_view(), k@) is None,
        },
{
    let ghost dv = keys.deep_view();
    let mut i: usize = 0;
    let mut n: usize = 0;
    let mut first: Option<usize> = None;
    assert(dv.take(0) =~= Seq::<Seq<char>>::empty());
    while i < keys.len()
        invariant
            i <= keys@.len(),
            dv == keys.deep_view(),
            n == count_of(dv.take(i as int), k@),
            n <= i,
            match first {
                Some(f) => index_of(dv.take(i as int), k@) == Some(f as int),
                None => index_of(dv.take(i as int), k@) is None,
            },
        decreases keys.len() - i,
    {
        assert(dv.take(i + 1).drop_last() =~= dv.take(i as int));
        assert(dv[i as int] =~= keys@[i as int]@);
        if chars_eq(keys[i].as_slice(), k) {
            n += 1;
            if first.is_none() {
                first = Some(i);
            }
        }
        i += 1;
    }
    assert(dv.take(i as int) =~= dv);
    (n, first)
}

} // verus!
