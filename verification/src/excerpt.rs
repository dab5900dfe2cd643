//! Sidebar excerpts: the visible text of a note with its front matter, code
//! fences, headings and Markdown decoration removed, white space folded, and
//! cut to a number of characters.

use vstd::prelude::*;
use crate::links::split_strings;
use crate::strs::{
    lemma_trail_count_bound, chars_eq, chars_of, copy_vec, find_sub, find_sub_vec, has_prefix,
    lead_count, skip_ws_back, slice_vec, split, starts_with, string_of, trim, trim_chars,
    trim_end_by, trim_start_by, ws_pred,
};
use crate::text::strings_view;

verus! {

// ---------------------------------------------------------------------------
// Brackets
// ---------------------------------------------------------------------------
/// Scanning from `j` with `depth` brackets open: the first index where a
/// closing bracket brings the depth to zero.
pub open spec fn close_scan(cs: Seq<char>, j: int, depth: int, open: char, close: char) -> Option<
    int,
>
    decreases cs.len() - j,
{
    if j < 0 || j >= cs.len() {
        None
    } else if cs[j] == open {
        close_scan(cs, j + 1, depth + 1, open, close)
    } else if cs[j] == close {
        if depth - 1 == 0 {
            Some(j)
        } else {
            close_scan(cs, j + 1, depth - 1, open, close)
        }
    } else {
        close_scan(cs, j + 1, depth, open, close)
    }
}

/// The bracket that closes the first one opened at or after `start`.
pub open spec fn find_close(cs: Seq<char>, start: int, open: char, close: char) -> Option<int> {
    close_scan(cs, start, 0, open, close)
}

pub proof fn lemma_close_scan(cs: Seq<char>, j: int, depth: int, open: char, close: char)
    ensures
        close_scan(cs, j, depth, open, close) matches Some(k) ==> j <= k < cs.len(),
    decreases cs.len() - j,
{
    if 0 <= j < cs.len() {
        if cs[j] == open {
            lemma_close_scan(cs, j + 1, depth + 1, open, close);
        } else if cs[j] == close {
            lemma_close_scan(cs, j + 1, depth - 1, open, close);
        } else {
            lemma_close_scan(cs, j + 1, depth, open, close);
        }
    }
}

/// `![alt](url)` starting with the `[` at `i`: the index just past it.
pub open spec fn skip_image_at(cs: Seq<char>, i: int) -> Option<int> {
    match find_close(cs, i, '[', ']') {
        None => None,
        Some(close) => if close + 1 < cs.len() && cs[close + 1] == '(' {
            match find_close(cs, close + 1, '(', ')') {
                Some(e) => Some(e + 1),
                None => None,
            }
        } else {
            None
        },
    }
}

/// `[text](url)` or `[text][ref]` starting at the `[` at `i`: the visible
/// text and the index just past the link.
pub open spec fn link_text_at(cs: Seq<char>, i: int) -> Option<(Seq<char>, int)> {
    match find_close(cs, i, '[', ']') {
        None => None,
        Some(close) => {
            let text = cs.subrange(i + 1, close);
            if close + 1 < cs.len() && cs[close + 1] == '(' {
                match find_close(cs, close + 1, '(', ')') {
                    Some(e) => Some((text, e + 1)),
                    None => None,
                }
            } else if close + 1 < cs.len() && cs[close + 1] == '[' {
                match find_close(cs, close + 1, '[', ']') {
                    Some(e) => Some((text, e + 1)),
                    None => None,
                }
            } else {
                None
            }
        },
    }
}

/// First index at or after `i` holding `c`.
pub open spec fn first_from(cs: Seq<char>, i: int, c: char) -> Option<int>
    decreases cs.len() - i,
{
    if i < 0 || i >= cs.len() {
        None
    } else if cs[i] == c {
        Some(i)
    } else {
        first_from(cs, i + 1, c)
    }
}

pub proof fn lemma_first_from(cs: Seq<char>, i: int, c: char)
    ensures
        first_from(cs, i, c) matches Some(k) ==> i <= k < cs.len() && cs[k] == c,
    decreases cs.len() - i,
{
    if 0 <= i < cs.len() && cs[i] != c {
        lemma_first_from(cs, i + 1, c);
    }
}

pub proof fn lemma_skip_image(cs: Seq<char>, i: int)
    ensures
        skip_image_at(cs, i) matches Some(n) ==> i + 2 <= n <= cs.len(),
{
    lemma_close_scan(cs, i, 0, '[', ']');
    if let Some(close) = find_close(cs, i, '[', ']') {
        lemma_close_scan(cs, close + 1, 0, '(', ')');
    }
}

pub proof fn lemma_link_text(cs: Seq<char>, i: int)
    ensures
        link_text_at(cs, i) matches Some((t, n)) ==> i + 2 <= n <= cs.len(),
{
    lemma_close_scan(cs, i, 0, '[', ']');
    if let Some(close) = find_close(cs, i, '[', ']') {
        lemma_close_scan(cs, close + 1, 0, '(', ')');
        lemma_close_scan(cs, close + 1, 0, '[', ']');
    }
}

/// Emphasis, code, strike-through, quote and table marks, dropped.
pub open spec fn is_markup(c: char) -> bool {
    c == '*' || c == '_' || c == '`' || c == '~' || c == '>' || c == '|'
}

/// The visible characters of `cs[i..]`: images and HTML tags dropped, links
/// reduced to their text, markup characters removed.
pub open spec fn visible_from(cs: Seq<char>, i: int) -> Seq<char>
    decreases cs.len() - i,
{
    if i < 0 || i >= cs.len() {
        Seq::empty()
    } else {
        let c = cs[i];
        if c == '!' && i + 1 < cs.len() && cs[i + 1] == '[' && skip_image_at(cs, i + 1) is Some {
            proof {
                lemma_skip_image(cs, i + 1);
            }
            visible_from(cs, skip_image_at(cs, i + 1)->0)
        } else if c == '[' && link_text_at(cs, i) is Some {
            proof {
                lemma_link_text(cs, i);
            }
            let (text, next) = link_text_at(cs, i)->0;
            text + visible_from(cs, next)
        } else if c == '<' && first_from(cs, i, '>') is Some {
            proof {
                lemma_first_from(cs, i, '>');
            }
            visible_from(cs, first_from(cs, i, '>')->0 + 1)
        } else if is_markup(c) {
            visible_from(cs, i + 1)
        } else {
            seq![c] + visible_from(cs, i + 1)
        }
    }
}

fn find_close_vec(cs: &Vec<char>, start: usize, open: char, close: char) -> (r: Option<usize>)
    ensures
        match r {
            Some(k) => find_close(cs@, start as int, open, close) == Some(k as int),
            None => find_close(cs@, start as int, open, close) is None,
        },
        match r {
            Some(k) => start <= k < cs@.len(),
            None => true,
        },
{
    if start >= cs.len() {
        return None;
    }
    let mut ups: usize = 0;
    let mut downs: usize = 0;
    let mut j: usize = start;
    while j < cs.len()
        invariant
            start <= j <= cs@.len(),
            ups + downs <= j - start,
            find_close(cs@, start as int, open, close) == close_scan(
                cs@,
                j as int,
                ups - downs,
                open,
                close,
            ),
        decreases cs.len() - j,
    {
        let ch = cs[j];
        if ch == open {
            ups += 1;
        } else if ch == close {
            downs += 1;
            if ups == downs {
                return Some(j);
            }
        }
        j += 1;
    }
    None
}

fn first_from_vec(cs: &Vec<char>, i: usize, c: char) -> (r: Option<usize>)
    ensures
        match r {
            Some(k) => first_from(cs@, i as int, c) == Some(k as int),
            None => first_from(cs@, i as int, c) is None,
        },
{
    let mut j = i;
    while j < cs.len()
        invariant
            i <= j,
            first_from(cs@, i as int, c) == first_from(cs@, j as int, c),
        decreases cs.len() - j,
    {
        if cs[j] == c {
            return Some(j);
        }
        j += 1;
    }
    None
}

fn skip_image_vec(cs: &Vec<char>, i: usize) -> (r: Option<usize>)
    ensures
        match r {
            Some(k) => skip_image_at(cs@, i as int) == Some(k as int),
            None => skip_image_at(cs@, i as int) is None,
        },
{
    proof {
        lemma_close_scan(cs@, i as int, 0, '[', ']');
    }
    let found = find_close_vec(cs, i, '[', ']');
    if found.is_none() {
        return None;
    }
    let close = found.unwrap();
    let n = cs.len();
    if close + 1 < n && cs[close + 1] == '(' {
        proof {
            lemma_close_scan(cs@, close + 1, 0, '(', ')');
        }
        match find_close_vec(cs, close + 1, '(', ')') {
            Some(e) => Some(e + 1),
            None => None,
        }
    } else {
        None
    }
}

fn link_text_vec(cs: &Vec<char>, i: usize) -> (r: Option<(Vec<char>, usize)>)
    requires
        i < cs@.len(),
        cs@[i as int] == '[',
    ensures
        match r {
            Some((t, k)) => link_text_at(cs@, i as int) == Some((t@, k as int)),
            None => link_text_at(cs@, i as int) is None,
        },
{
    proof {
        lemma_close_scan(cs@, i as int, 0, '[', ']');
        if let Some(k) = find_close(cs@, i as int, '[', ']') {
            assert(cs@[i as int] != ']');
        }
    }
    let found = find_close_vec(cs, i, '[', ']');
    if found.is_none() {
        return None;
    }
    let close = found.unwrap();
    let n = cs.len();
    proof {
        if close == i {
            assert(close_scan(cs@, i as int, 0, '[', ']') == close_scan(cs@, i + 1, 1, '[', ']'));
            lemma_close_scan(cs@, i + 1, 1, '[', ']');
        }
    }
    let text = slice_vec(cs, i + 1, close);
    if close + 1 < n && cs[close + 1] == '(' {
        proof {
            lemma_close_scan(cs@, close + 1, 0, '(', ')');
        }
        match find_close_vec(cs, close + 1, '(', ')') {
            Some(e) => Some((text, e + 1)),
            None => None,
        }
    } else if close + 1 < n && cs[close + 1] == '[' {
        proof {
            lemma_close_scan(cs@, close + 1, 0, '[', ']');
        }
        match find_close_vec(cs, close + 1, '[', ']') {
            Some(e) => Some((text, e + 1)),
            None => None,
        }
    } else {
        None
    }
}

fn markup(c: char) -> (r: bool)
    ensures
        r == is_markup(c),
{
    c == '*' || c == '_' || c == '`' || c == '~' || c == '>' || c == '|'
}

/// The visible characters of a line (before white space is folded).
fn visible(cs: &Vec<char>) -> (r: Vec<char>)
    ensures
        r@ == visible_from(cs@, 0),
{
    let mut out: Vec<char> = Vec::new();
    let mut i: usize = 0;
    while i < cs.len()
        invariant
            i <= cs@.len(),
            out@ + visible_from(cs@, i as int) == visible_from(cs@, 0),
        decreases cs.len() - i,
    {
        let c = cs[i];
        let ghost before = out@;
        if c == '!' && i + 1 < cs.len() && cs[i + 1] == '[' {
            proof {
                lemma_skip_image(cs@, i + 1);
            }
            if let Some(next) = skip_image_vec(cs, i + 1) {
                i = next;
                continue;
            }
        }
        if c == '[' {
            proof {
                lemma_link_text(cs@, i as int);
            }
            if let Some((text, next)) = link_text_vec(cs, i) {
                let ghost tv = text@;
                let mut k: usize = 0;
                while k < text.len()
                    invariant
                        k <= text@.len(),
                        out@ == before + text@.take(k as int),
                    decreases text.len() - k,
                {
                    out.push(text[k]);
                    assert(out@ =~= before + text@.take(k + 1));
                    k += 1;
                }
                assert(text@.take(text@.len() as int) =~= text@);
                assert(out@ + visible_from(cs@, next as int) =~= before + visible_from(
                    cs@,
                    i as int,
                ));
                i = next;
                continue;
            }
        }
        if c == '<' {
            proof {
                lemma_first_from(cs@, i as int, '>');
            }
            if let Some(close) = first_from_vec(cs, i, '>') {
                i = close + 1;
                continue;
            }
        }
        if markup(c) {
            i += 1;
            continue;
        }
        out.push(c);
        assert(out@ + visible_from(cs@, i + 1) =~= before + visible_from(cs@, i as int));
        i += 1;
    }
    assert(out@ =~= out@ + visible_from(cs@, i as int));
    out
}

// ---------------------------------------------------------------------------
// Cleaning one line
// ---------------------------------------------------------------------------
/// Runs of spaces and tabs folded into one space, with none at the start;
/// with the text, whether the last character read was a blank.
pub open spec fn fold_blanks(s: Seq<char>) -> (Seq<char>, bool)
    decreases s.len(),
{
    if s.len() == 0 {
        (Seq::empty(), false)
    } else {
        let (t, prev) = fold_blanks(s.drop_last());
        let ch = s.last();
        if ch == ' ' || ch == '\t' {
            (
                if !prev && t.len() > 0 {
                    t.push(' ')
                } else {
                    t
                },
                true,
            )
        } else {
            (t.push(ch), false)
        }
    }
}

/// The characters trimmed from the start of a line together with white space.
pub enum CharClass {
    /// The byte order mark.
    Bom,
    /// Carriage return and line feed.
    LineBreak,
    /// List bullets: `-`, `•`, `·`.
    Bullet,
}

pub open spec fn class_has(k: CharClass, c: char) -> bool {
    match k {
        CharClass::Bom => c == '\u{feff}',
        CharClass::LineBreak => c == '\r' || c == '\n',
        CharClass::Bullet => c == '-' || c == '•' || c == '·',
    }
}

pub open spec fn class_pred(k: CharClass) -> spec_fn(char) -> bool {
    |c: char| class_has(k, c)
}

fn in_class(k: &CharClass, c: char) -> (r: bool)
    ensures
        r == class_has(*k, c),
{
    match k {
        CharClass::Bom => c == '\u{feff}',
        CharClass::LineBreak => c == '\r' || c == '\n',
        CharClass::Bullet => c == '-' || c == '•' || c == '·',
    }
}

/// Index just past the characters of class `k` that lead `s[from..]`.
fn skip_class(s: &[char], from: usize, k: CharClass) -> (r: usize)
    requires
        from <= s@.len(),
    ensures
        r == from + lead_count(s@.skip(from as int), class_pred(k)),
        r <= s@.len(),
{
    let mut i = from;
    while i < s.len() && in_class(&k, s[i])
        invariant
            from <= i <= s@.len(),
            lead_count(s@.skip(from as int), class_pred(k)) == (i - from) + lead_count(
                s@.skip(i as int),
                class_pred(k),
            ),
        decreases s.len() - i,
    {
        assert(s@.skip(i as int).drop_first() =~= s@.skip(i + 1));
        i += 1;
    }
    assert(lead_count(s@.skip(i as int), class_pred(k)) == 0);
    i
}

/// `s` without the leading characters of class `k`.
fn trim_class(s: &[char], k: CharClass) -> (r: Vec<char>)
    ensures
        r@ == trim_start_by(s@, class_pred(k)),
{
    let a = skip_class(s, 0, k);
    assert(s@.skip(0) =~= s@);
    let r = slice_vec(s, a, s.len());
    assert(r@ =~= s@.skip(a as int));
    r
}

/// A cleaned line: visible characters, blanks folded, white space and a
/// leading list bullet trimmed.
pub open spec fn clean_line(line: Seq<char>) -> Seq<char> {
    trim(trim_start_by(trim(fold_blanks(visible_from(line, 0)).0), class_pred(CharClass::Bullet)))
}

fn fold_blanks_vec(s: &Vec<char>) -> (r: Vec<char>)
    ensures
        r@ == fold_blanks(s@).0,
{
    let mut out: Vec<char> = Vec::new();
    let mut prev = false;
    let mut i: usize = 0;
    assert(s@.take(0) =~= Seq::<char>::empty());
    while i < s.len()
        invariant
            i <= s@.len(),
            fold_blanks(s@.take(i as int)) == (out@, prev),
        decreases s.len() - i,
    {
        assert(s@.take(i + 1).drop_last() =~= s@.take(i as int));
        let ch = s[i];
        if ch == ' ' || ch == '\t' {
            if !prev && out.len() > 0 {
                out.push(' ');
            }
            prev = true;
        } else {
            out.push(ch);
            prev = false;
        }
        i += 1;
    }
    assert(s@.take(s@.len() as int) =~= s@);
    out
}

fn clean_inline(line: &Vec<char>) -> (r: Vec<char>)
    ensures
        r@ == clean_line(line@),
{
    let v = visible(line);
    let f = fold_blanks_vec(&v);
    let t = trim_chars(&f);
    let u = trim_class(&t, CharClass::Bullet);
    trim_chars(&u)
}

// ---------------------------------------------------------------------------
// Front matter and truncation
// ---------------------------------------------------------------------------
/// The text after a leading `---` front-matter block (up to the next line
/// that starts with `---`, then any line breaks), byte-order marks removed
/// from the start. Without a closing line the text is kept.
pub open spec fn front_stripped(s: Seq<char>) -> Seq<char> {
    let t = trim_start_by(s, class_pred(CharClass::Bom));
    if starts_with(t, "---"@) {
        let rest = t.skip(3);
        match find_sub(rest, "\n---"@) {
            Some(idx) => trim_start_by(rest.skip(idx + 4), class_pred(CharClass::LineBreak)),
            None => t,
        }
    } else {
        t
    }
}

fn strip_front_matter(s: &Vec<char>) -> (r: Vec<char>)
    ensures
        r@ == front_stripped(s@),
{
    let t = trim_class(s, CharClass::Bom);
    let dashes = chars_of("---");
    proof {
        reveal_strlit("---");
        reveal_strlit("\n---");
    }
    if has_prefix(&t, &dashes) {
        let rest = slice_vec(&t, 3, t.len());
        assert(rest@ =~= t@.skip(3));
        let marker = chars_of("\n---");
        match find_sub_vec(&rest, &marker) {
            Some(idx) => {
                proof {
                    crate::strs::lemma_find_sub_from(rest@, marker@, 0);
                }
                let after = slice_vec(&rest, idx + 4, rest.len());
                assert(after@ =~= rest@.skip(idx + 4));
                trim_class(&after, CharClass::LineBreak)
            },
            None => t,
        }
    } else {
        t
    }
}

/// At most `max` characters: a longer text is cut, stripped of trailing
/// white space, and ends in `…`.
pub open spec fn truncated(s: Seq<char>, max: int) -> Seq<char> {
    if s.len() <= max {
        s
    } else {
        trim_end_by(s.take(max), ws_pred()).push('…')
    }
}

fn truncate_chars(s: &Vec<char>, max: usize) -> (r: Vec<char>)
    ensures
        r@ == truncated(s@, max as int),
{
    if s.len() <= max {
        return copy_vec(s);
    }
    let b = skip_ws_back(s, max);
    let mut r = slice_vec(s, 0, b);
    assert(r@ =~= trim_end_by(s@.take(max as int), ws_pred()));
    r.push('…');
    r
}

// ---------------------------------------------------------------------------
// The excerpt
// ---------------------------------------------------------------------------
/// A trimmed line that opens or closes a code fence.
pub open spec fn is_fence_text(t: Seq<char>) -> bool {
    starts_with(t, "```"@) || starts_with(t, "~~~"@)
}

/// A trimmed line that never contributes: blank, a heading, a line break
/// tag, an HTML comment or a rule.
pub open spec fn is_skipped_text(t: Seq<char>) -> bool {
    t.len() == 0 || t[0] == '#' || starts_with(t, "<br"@) || starts_with(t, "<!--"@) || t
        == "---"@
}

/// One line read into the excerpt state (text, inside a fence, full).
pub open spec fn excerpt_step(st: (Seq<char>, bool, bool), line: Seq<char>, max: int) -> (
    Seq<char>,
    bool,
    bool,
) {
    let t = trim(line);
    if is_fence_text(t) {
        (st.0, !st.1, st.2)
    } else if st.1 || is_skipped_text(t) {
        st
    } else {
        let c = clean_line(t);
        if c.len() == 0 {
            st
        } else {
            let o = if st.0.len() > 0 {
                st.0 + seq![' '] + c
            } else {
                c
            };
            (o, st.1, o.len() >= max)
        }
    }
}

/// The state after reading `lines`; reading stops once the text is full.
pub open spec fn excerpt_fold(lines: Seq<Seq<char>>, max: int) -> (Seq<char>, bool, bool)
    decreases lines.len(),
{
    if lines.len() == 0 {
        (Seq::empty(), false, false)
    } else {
        let st = excerpt_fold(lines.drop_last(), max);
        if st.2 {
            st
        } else {
            excerpt_step(st, lines.last(), max)
        }
    }
}

/// The excerpt of a note's text: the cleaned lines after the front matter,
/// outside code fences, joined by spaces and cut to `max` characters. (Each
/// line is trimmed, so a line's trailing `\r` and an empty last line do not
/// matter.)
pub open spec fn excerpt_of(content: Seq<char>, max: int) -> Seq<char> {
    truncated(excerpt_fold(split(front_stripped(content), '\n'), max).0, max)
}

proof fn lemma_full_stays(lines: Seq<Seq<char>>, max: int, k: int, m: int)
    requires
        0 <= k <= m <= lines.len(),
        excerpt_fold(lines.take(k), max).2,
    ensures
        excerpt_fold(lines.take(m), max) == excerpt_fold(lines.take(k), max),
    decreases m - k,
{
    if m > k {
        lemma_full_stays(lines, max, k, m - 1);
        assert(lines.take(m).drop_last() =~= lines.take(m - 1));
    }
}

fn fence_text(t: &Vec<char>) -> (r: bool)
    ensures
        r == is_fence_text(t@),
{
    let ticks = chars_of("```");
    let tildes = chars_of("~~~");
    has_prefix(t, &ticks) || has_prefix(t, &tildes)
}

fn skipped_text(t: &Vec<char>) -> (r: bool)
    ensures
        r == is_skipped_text(t@),
{
    let br = chars_of("<br");
    let comment = chars_of("<!--");
    let rule = chars_of("---");
    t.len() == 0 || t[0] == '#' || has_prefix(t, &br) || has_prefix(t, &comment) || chars_eq(
        t,
        &rule,
    )
}

fn append_chars(out: &mut Vec<char>, s: &Vec<char>)
    ensures
        final(out)@ == old(out)@ + s@,
{
    let mut k: usize = 0;
    while k < s.len()
        invariant
            k <= s@.len(),
            out@ == old(out)@ + s@.take(k as int),
        decreases s.len() - k,
    {
        out.push(s[k]);
        assert(out@ =~= old(out)@ + s@.take(k + 1));
        k += 1;
    }
    assert(s@.take(s@.len() as int) =~= s@);
}

/// A sidebar excerpt of a note: front matter, code fences, headings and
/// Markdown decoration removed, white space folded, at most `max_chars`
/// characters (a cut text ends in `…`).
pub fn excerpt(content: &str, max_chars: usize) -> (r: String)
    ensures
        r@ == excerpt_of(content@, max_chars as int),
{
    let cs = chars_of(content);
    let body = strip_front_matter(&cs);
    let lines = split_strings(&body, '\n');
    let ghost ls = strings_view(lines@);
    let ghost max = max_chars as int;
    let mut out: Vec<char> = Vec::new();
    let mut fence = false;
    let mut full = false;
    let mut k: usize = 0;
    assert(ls.take(0) =~= Seq::<Seq<char>>::empty());
    while k < lines.len() && !full
        invariant
            k <= lines@.len(),
            max == max_chars as int,
            ls == strings_view(lines@),
            ls == split(body@, '\n'),
            excerpt_fold(ls.take(k as int), max) == (out@, fence, full),
        decreases lines.len() - k,
    {
        assert(ls.take(k + 1).drop_last() =~= ls.take(k as int));
        assert(ls.take(k + 1).last() == lines@[k as int]@);
        let line = chars_of(lines[k].as_str());
        let t = trim_chars(&line);
        let ghost st = (out@, fence, full);
        assert(t@ == trim(ls.take(k + 1).last()));
        if fence_text(&t) {
            fence = !fence;
        } else if fence || skipped_text(&t) {
        } else {
            let c = clean_inline(&t);
            if c.len() > 0 {
                let ghost o = if st.0.len() > 0 {
                    st.0 + seq![' '] + c@
                } else {
                    c@
                };
                if out.len() > 0 {
                    out.push(' ');
                }
                append_chars(&mut out, &c);
                assert(out@ =~= o);
                full = out.len() >= max_chars;
            }
        }
        assert(excerpt_step(st, ls.take(k + 1).last(), max) == (out@, fence, full));
        k += 1;
    }
    proof {
        if full {
            lemma_full_stays(ls, max, k as int, ls.len() as int);
        }
        assert(ls.take(ls.len() as int) =~= ls);
    }
    let t = truncate_chars(&out, max_chars);
    string_of(&t)
}

/// An excerpt never exceeds its limit by more than the closing `…`: it has
/// at most `max + 1` characters, and a text within the limit is kept whole.
pub proof fn law_excerpt_length(content: Seq<char>, max: int)
    requires
        max >= 0,
    ensures
        excerpt_of(content, max).len() <= max + 1,
        excerpt_fold(split(front_stripped(content), '\n'), max).0.len() <= max ==> excerpt_of(
            content,
            max,
        ) == excerpt_fold(split(front_stripped(content), '\n'), max).0,
{
    let s = excerpt_fold(split(front_stripped(content), '\n'), max).0;
    if s.len() > max {
        lemma_trail_count_bound(s.take(max), ws_pred());
    }
}

} // verus!
