//! A minimal JSON writer: the same bytes for the same input, UTF-8 kept as
//! it is, only control characters, quotes and backslashes escaped.

use vstd::prelude::*;
use vstd::string::StringSliceAdditionalSpecFns;
use crate::strs::{chars_of, join, push_str, string_of};
use crate::text::strings_view;

verus! {

/// A lower-case hexadecimal digit.
pub open spec fn hex_lower(d: nat) -> char {
    if d < 10 {
        ((48 + d) as u8) as char
    } else {
        ((87 + d) as u8) as char
    }
}

/// The JSON escape of one character.
pub open spec fn escape_char(c: char) -> Seq<char> {
    if c == '"' {
        seq!['\\', '"']
    } else if c == '\\' {
        seq!['\\', '\\']
    } else if c == '\n' {
        seq!['\\', 'n']
    } else if c == '\r' {
        seq!['\\', 'r']
    } else if c == '\t' {
        seq!['\\', 't']
    } else if c == '\u{08}' {
        seq!['\\', 'b']
    } else if c == '\u{0c}' {
        seq!['\\', 'f']
    } else if (c as u32) < 0x20 {
        seq!['\\', 'u', '0', '0', hex_lower((c as u32 / 16) as nat), hex_lower((c as u32 % 16) as nat)]
    } else {
        seq![c]
    }
}

/// `escape_char` over a whole sequence.
pub open spec fn escape_chars(s: Seq<char>) -> Seq<char>
    decreases s.len(),
{
    if s.len() == 0 {
        Seq::empty()
    } else {
        escape_chars(s.drop_last()) + escape_char(s.last())
    }
}

fn hex_digit(d: u32) -> (r: char)
    requires
        d < 16,
    ensures
        r == hex_lower(d as nat),
{
    if d < 10 {
        ((48 + d) as u8) as char
    } else {
        ((87 + d) as u8) as char
    }
}

fn push2(out: &mut Vec<char>, a: char, b: char)
    ensures
        final(out)@ == old(out)@ + seq![a, b],
{
    out.push(a);
    out.push(b);
    assert(final(out)@ =~= old(out)@ + seq![a, b]);
}

fn escape_one(out: &mut Vec<char>, c: char)
    ensures
        final(out)@ == old(out)@ + escape_char(c),
{
    if c == '"' {
        push2(out, '\\', '"');
    } else if c == '\\' {
        push2(out, '\\', '\\');
    } else if c == '\n' {
        push2(out, '\\', 'n');
    } else if c == '\r' {
        push2(out, '\\', 'r');
    } else if c == '\t' {
        push2(out, '\\', 't');
    } else if c == '\u{08}' {
        push2(out, '\\', 'b');
    } else if c == '\u{0c}' {
        push2(out, '\\', 'f');
    } else if (c as u32) < 0x20 {
        let u = c as u32;
        push2(out, '\\', 'u');
        push2(out, '0', '0');
        push2(out, hex_digit(u / 16), hex_digit(u % 16));
        assert(final(out)@ =~= old(out)@ + escape_char(c));
    } else {
        out.push(c);
        assert(final(out)@ =~= old(out)@ + seq![c]);
    }
}

/// Escapes a string for use inside a JSON string literal.
pub fn escape(s: &str) -> (r: String)
    ensures
        r@ == escape_chars(s@),
{
    let v = chars_of(s);
    let mut out: Vec<char> = Vec::new();
    let mut i: usize = 0;
    assert(v@.take(0) =~= Seq::<char>::empty());
    while i < v.len()
        invariant
            i <= v@.len(),
            out@ == escape_chars(v@.take(i as int)),
        decreases v.len() - i,
    {
        assert(v@.take(i + 1).drop_last() =~= v@.take(i as int));
        escape_one(&mut out, v[i]);
        i += 1;
    }
    assert(v@.take(v@.len() as int) =~= v@);
    string_of(&out)
}

/// The JSON string literal (quotes included) of a string.
pub open spec fn json_string(s: Seq<char>) -> Seq<char> {
    seq!['"'] + escape_chars(s) + seq!['"']
}

/// The JSON string literal (quotes included) of a string.
pub fn string(s: &str) -> (r: String)
    ensures
        r@ == json_string(s@),
{
    let mut out = String::new();
    out.push('"');
    let e = escape(s);
    push_str(&mut out, e.as_str());
    out.push('"');
    assert(out@ =~= json_string(s@));
    out
}

/// A builder for JSON arrays of already-serialised values.
pub struct Arr {
    items: Vec<String>,
}

/// `n` spaces.
pub open spec fn spaces(n: nat) -> Seq<char> {
    Seq::new(n, |i: int| ' ')
}

/// Lines `indent + item + ",\n"`, one per item.
pub open spec fn comma_lines(items: Seq<Seq<char>>, indent: Seq<char>) -> Seq<char>
    decreases items.len(),
{
    if items.len() == 0 {
        Seq::empty()
    } else {
        comma_lines(items.drop_last(), indent) + indent + items.last() + seq![',', '\n']
    }
}

/// The lines of a pretty array: each item on a line after `indent`, all but
/// the last followed by a comma.
pub open spec fn pretty_lines(items: Seq<Seq<char>>, indent: Seq<char>) -> Seq<char> {
    if items.len() == 0 {
        Seq::empty()
    } else {
        comma_lines(items.drop_last(), indent) + indent + items.last() + seq!['\n']
    }
}

impl Arr {
    /// The serialised items, in order.
    pub closed spec fn items(&self) -> Seq<Seq<char>> {
        strings_view(self.items@)
    }

    pub fn new() -> (r: Arr)
        ensures
            r.items() == Seq::<Seq<char>>::empty(),
    {
        let a = Arr { items: Vec::new() };
        assert(a.items() =~= Seq::<Seq<char>>::empty());
        a
    }

    /// Appends one serialised value.
    pub fn push(&mut self, raw_json: String)
        ensures
            final(self).items() == old(self).items().push(raw_json@),
    {
        self.items.push(raw_json);
        assert(strings_view(self.items@) =~= strings_view(old(self).items@).push(raw_json@));
    }

    pub fn is_empty(&self) -> (r: bool)
        ensures
            r == (self.items().len() == 0),
    {
        self.items.len() == 0
    }

    /// `[` + the items joined with `,` + `]`.
    pub fn finish(self) -> (r: String)
        ensures
            r@ == seq!['['] + join(self.items(), seq![',']) + seq![']'],
    {
        let mut out = String::new();
        out.push('[');
        let mut i: usize = 0;
        let ghost it = self.items();
        assert(it.take(0) =~= Seq::<Seq<char>>::empty());
        while i < self.items.len()
            invariant
                i <= self.items@.len(),
                it == strings_view(self.items@),
                out@ == seq!['['] + join(it.take(i as int), seq![',']),
            decreases self.items.len() - i,
        {
            assert(it.take(i + 1).drop_last() =~= it.take(i as int));
            if i > 0 {
                out.push(',');
            }
            push_str(&mut out, self.items[i].as_str());
            proof {
                if i == 0 {
                    assert(join(it.take(1), seq![',']) =~= it[0]);
                }
            }
            assert(out@ =~= seq!['['] + join(it.take(i + 1), seq![',']));
            i += 1;
        }
        assert(it.take(self.items@.len() as int) =~= it);
        out.push(']');
        out
    }

    /// The array spread over lines (for a human-read file): `[`, each item on
    /// a line of its own after `indent`, then `]` after the indent minus two
    /// bytes. An empty array is `[]`.
    pub fn finish_pretty(self, indent: &str) -> (r: String)
        ensures
            r@ == (if self.items().len() == 0 {
                seq!['[', ']']
            } else {
                seq!['[', '\n'] + pretty_lines(self.items(), indent@) + spaces(
                    (if indent.spec_bytes().len() >= 2 {
                        indent.spec_bytes().len() - 2
                    } else {
                        0
                    }) as nat,
                ) + seq![']']
            }),
    {
        let ghost it = self.items();
        if self.items.len() == 0 {
            let mut e = String::new();
            e.push('[');
            e.push(']');
            assert(e@ =~= seq!['[', ']']);
            return e;
        }
        let mut out = String::new();
        out.push('[');
        out.push('\n');
        let n = self.items.len();
        let mut i: usize = 0;
        assert(it.take(0) =~= Seq::<Seq<char>>::empty());
        while i + 1 < n
            invariant
                n == self.items@.len(),
                n > 0,
                i < n,
                it == strings_view(self.items@),
                out@ == seq!['[', '\n'] + comma_lines(it.take(i as int), indent@),
            decreases n - i,
        {
            assert(it.take(i + 1).drop_last() =~= it.take(i as int));
            push_str(&mut out, indent);
            push_str(&mut out, self.items[i].as_str());
            out.push(',');
            out.push('\n');
            assert(out@ =~= seq!['[', '\n'] + comma_lines(it.take(i + 1), indent@));
            i += 1;
        }
        push_str(&mut out, indent);
        push_str(&mut out, self.items[i].as_str());
        out.push('\n');
        assert(it.drop_last() =~= it.take(i as int));
        assert(out@ =~= seq!['[', '\n'] + pretty_lines(it, indent@));
        let blen = indent.as_bytes().len();
        let pad = if blen >= 2 {
            blen - 2
        } else {
            0
        };
        let mut k: usize = 0;
        let ghost base = out@;
        while k < pad
            invariant
                k <= pad,
                out@ == base + spaces(k as nat),
            decreases pad - k,
        {
            out.push(' ');
            assert(out@ =~= base + spaces((k + 1) as nat));
            k += 1;
        }
        out.push(']');
        out
    }
}

impl Default for Arr {
    fn default() -> (r: Arr)
        ensures
            r.items() == Seq::<Seq<char>>::empty(),
    {
        Arr::new()
    }
}

proof fn lemma_escape_char_printable(c: char)
    ensures
        forall|i: int| 0 <= i < escape_char(c).len() ==> (#[trigger] escape_char(c)[i] as u32) >= 0x20,
{
    if (c as u32) < 0x20 && c != '\n' && c != '\r' && c != '\t' && c != '\u{08}' && c != '\u{0c}' {
        let u = c as u32;
        assert(hex_lower((u / 16) as nat) as u32 >= 0x20);
        assert(hex_lower((u % 16) as nat) as u32 >= 0x20);
    }
}

/// An escaped string holds no control character: every character it keeps
/// raw is at least U+0020, the others are written as escapes.
pub proof fn law_escape_printable(s: Seq<char>)
    ensures
        forall|i: int| 0 <= i < escape_chars(s).len() ==> (#[trigger] escape_chars(s)[i] as u32) >= 0x20,
    decreases s.len(),
{
    if s.len() > 0 {
        law_escape_printable(s.drop_last());
        lemma_escape_char_printable(s.last());
        let a = escape_chars(s.drop_last());
        let b = escape_char(s.last());
        assert forall|i: int| 0 <= i < escape_chars(s).len() implies (#[trigger] escape_chars(s)[i] as u32) >= 0x20 by {
            if i < a.len() {
                assert(escape_chars(s)[i] == a[i]);
            } else {
                assert(escape_chars(s)[i] == b[i - a.len()]);
            }
        }
    }
}

} // verus!
