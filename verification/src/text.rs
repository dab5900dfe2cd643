//! Text utilities: NFC normalisation, Hangul initial consonants, percent
//! encoding and decoding, and lexical path handling.

use unicode_normalization::UnicodeNormalization;
use vstd::prelude::*;
use vstd::utf8::*;
pub use crate::excerpt::excerpt;
use crate::strs::{
    chars_of, join, join_chars, lemma_rfind, lemma_split_push, rfind, rfind_char, slice_vec,
    split, string_of,
};

verus! {

// ---------------------------------------------------------------------------
// NFC
// ---------------------------------------------------------------------------
/// The Unicode canonical composition (NFC) of a character sequence.
pub uninterp spec fn nfc_of(s: Seq<char>) -> Seq<char>;

/// Unicode NFC normalisation, through `unicode_normalization`'s `nfc()`
/// iterator adaptor. The contract names the result and says nothing more of
/// it: the composition tables are not restated here.
#[verifier::external_body]
pub fn nfc(s: &str) -> (r: String)
    ensures
        r@ == nfc_of(s@),
{
    s.nfc().collect()
}

// ---------------------------------------------------------------------------
// Hangul initial consonants
// ---------------------------------------------------------------------------
/// The initial consonant (compatibility jamo) with index `i` (0..19).
pub open spec fn choseong_jamo(i: int) -> char {
    if i == 0 {
        'ㄱ'
    } else if i == 1 {
        'ㄲ'
    } else if i == 2 {
        'ㄴ'
    } else if i == 3 {
        'ㄷ'
    } else if i == 4 {
        'ㄸ'
    } else if i == 5 {
        'ㄹ'
    } else if i == 6 {
        'ㅁ'
    } else if i == 7 {
        'ㅂ'
    } else if i == 8 {
        'ㅃ'
    } else if i == 9 {
        'ㅅ'
    } else if i == 10 {
        'ㅆ'
    } else if i == 11 {
        'ㅇ'
    } else if i == 12 {
        'ㅈ'
    } else if i == 13 {
        'ㅉ'
    } else if i == 14 {
        'ㅊ'
    } else if i == 15 {
        'ㅋ'
    } else if i == 16 {
        'ㅌ'
    } else if i == 17 {
        'ㅍ'
    } else {
        'ㅎ'
    }
}

/// The initial consonant of a precomposed Hangul syllable (U+AC00..=U+D7A3);
/// every other character stands for itself.
pub open spec fn choseong_char(c: char) -> char {
    let u = c as u32;
    if 0xAC00 <= u <= 0xD7A3 {
        choseong_jamo(((u - 0xAC00) / 588) as int)
    } else {
        c
    }
}

/// `choseong_char` applied to every character.
pub open spec fn choseong_chars(s: Seq<char>) -> Seq<char> {
    s.map_values(|c: char| choseong_char(c))
}

fn jamo_at(i: u32) -> (r: char)
    requires
        i < 19,
    ensures
        r == choseong_jamo(i as int),
{
    match i {
        0 => 'ㄱ',
        1 => 'ㄲ',
        2 => 'ㄴ',
        3 => 'ㄷ',
        4 => 'ㄸ',
        5 => 'ㄹ',
        6 => 'ㅁ',
        7 => 'ㅂ',
        8 => 'ㅃ',
        9 => 'ㅅ',
        10 => 'ㅆ',
        11 => 'ㅇ',
        12 => 'ㅈ',
        13 => 'ㅉ',
        14 => 'ㅊ',
        15 => 'ㅋ',
        16 => 'ㅌ',
        17 => 'ㅍ',
        _ => 'ㅎ',
    }
}

/// The initial consonant of `c` if it is a precomposed syllable, else `c`.
pub fn choseong_of_char(c: char) -> (r: char)
    ensures
        r == choseong_char(c),
{
    let u = c as u32;
    if 0xAC00 <= u && u <= 0xD7A3 {
        jamo_at((u - 0xAC00) / 588)
    } else {
        c
    }
}

/// Maps every character of `v` to its initial consonant.
pub fn choseong_vec(v: &[char]) -> (r: Vec<char>)
    ensures
        r@ == choseong_chars(v@),
{
    let mut out: Vec<char> = Vec::new();
    let mut i: usize = 0;
    while i < v.len()
        invariant
            i <= v@.len(),
            out@ == choseong_chars(v@.take(i as int)),
        decreases v.len() - i,
    {
        out.push(choseong_of_char(v[i]));
        assert(choseong_chars(v@.take(i + 1)) =~= choseong_chars(v@.take(i as int)).push(
            choseong_char(v@[i as int]),
        ));
        i += 1;
    }
    assert(v@.take(v@.len() as int) =~= v@);
    out
}

/// The Hangul initial-consonant string of a title: the input is NFC-normalised
/// first, each precomposed syllable becomes its initial consonant
/// (`(syllable - 0xAC00) / 588`), and every other character passes through.
pub fn choseong(s: &str) -> (r: String)
    ensures
        r@ == choseong_chars(nfc_of(s@)),
{
    let n = nfc(s);
    let v = chars_of(n.as_str());
    let out = choseong_vec(&v);
    string_of(&out)
}

// ---------------------------------------------------------------------------
// Percent decoding
// ---------------------------------------------------------------------------
/// The value of a hexadecimal digit.
pub open spec fn hex_digit_value(b: u8) -> Option<u8> {
    if 0x30 <= b <= 0x39 {
        Some((b - 0x30) as u8)
    } else if 0x61 <= b <= 0x66 {
        Some((b - 0x61 + 10) as u8)
    } else if 0x41 <= b <= 0x46 {
        Some((b - 0x41 + 10) as u8)
    } else {
        None
    }
}

fn hexval(b: u8) -> (r: Option<u8>)
    ensures
        r == hex_digit_value(b),
{
    if b >= 0x30 && b <= 0x39 {
        Some(b - 0x30)
    } else if b >= 0x61 && b <= 0x66 {
        Some(b - 0x61 + 10)
    } else if b >= 0x41 && b <= 0x46 {
        Some(b - 0x41 + 10)
    } else {
        None
    }
}

/// Bytes with every `%XX` (two hex digits) replaced by the byte it names;
/// a `%` not followed by two hex digits stays as it is.
pub open spec fn pct_decode(b: Seq<u8>) -> Seq<u8>
    decreases b.len(),
{
    if b.len() == 0 {
        Seq::empty()
    } else if b[0] == 0x25 && 2 < b.len() && hex_digit_value(b[1]) is Some && hex_digit_value(
        b[2],
    ) is Some {
        seq![(hex_digit_value(b[1])->0 * 16 + hex_digit_value(b[2])->0) as u8] + pct_decode(
            b.skip(3),
        )
    } else {
        seq![b[0]] + pct_decode(b.skip(1))
    }
}

/// What `String::from_utf8_lossy` makes of a byte sequence.
pub uninterp spec fn utf8_lossy(b: Seq<u8>) -> Seq<char>;

/// `String::from_utf8_lossy`: valid UTF-8 decodes to its characters; invalid
/// sequences become U+FFFD, which the contract leaves to the named result.
#[verifier::external_body]
fn from_utf8_lossy(b: &[u8]) -> (r: String)
    ensures
        r@ == utf8_lossy(b@),
        valid_utf8(b@) ==> r@ == decode_utf8(b@),
{
    String::from_utf8_lossy(b).into_owned()
}

/// Decodes the `%XX` sequences of `s`, reads the bytes as UTF-8 and
/// replaces invalid sequences (lossy).
pub fn percent_decode(s: &str) -> (r: String)
    ensures
        r@ == utf8_lossy(pct_decode(encode_utf8(s@))),
        valid_utf8(pct_decode(encode_utf8(s@))) ==> r@ == decode_utf8(pct_decode(encode_utf8(s@))),
{
    let bytes = s.as_bytes();
    let mut out: Vec<u8> = Vec::new();
    let mut i: usize = 0;
    assert(bytes@.skip(0) =~= bytes@);
    while i < bytes.len()
        invariant
            i <= bytes@.len(),
            bytes@ == encode_utf8(s@),
            pct_decode(bytes@) == out@ + pct_decode(bytes@.skip(i as int)),
        decreases bytes.len() - i,
    {
        let ghost rest = bytes@.skip(i as int);
        if bytes[i] == 0x25 && bytes.len() - i > 2 {
            let h = hexval(bytes[i + 1]);
            let l = hexval(bytes[i + 2]);
            if let (Some(h), Some(l)) = (h, l) {
                assert(rest.skip(3) =~= bytes@.skip(i + 3));
                assert(h * 16 + l < 256) by (nonlinear_arith)
                    requires
                        h < 16,
                        l < 16,
                ;
                out.push(h * 16 + l);
                assert(pct_decode(bytes@) =~= out@ + pct_decode(bytes@.skip(i + 3)));
                i += 3;
                continue;
            }
        }
        assert(rest.skip(1) =~= bytes@.skip(i + 1));
        out.push(bytes[i]);
        assert(pct_decode(bytes@) =~= out@ + pct_decode(bytes@.skip(i + 1)));
        i += 1;
    }
    assert(bytes@.skip(i as int) =~= Seq::<u8>::empty());
    assert(out@ =~= pct_decode(bytes@));
    from_utf8_lossy(out.as_slice())
}

// ---------------------------------------------------------------------------
// Percent encoding
// ---------------------------------------------------------------------------
/// The escape of one character in a link destination: space, `%`, `#`, `?`,
/// parentheses, angle brackets and quotes become `%XX`; everything else,
/// non-ASCII included, stays.
pub open spec fn encode_char(c: char) -> Seq<char> {
    if c == ' ' {
        seq!['%', '2', '0']
    } else if c == '%' {
        seq!['%', '2', '5']
    } else if c == '#' {
        seq!['%', '2', '3']
    } else if c == '?' {
        seq!['%', '3', 'F']
    } else if c == '(' {
        seq!['%', '2', '8']
    } else if c == ')' {
        seq!['%', '2', '9']
    } else if c == '<' {
        seq!['%', '3', 'C']
    } else if c == '>' {
        seq!['%', '3', 'E']
    } else if c == '"' {
        seq!['%', '2', '2']
    } else if c == '\'' {
        seq!['%', '2', '7']
    } else {
        seq![c]
    }
}

/// `encode_char` applied to every character, concatenated.
pub open spec fn encode_chars(s: Seq<char>) -> Seq<char>
    decreases s.len(),
{
    if s.len() == 0 {
        Seq::empty()
    } else {
        encode_chars(s.drop_last()) + encode_char(s.last())
    }
}

fn push_escape(out: &mut Vec<char>, a: char, b: char)
    ensures
        final(out)@ == old(out)@ + seq!['%', a, b],
{
    out.push('%');
    out.push(a);
    out.push(b);
    assert(final(out)@ =~= old(out)@ + seq!['%', a, b]);
}

fn encode_one(out: &mut Vec<char>, c: char)
    ensures
        final(out)@ == old(out)@ + encode_char(c),
{
    match c {
        ' ' => push_escape(out, '2', '0'),
        '%' => push_escape(out, '2', '5'),
        '#' => push_escape(out, '2', '3'),
        '?' => push_escape(out, '3', 'F'),
        '(' => push_escape(out, '2', '8'),
        ')' => push_escape(out, '2', '9'),
        '<' => push_escape(out, '3', 'C'),
        '>' => push_escape(out, '3', 'E'),
        '"' => push_escape(out, '2', '2'),
        '\'' => push_escape(out, '2', '7'),
        _ => {
            out.push(c);
            assert(final(out)@ =~= old(out)@ + seq![c]);
        },
    }
}

/// Percent-encodes the characters of `v` that a link destination cannot hold.
pub fn encode_vec(v: &[char]) -> (r: Vec<char>)
    ensures
        r@ == encode_chars(v@),
{
    let mut out: Vec<char> = Vec::new();
    let mut i: usize = 0;
    while i < v.len()
        invariant
            i <= v@.len(),
            out@ == encode_chars(v@.take(i as int)),
        decreases v.len() - i,
    {
        assert(v@.take(i + 1).drop_last() =~= v@.take(i as int));
        encode_one(&mut out, v[i]);
        i += 1;
    }
    assert(v@.take(v@.len() as int) =~= v@);
    out
}

/// Percent-encodes only what a markdown link destination cannot hold; non-ASCII
/// text (Hangul and so on) stays as it is.
pub fn encode_path_component(s: &str) -> (r: String)
    ensures
        r@ == encode_chars(s@),
{
    let v = chars_of(s);
    let e = encode_vec(&v);
    string_of(&e)
}

proof fn lemma_encode_utf8_concat(a: Seq<char>, b: Seq<char>)
    ensures
        encode_utf8(a + b) == encode_utf8(a) + encode_utf8(b),
    decreases a.len(),
{
    if a.len() == 0 {
        assert(a + b =~= b);
    } else {
        lemma_encode_utf8_concat(a.drop_first(), b);
        assert((a + b).drop_first() =~= a.drop_first() + b);
        assert((a + b)[0] == a[0]);
    }
}

proof fn lemma_encode_chars_front(s: Seq<char>)
    requires
        s.len() > 0,
    ensures
        encode_chars(s) == encode_char(s[0]) + encode_chars(s.drop_first()),
    decreases s.len(),
{
    if s.len() == 1 {
        assert(s.drop_last() =~= Seq::<char>::empty());
        assert(s.drop_first() =~= Seq::<char>::empty());
        assert(encode_chars(s.drop_last()) =~= Seq::<char>::empty());
        assert(encode_chars(s) =~= encode_char(s[0]) + encode_chars(s.drop_first()));
    } else {
        lemma_encode_chars_front(s.drop_last());
        assert(s.drop_last().drop_first() =~= s.drop_first().drop_last());
        assert(s.drop_last()[0] == s[0]);
        assert(s.drop_first().last() == s.last());
        assert(encode_chars(s) =~= encode_char(s[0]) + encode_chars(s.drop_first()));
    }
}

proof fn lemma_pct_plain(x: Seq<u8>, y: Seq<u8>)
    requires
        forall|i: int| 0 <= i < x.len() ==> #[trigger] x[i] != 0x25,
    ensures
        pct_decode(x + y) == x + pct_decode(y),
    decreases x.len(),
{
    if x.len() == 0 {
        assert(x + y =~= y);
    } else {
        lemma_pct_plain(x.drop_first(), y);
        assert((x + y).skip(1) =~= x.drop_first() + y);
        assert((x + y)[0] == x[0]);
        assert(x + pct_decode(y) =~= seq![x[0]] + (x.drop_first() + pct_decode(y)));
    }
}

/// No byte of the UTF-8 form of a character other than `%` is `%`.
proof fn lemma_scalar_no_percent(c: char)
    requires
        c != '%',
    ensures
        forall|i: int|
            0 <= i < encode_scalar(c as u32).len() ==> #[trigger] encode_scalar(c as u32)[i] != 0x25,
{
    let v = c as u32;
    char_is_scalar(c);
    if has_width_1_encoding(v) {
        assert(v != 0x25);
        assert(leading_byte_width_1(v) != 0x25) by (bit_vector)
            requires
                v <= 0x7f,
                v != 0x25,
        ;
    } else {
        assert(leading_byte_width_2(v) != 0x25) by (bit_vector);
        assert(leading_byte_width_3(v) != 0x25) by (bit_vector);
        assert(leading_byte_width_4(v) != 0x25) by (bit_vector);
        assert(last_continuation_byte(v) != 0x25) by (bit_vector);
        assert(second_last_continuation_byte(v) != 0x25) by (bit_vector);
        assert(third_last_continuation_byte(v) != 0x25) by (bit_vector);
    }
}

/// The escape of a character decodes back to its UTF-8 form.
proof fn lemma_escape_decodes(c: char, y: Seq<u8>)
    ensures
        pct_decode(encode_utf8(encode_char(c)) + y) == encode_utf8(seq![c]) + pct_decode(y),
{
    let e = encode_char(c);
    assert(encode_utf8(seq![c]) =~= encode_scalar(c as u32)) by {
        assert(seq![c].drop_first() =~= Seq::<char>::empty());
        assert(seq![c][0] == c);
        assert(encode_utf8(Seq::<char>::empty()) =~= Seq::<u8>::empty());
        assert(encode_utf8(seq![c]) == encode_scalar(c as u32) + encode_utf8(Seq::<char>::empty()));
    }
    if e == seq![c] {
        lemma_scalar_no_percent(c);
        lemma_pct_plain(encode_scalar(c as u32), y);
    } else {
        assert(is_ascii_chars(e));
        is_ascii_chars_encode_utf8(e);
        assert(is_ascii_chars(seq![c]));
        is_ascii_chars_encode_utf8(seq![c]);
        let b = encode_utf8(e);
        assert(b.len() == 3);
        assert(b[0] == 0x25);
        assert((b + y).skip(3) =~= y);
        assert((b + y)[0] == b[0] && (b + y)[1] == b[1] && (b + y)[2] == b[2]);
        assert(encode_utf8(seq![c]).len() == 1);
        assert(hex_digit_value(b[1])->0 * 16 + hex_digit_value(b[2])->0 == c as u8);
        assert(pct_decode(b + y) =~= encode_utf8(seq![c]) + pct_decode(y));
    }
}

proof fn lemma_decode_encoded(s: Seq<char>, y: Seq<u8>)
    ensures
        pct_decode(encode_utf8(encode_chars(s)) + y) == encode_utf8(s) + pct_decode(y),
    decreases s.len(),
{
    if s.len() == 0 {
        assert(encode_chars(s) =~= Seq::<char>::empty());
        assert(encode_utf8(encode_chars(s)) + y =~= y);
        assert(encode_utf8(s) + pct_decode(y) =~= pct_decode(y));
    } else {
        let c = s[0];
        let rest = s.drop_first();
        lemma_encode_chars_front(s);
        lemma_encode_utf8_concat(encode_char(c), encode_chars(rest));
        lemma_decode_encoded(rest, y);
        let ec = encode_utf8(encode_char(c));
        let er = encode_utf8(encode_chars(rest));
        assert(ec + er + y =~= ec + (er + y));
        lemma_escape_decodes(c, er + y);
        assert(s =~= seq![c] + rest);
        lemma_encode_utf8_concat(seq![c], rest);
        assert(encode_utf8(seq![c]) + (encode_utf8(rest) + pct_decode(y)) =~= encode_utf8(s)
            + pct_decode(y));
    }
}

/// Percent decoding undoes percent encoding: the bytes decoded from an
/// encoded component are the UTF-8 bytes of the component, which are valid
/// UTF-8 and read back as the component itself.
pub proof fn law_decode_undoes_encode(s: Seq<char>)
    ensures
        pct_decode(encode_utf8(encode_chars(s))) == encode_utf8(s),
        valid_utf8(encode_utf8(s)),
        decode_utf8(encode_utf8(s)) == s,
{
    lemma_decode_encoded(s, Seq::empty());
    assert(encode_utf8(encode_chars(s)) + Seq::<u8>::empty() =~= encode_utf8(encode_chars(s)));
    assert(encode_utf8(s) + pct_decode(Seq::<u8>::empty()) =~= encode_utf8(s));
    encode_utf8_valid_utf8(s);
    encode_utf8_decode_utf8(s);
}

// ---------------------------------------------------------------------------
// Lexical paths
// ---------------------------------------------------------------------------
/// Everything before the last `/` (empty when there is none).
pub open spec fn dirname_of(p: Seq<char>) -> Seq<char> {
    match rfind(p, '/') {
        Some(i) => p.take(i),
        None => Seq::empty(),
    }
}

/// Everything after the last `/` (all of `p` when there is none).
pub open spec fn basename_of(p: Seq<char>) -> Seq<char> {
    match rfind(p, '/') {
        Some(i) => p.skip(i + 1),
        None => p,
    }
}

/// The extension of the last component, dot included; empty when the last
/// component has no dot after its first character.
pub open spec fn extension_of(p: Seq<char>) -> Seq<char> {
    let b = basename_of(p);
    match rfind(b, '.') {
        Some(i) => if i > 0 {
            b.skip(i)
        } else {
            Seq::empty()
        },
        None => Seq::empty(),
    }
}

/// `p` with the extension of its last component replaced by `ext` (or `ext`
/// appended when there is none).
pub open spec fn with_extension_of(p: Seq<char>, ext: Seq<char>) -> Seq<char> {
    let b = basename_of(p);
    let d = dirname_of(p);
    match rfind(b, '.') {
        Some(i) => if i > 0 {
            d + (if d.len() == 0 {
                Seq::<char>::empty()
            } else {
                seq!['/']
            }) + b.take(i) + ext
        } else {
            p + ext
        },
        None => p + ext,
    }
}

/// The parent directory (empty when there is no separator).
pub fn dirname(p: &str) -> (r: &str)
    ensures
        r@ == dirname_of(p@),
{
    let v = chars_of(p);
    proof {
        lemma_rfind(p@, '/');
    }
    match rfind_char(&v, '/') {
        Some(i) => p.substring_char(0, i),
        None => p.substring_char(0, 0),
    }
}

/// The last component.
pub fn basename(p: &str) -> (r: &str)
    ensures
        r@ == basename_of(p@),
{
    let v = chars_of(p);
    proof {
        lemma_rfind(p@, '/');
    }
    match rfind_char(&v, '/') {
        Some(i) => p.substring_char(i + 1, v.len()),
        None => p,
    }
}

/// The extension of the last component, dot included, as written; empty when
/// there is none.
pub fn extension(p: &str) -> (r: &str)
    ensures
        r@ == extension_of(p@),
{
    let b = basename(p);
    let v = chars_of(b);
    proof {
        lemma_rfind(b@, '.');
    }
    match rfind_char(&v, '.') {
        Some(i) => if i > 0 {
            b.substring_char(i, v.len())
        } else {
            b.substring_char(0, 0)
        },
        None => b.substring_char(0, 0),
    }
}

/// The path with its extension replaced by `ext`.
pub fn with_extension(p: &str, ext: &str) -> (r: String)
    ensures
        r@ == with_extension_of(p@, ext@),
{
    let b = basename(p);
    let bv = chars_of(b);
    let ev = chars_of(ext);
    proof {
        lemma_rfind(b@, '.');
    }
    match rfind_char(&bv, '.') {
        Some(i) if i > 0 => {
            let d = chars_of(dirname(p));
            let mut out = d.clone();
            if d.len() > 0 {
                out.push('/');
            }
            let stem = slice_vec(&bv, 0, i);
            out.extend_from_slice(&stem);
            out.extend_from_slice(&ev);
            assert(stem@ =~= b@.take(i as int));
            proof {
                if d@.len() == 0 {
                    assert(out@ =~= d@ + Seq::<char>::empty() + b@.take(i as int) + ext@);
                } else {
                    assert(out@ =~= d@ + seq!['/'] + b@.take(i as int) + ext@);
                }
            }
            string_of(&out)
        },
        _ => {
            let mut out = chars_of(p);
            out.extend_from_slice(&ev);
            string_of(&out)
        },
    }
}

/// One step of lexical normalisation: empty and `.` segments vanish, `..`
/// drops the previous kept segment (nothing above the root), others are kept.
pub open spec fn norm_step(st: Seq<Seq<char>>, seg: Seq<char>) -> Seq<Seq<char>> {
    if seg.len() == 0 || seg == seq!['.'] {
        st
    } else if seg == seq!['.', '.'] {
        if st.len() > 0 {
            st.drop_last()
        } else {
            st
        }
    } else {
        st.push(seg)
    }
}

/// The kept segments after reading `segs` left to right.
pub open spec fn norm_stack(segs: Seq<Seq<char>>) -> Seq<Seq<char>>
    decreases segs.len(),
{
    if segs.len() == 0 {
        Seq::empty()
    } else {
        norm_step(norm_stack(segs.drop_last()), segs.last())
    }
}

/// The lexically normalised relative path.
pub open spec fn normalized(p: Seq<char>) -> Seq<char> {
    join(norm_stack(split(p, '/')), seq!['/'])
}

fn apply_segment(stack: &mut Vec<Vec<char>>, seg: Vec<char>)
    ensures
        final(stack).deep_view() == norm_step(old(stack).deep_view(), seg@),
{
    let is_dot = seg.len() == 1 && seg[0] == '.';
    let is_dotdot = seg.len() == 2 && seg[0] == '.' && seg[1] == '.';
    proof {
        if seg@.len() == 1 && seg@[0] == '.' {
            assert(seg@ =~= seq!['.']);
        }
        if seg@.len() == 2 && seg@[0] == '.' && seg@[1] == '.' {
            assert(seg@ =~= seq!['.', '.']);
        }
    }
    if seg.len() == 0 || is_dot {
    } else if is_dotdot {
        if stack.len() > 0 {
            stack.pop();
            assert(stack.deep_view() =~= old(stack).deep_view().drop_last());
        }
    } else {
        let ghost sv = seg@;
        assert(seg.deep_view() =~= sv);
        stack.push(seg);
        assert(stack.deep_view() =~= old(stack).deep_view().push(sv));
    }
}

/// Resolves `.` and `..` purely lexically; a `..` above the root is dropped.
pub fn normalize_rel_path(p: &str) -> (r: String)
    ensures
        r@ == normalized(p@),
{
    let v = chars_of(p);
    let mut stack: Vec<Vec<char>> = Vec::new();
    let mut cur: Vec<char> = Vec::new();
    let ghost mut done: Seq<Seq<char>> = Seq::empty();
    assert(v@.take(0) =~= Seq::<char>::empty());
    assert(split(v@.take(0), '/') =~= seq![Seq::<char>::empty()]);
    let mut i: usize = 0;
    while i < v.len()
        invariant
            i <= v@.len(),
            split(v@.take(i as int), '/') == done.push(cur@),
            stack.deep_view() == norm_stack(done),
        decreases v.len() - i,
    {
        let ch = v[i];
        proof {
            lemma_split_push(v@.take(i as int), ch, '/');
            assert(v@.take(i + 1) =~= v@.take(i as int).push(ch));
            assert(done.push(cur@).drop_last() =~= done);
        }
        if ch == '/' {
            let seg = cur;
            cur = Vec::new();
            let ghost segv = seg@;
            apply_segment(&mut stack, seg);
            proof {
                assert(done.push(segv).drop_last() =~= done);
                done = done.push(segv);
            }
            assert(split(v@.take(i + 1), '/') =~= done.push(cur@));
        } else {
            cur.push(ch);
            assert(split(v@.take(i + 1), '/') =~= done.push(cur@));
        }
        i += 1;
    }
    let ghost last = cur@;
    apply_segment(&mut stack, cur);
    proof {
        assert(v@.take(v@.len() as int) =~= v@);
        assert(done.push(last).drop_last() =~= done);
        assert(norm_stack(done.push(last)) == norm_step(norm_stack(done), last));
        assert(stack.deep_view() == norm_stack(split(p@, '/')));
    }
    let mut sep: Vec<char> = Vec::new();
    sep.push('/');
    assert(sep@ =~= seq!['/']);
    let joined = join_chars(&stack, &sep);
    string_of(&joined)
}

/// A segment that normalisation keeps as it is: not empty, not `.` or `..`,
/// without `/`.
pub open spec fn kept_segment(s: Seq<char>) -> bool {
    s.len() > 0 && s != seq!['.'] && s != seq!['.', '.'] && forall|i: int|
        0 <= i < s.len() ==> s[i] != '/'
}

proof fn lemma_split_pieces(s: Seq<char>)
    ensures
        forall|k: int, i: int|
            0 <= k < split(s, '/').len() && 0 <= i < split(s, '/')[k].len() ==> #[trigger] split(
                s,
                '/',
            )[k][i] != '/',
    decreases s.len(),
{
    lemma_rfind(s, '/');
    match rfind(s, '/') {
        None => {},
        Some(p) => {
            lemma_split_pieces(s.take(p));
            let init = split(s.take(p), '/');
            assert forall|k: int, i: int|
                0 <= k < split(s, '/').len() && 0 <= i < split(s, '/')[k].len() implies #[trigger] split(
                s,
                '/',
            )[k][i] != '/' by {
                if k < init.len() {
                    assert(split(s, '/')[k] == init[k]);
                } else {
                    assert(split(s, '/')[k] == s.skip(p + 1));
                    assert(s.skip(p + 1)[i] == s[p + 1 + i]);
                }
            }
        },
    }
}

proof fn lemma_norm_kept(segs: Seq<Seq<char>>)
    requires
        forall|k: int, i: int| 0 <= k < segs.len() && 0 <= i < segs[k].len() ==> #[trigger] segs[k][i] != '/',
    ensures
        forall|k: int| 0 <= k < norm_stack(segs).len() ==> kept_segment(#[trigger] norm_stack(segs)[k]),
    decreases segs.len(),
{
    if segs.len() > 0 {
        assert forall|k: int, i: int| 0 <= k < segs.drop_last().len() && 0 <= i < segs.drop_last()[k].len() implies #[trigger] segs.drop_last()[k][i] != '/' by {
            assert(segs.drop_last()[k] == segs[k]);
        }
        lemma_norm_kept(segs.drop_last());
        let st = norm_stack(segs.drop_last());
        let seg = segs.last();
        assert forall|i: int| 0 <= i < seg.len() implies seg[i] != '/' by {
            assert(seg == segs[segs.len() - 1]);
        }
        assert forall|k: int| 0 <= k < norm_stack(segs).len() implies kept_segment(#[trigger] norm_stack(segs)[k]) by {
            if k < st.len() {
                assert(norm_stack(segs)[k] == st[k]);
            }
        }
    }
}

pub(crate) proof fn lemma_norm_fixed(segs: Seq<Seq<char>>)
    requires
        forall|k: int| 0 <= k < segs.len() ==> kept_segment(#[trigger] segs[k]),
    ensures
        norm_stack(segs) == segs,
    decreases segs.len(),
{
    if segs.len() > 0 {
        lemma_norm_fixed(segs.drop_last());
        assert(kept_segment(segs[segs.len() - 1]));
        assert(segs.drop_last().push(segs.last()) =~= segs);
    }
}

pub(crate) proof fn lemma_split_join(segs: Seq<Seq<char>>)
    requires
        segs.len() >= 1,
        forall|k: int, i: int| 0 <= k < segs.len() && 0 <= i < segs[k].len() ==> #[trigger] segs[k][i] != '/',
    ensures
        split(join(segs, seq!['/']), '/') == segs,
    decreases segs.len(),
{
    if segs.len() == 1 {
        let s = segs[0];
        lemma_rfind(s, '/');
        if let Some(p) = rfind(s, '/') {
            assert(s[p] != '/');
        }
        assert(split(s, '/') =~= seq![s]);
        assert(segs =~= seq![s]);
    } else {
        let init = segs.drop_last();
        let last = segs.last();
        assert forall|k: int, i: int| 0 <= k < init.len() && 0 <= i < init[k].len() implies #[trigger] init[k][i] != '/' by {
            assert(init[k] == segs[k]);
        }
        lemma_split_join(init);
        let a = join(init, seq!['/']);
        let s = a + seq!['/'] + last;
        assert(join(segs, seq!['/']) == s);
        lemma_rfind(s, '/');
        assert(s[a.len() as int] == '/');
        match rfind(s, '/') {
            Some(p) => {
                if p < a.len() {
                    assert(s[a.len() as int] != '/');
                }
                if p > a.len() {
                    assert(s[p] == last[p - a.len() - 1]);
                    assert(last == segs[segs.len() - 1]);
                }
                assert(p == a.len());
                assert(s.take(p) =~= a);
                assert(s.skip(p + 1) =~= last);
                assert(init.push(last) =~= segs);
            },
            None => {},
        }
    }
}

/// A path is its directory, a `/` and its file name; without a `/` it is its
/// own file name and its directory is empty. The file name holds no `/`.
pub proof fn law_dirname_basename(p: Seq<char>)
    ensures
        rfind(p, '/') is Some ==> dirname_of(p) + seq!['/'] + basename_of(p) == p,
        rfind(p, '/') is None ==> dirname_of(p).len() == 0 && basename_of(p) == p,
        !basename_of(p).contains('/'),
{
    lemma_rfind(p, '/');
    match rfind(p, '/') {
        Some(i) => {
            assert(p.take(i) + seq!['/'] + p.skip(i + 1) =~= p);
            assert forall|k: int| 0 <= k < basename_of(p).len() implies basename_of(p)[k] != '/' by {
                assert(basename_of(p)[k] == p[i + 1 + k]);
            }
        },
        None => {},
    }
}

proof fn lemma_rfind_is(s: Seq<char>, c: char, i: int)
    requires
        0 <= i < s.len(),
        s[i] == c,
        forall|j: int| i < j < s.len() ==> s[j] != c,
    ensures
        rfind(s, c) == Some(i),
    decreases s.len(),
{
    if s.last() != c {
        lemma_rfind_is(s.drop_last(), c, i);
    }
}

proof fn lemma_rfind_none(s: Seq<char>, c: char)
    requires
        forall|j: int| 0 <= j < s.len() ==> s[j] != c,
    ensures
        rfind(s, c) is None,
{
    lemma_rfind(s, c);
}

/// A proper extension: a dot followed by a name without dots or slashes.
pub open spec fn is_proper_extension(ext: Seq<char>) -> bool {
    &&& ext.len() >= 2
    &&& ext[0] == '.'
    &&& forall|k: int| 1 <= k < ext.len() ==> #[trigger] ext[k] != '.' && ext[k] != '/'
}

/// The base name of `x + y` when `y` holds no `/` and `x` is a directory
/// part followed by a file-name part `b` (no `/`).
proof fn lemma_basename_append(d: Seq<char>, b: Seq<char>, y: Seq<char>)
    requires
        !b.contains('/'),
        !y.contains('/'),
    ensures
        basename_of(d + seq!['/'] + b + y) == b + y,
        basename_of(b + y) == b + y,
{
    let q = d + seq!['/'] + b + y;
    assert forall|j: int| d.len() < j < q.len() implies q[j] != '/' by {
        if j <= d.len() + b.len() {
            assert(q[j] == b[j - d.len() - 1]);
        } else {
            assert(q[j] == y[j - d.len() - 1 - b.len()]);
        }
    }
    lemma_rfind_is(q, '/', d.len() as int);
    assert(q.skip(d.len() + 1int) =~= b + y);
    let r = b + y;
    assert forall|j: int| 0 <= j < r.len() implies r[j] != '/' by {
        if j < b.len() {
            assert(r[j] == b[j]);
        } else {
            assert(r[j] == y[j - b.len()]);
        }
    }
    lemma_rfind_none(r, '/');
}

/// What `with_extension` sets, `extension` reads back: giving a path with a
/// non-empty file name a proper extension (`.md`, `.html`) makes that its
/// extension.
pub proof fn law_with_extension_reads_back(p: Seq<char>, ext: Seq<char>)
    requires
        basename_of(p).len() > 0,
        is_proper_extension(ext),
    ensures
        extension_of(with_extension_of(p, ext)) == ext,
{
    let b = basename_of(p);
    let d = dirname_of(p);
    law_dirname_basename(p);
    assert(!ext.contains('/')) by {
        if ext.contains('/') {
            let k = choose|k: int| 0 <= k < ext.len() && ext[k] == '/';
            if k >= 1 {
                assert(ext[k] != '/');
            }
        }
    }
    lemma_rfind(b, '.');
    let stem = match rfind(b, '.') {
        Some(i) => if i > 0 {
            b.take(i)
        } else {
            b
        },
        None => b,
    };
    assert(!stem.contains('/')) by {
        if stem.contains('/') {
            let k = choose|k: int| 0 <= k < stem.len() && stem[k] == '/';
            assert(b[k] == stem[k]);
        }
    }
    let q = with_extension_of(p, ext);
    let bq = stem + ext;
    if rfind(b, '.') matches Some(i) && i > 0 {
        if d.len() == 0 {
            assert(q =~= stem + ext);
            lemma_basename_append(d, stem, ext);
        } else {
            assert(q =~= d + seq!['/'] + stem + ext);
            lemma_basename_append(d, stem, ext);
        }
    } else {
        if rfind(p, '/') is Some {
            assert(q =~= d + seq!['/'] + b + ext);
            lemma_basename_append(d, b, ext);
        } else {
            assert(q =~= b + ext);
            lemma_basename_append(d, b, ext);
        }
    }
    assert(basename_of(q) == bq);
    assert forall|j: int| stem.len() < j < bq.len() implies bq[j] != '.' by {
        assert(bq[j] == ext[j - stem.len()]);
    }
    assert(bq[stem.len() as int] == '.');
    lemma_rfind_is(bq, '.', stem.len() as int);
    assert(bq.skip(stem.len() as int) =~= ext);
}

/// Normalising a normalised path changes nothing.
pub proof fn law_normalize_idempotent(p: Seq<char>)
    ensures
        normalized(normalized(p)) == normalized(p),
{
    let st = norm_stack(split(p, '/'));
    lemma_split_pieces(p);
    lemma_norm_kept(split(p, '/'));
    if st.len() == 0 {
        assert(join(st, seq!['/']) =~= Seq::<char>::empty());
        lemma_rfind(Seq::<char>::empty(), '/');
        assert(split(Seq::<char>::empty(), '/') =~= seq![Seq::<char>::empty()]);
        let one = seq![Seq::<char>::empty()];
        assert(one.drop_last() =~= Seq::<Seq<char>>::empty());
        assert(one.last() == Seq::<char>::empty());
        assert(norm_stack(one.drop_last()) == Seq::<Seq<char>>::empty());
        assert(norm_stack(one) == norm_step(Seq::<Seq<char>>::empty(), Seq::<char>::empty()));
        assert(norm_stack(one) =~= Seq::<Seq<char>>::empty());
    } else {
        assert forall|k: int, i: int| 0 <= k < st.len() && 0 <= i < st[k].len() implies #[trigger] st[k][i] != '/' by {
            assert(kept_segment(st[k]));
        }
        lemma_split_join(st);
        lemma_norm_fixed(st);
    }
}

/// The non-empty pieces of `segs`, in order.
pub open spec fn nonempty_segs(segs: Seq<Seq<char>>) -> Seq<Seq<char>>
    decreases segs.len(),
{
    if segs.len() == 0 {
        Seq::empty()
    } else if segs.last().len() == 0 {
        nonempty_segs(segs.drop_last())
    } else {
        nonempty_segs(segs.drop_last()).push(segs.last())
    }
}

/// The view of a vector of strings as a sequence of character sequences.
pub open spec fn strings_view(v: Seq<String>) -> Seq<Seq<char>> {
    v.map_values(|s: String| s@)
}

/// The `/`-separated non-empty components of `p`.
pub fn components(p: &str) -> (r: Vec<String>)
    ensures
        strings_view(r@) == nonempty_segs(split(p@, '/')),
{
    let v = chars_of(p);
    let mut out: Vec<String> = Vec::new();
    let mut cur: Vec<char> = Vec::new();
    let ghost mut done: Seq<Seq<char>> = Seq::empty();
    assert(v@.take(0) =~= Seq::<char>::empty());
    assert(split(v@.take(0), '/') =~= seq![Seq::<char>::empty()]);
    assert(strings_view(out@) =~= nonempty_segs(done));
    let mut i: usize = 0;
    while i < v.len()
        invariant
            i <= v@.len(),
            split(v@.take(i as int), '/') == done.push(cur@),
            strings_view(out@) == nonempty_segs(done),
        decreases v.len() - i,
    {
        let ch = v[i];
        proof {
            lemma_split_push(v@.take(i as int), ch, '/');
            assert(v@.take(i + 1) =~= v@.take(i as int).push(ch));
            assert(done.push(cur@).drop_last() =~= done);
        }
        if ch == '/' {
            let ghost segv = cur@;
            if cur.len() > 0 {
                out.push(string_of(&cur));
                assert(strings_view(out@) =~= strings_view(old_out_view(out@)).push(segv));
            }
            cur = Vec::new();
            proof {
                assert(done.push(segv).drop_last() =~= done);
                done = done.push(segv);
            }
            assert(split(v@.take(i + 1), '/') =~= done.push(cur@));
        } else {
            cur.push(ch);
            assert(split(v@.take(i + 1), '/') =~= done.push(cur@));
        }
        i += 1;
    }
    let ghost last = cur@;
    if cur.len() > 0 {
        out.push(string_of(&cur));
        assert(strings_view(out@) =~= strings_view(old_out_view(out@)).push(last));
    }
    proof {
        assert(v@.take(v@.len() as int) =~= v@);
        assert(done.push(last).drop_last() =~= done);
    }
    out
}

/// All but the last element.
spec fn old_out_view(v: Seq<String>) -> Seq<String> {
    v.drop_last()
}

} // verus!
