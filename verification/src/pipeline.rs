//! The computing steps of one pipeline run: options, note titles, the base
//! path, the input fingerprint, and the `search.json` / `meta.json` texts.

use sha2::{Digest, Sha256};
use std::path::PathBuf;
use vstd::prelude::*;
use vstd::string::{StrSliceExecFns, StringSliceAdditionalSpecFns};
use crate::graph::{top_section, top_section_of};
use crate::json::{hex_lower, json_string, string as json_str, Arr};
use crate::layout::{DEFAULT_ITERATIONS, DEFAULT_SEED};
use crate::strs::{
    chars_of, decimal, ends_with, has_prefix, has_suffix, join, push_decimal, push_decimal_u64,
    push_str, slice_vec,
    split, starts_with, string_of, trim, trim_chars,
};
use crate::text::{
    basename, basename_of, choseong, choseong_chars, encode_chars, encode_path_component, nfc,
    nfc_of, strings_view,
};
use crate::links::split_strings;

verus! {

// ---------------------------------------------------------------------------
// Options
// ---------------------------------------------------------------------------
/// Command-line options of a run.
#[derive(Debug, Clone)]
pub struct Options {
    pub root: PathBuf,
    pub out: PathBuf,
    pub stage: PathBuf,
    /// Site root path, with leading and trailing slashes (`/estudy/` for a
    /// project site).
    pub base_path: String,
    /// Repository directory under which the notes live (say `brains`); it is
    /// removed from site URLs.
    pub content_prefix: String,
    pub seed: u64,
    pub iterations: usize,
}

/// `PathBuf::from` (std): a path holding the given text. Nothing is stated of
/// the result; the library only carries paths through.
#[verifier::external_body]
fn path_from(s: &str) -> (r: PathBuf) {
    PathBuf::from(s)
}

impl Default for Options {
    /// Root `.`, output `site/generated`, stage `.cache/content`, base path
    /// `/estudy/`, content prefix `brains`, the default seed and iterations.
    fn default() -> (r: Options)
        ensures
            r.base_path@ == "/estudy/"@,
            r.content_prefix@ == "brains"@,
            r.seed == DEFAULT_SEED,
            r.iterations == DEFAULT_ITERATIONS,
    {
        Options {
            root: path_from("."),
            out: path_from("site/generated"),
            stage: path_from(".cache/content"),
            base_path: string_of(&chars_of("/estudy/")),
            content_prefix: string_of(&chars_of("brains")),
            seed: DEFAULT_SEED,
            iterations: DEFAULT_ITERATIONS,
        }
    }
}

// ---------------------------------------------------------------------------
// Titles and the base path
// ---------------------------------------------------------------------------
/// The title a line gives: after `# `, trimmed and NFC, when not empty.
pub open spec fn heading_title(line: Seq<char>) -> Option<Seq<char>> {
    if starts_with(line, "# "@) {
        let t = nfc_of(trim(line.skip(2)));
        if t.len() > 0 {
            Some(t)
        } else {
            None
        }
    } else {
        None
    }
}

/// The first title that a line gives.
pub open spec fn first_heading(lines: Seq<Seq<char>>) -> Option<Seq<char>>
    decreases lines.len(),
{
    if lines.len() == 0 {
        None
    } else {
        match heading_title(lines[0]) {
            Some(t) => Some(t),
            None => first_heading(lines.drop_first()),
        }
    }
}

/// A file name without its `.md` suffix.
pub open spec fn md_stem(b: Seq<char>) -> Seq<char> {
    if ends_with(b, ".md"@) {
        b.take(b.len() - 3)
    } else {
        b
    }
}

/// A note's title: the first `# ` heading, else the file name without `.md`
/// (NFC); with whether the file name was used. (Lines are cut at `\n`; a
/// trailing `\r` is removed by the trim.)
pub open spec fn title_of(content: Seq<char>, rel: Seq<char>) -> (Seq<char>, bool) {
    match first_heading(split(content, '\n')) {
        Some(t) => (t, false),
        None => (nfc_of(md_stem(basename_of(rel))), true),
    }
}

/// A note's title and whether it fell back to the file name.
pub fn note_title(content: &str, rel: &str) -> (r: (String, bool))
    ensures
        (r.0@, r.1) == title_of(content@, rel@),
{
    let cv = chars_of(content);
    let lines = split_strings(&cv, '\n');
    let ghost ls = strings_view(lines@);
    let hash = chars_of("# ");
    proof {
        reveal_strlit("# ");
    }
    let mut k: usize = 0;
    assert(ls.skip(0) =~= ls);
    while k < lines.len()
        invariant
            k <= lines@.len(),
            ls == strings_view(lines@),
            ls == split(content@, '\n'),
            hash@ == "# "@,
            hash@.len() == 2,
            first_heading(ls) == first_heading(ls.skip(k as int)),
        decreases lines.len() - k,
    {
        let line = chars_of(lines[k].as_str());
        assert(ls.skip(k as int)[0] == line@);
        assert(ls.skip(k as int).drop_first() =~= ls.skip(k + 1));
        if has_prefix(&line, &hash) {
            let rest = slice_vec(&line, 2, line.len());
            assert(rest@ =~= line@.skip(2));
            let t = trim_chars(&rest);
            let ts = string_of(&t);
            let n = nfc(ts.as_str());
            if !n.as_str().is_empty() {
                return (n, false);
            }
        }
        k += 1;
    }
    assert(ls.skip(k as int) =~= Seq::<Seq<char>>::empty());
    let b = basename(rel);
    let bv = chars_of(b);
    let md = chars_of(".md");
    proof {
        reveal_strlit(".md");
    }
    let stem = if has_suffix(&bv, &md) {
        slice_vec(&bv, 0, bv.len() - 3)
    } else {
        slice_vec(&bv, 0, bv.len())
    };
    assert(stem@ =~= md_stem(basename_of(rel@)));
    let s = string_of(&stem);
    (nfc(s.as_str()), true)
}

/// The base path with a leading and a trailing `/`.
pub open spec fn clean_base_path(p: Seq<char>) -> Seq<char> {
    let q = if starts_with(p, seq!['/']) {
        p
    } else {
        seq!['/'] + p
    };
    if ends_with(q, seq!['/']) {
        q
    } else {
        q + seq!['/']
    }
}

/// Adds a leading and a trailing `/` to the base path where missing.
pub fn base_path_clean(p: &str) -> (r: String)
    ensures
        r@ == clean_base_path(p@),
{
    let v = chars_of(p);
    let mut q: Vec<char> = Vec::new();
    if !(v.len() > 0 && v[0] == '/') {
        q.push('/');
    }
    let mut i: usize = 0;
    let ghost start = q@;
    while i < v.len()
        invariant
            i <= v@.len(),
            q@ == start + v@.take(i as int),
        decreases v.len() - i,
    {
        q.push(v[i]);
        assert(q@ =~= start + v@.take(i + 1));
        i += 1;
    }
    proof {
        assert(v@.take(v@.len() as int) =~= v@);
        if v@.len() > 0 && v@[0] == '/' {
            assert(v@.take(1) =~= seq!['/']);
        } else if v@.len() > 0 {
            assert(v@.take(1) != seq!['/']) by {
                assert(v@.take(1)[0] != '/');
            }
        }
        assert(q@ =~= (if starts_with(v@, seq!['/']) {
            v@
        } else {
            seq!['/'] + v@
        }));
    }
    let ghost qv = q@;
    if !(q.len() > 0 && q[q.len() - 1] == '/') {
        q.push('/');
        proof {
            if qv.len() > 0 {
                assert(qv.skip(qv.len() - 1)[0] == qv[qv.len() - 1]);
            }
        }
    } else {
        assert(qv.skip(qv.len() - 1) =~= seq!['/']);
    }
    string_of(&q)
}

// ---------------------------------------------------------------------------
// Fingerprints
// ---------------------------------------------------------------------------
/// The SHA-256 digest of a byte string (`sha2::Sha256`).
pub uninterp spec fn sha256_of(b: Seq<u8>) -> Seq<u8>;

/// `sha2::Sha256::digest`: the 32-byte SHA-256 digest of `bytes`.
#[verifier::external_body]
fn sha256(bytes: &[u8]) -> (r: Vec<u8>)
    ensures
        r@ == sha256_of(bytes@),
        r@.len() == 32,
{
    Sha256::digest(bytes).to_vec()
}

/// Two lower-case hexadecimal digits per byte.
pub open spec fn hex_of(b: Seq<u8>) -> Seq<char>
    decreases b.len(),
{
    if b.len() == 0 {
        Seq::empty()
    } else {
        hex_of(b.drop_last()) + seq![
            hex_lower((b.last() / 16) as nat),
            hex_lower((b.last() % 16) as nat),
        ]
    }
}

fn hex_digit(d: u8) -> (r: char)
    requires
        d < 16,
    ensures
        r == hex_lower(d as nat),
{
    if d < 10 {
        ((48 + d) as u8) as char
    } else {
        ((87 + d) as u8) as char
    }
}

/// Lower-case hexadecimal text of the SHA-256 digest of `bytes`.
pub fn sha256_hex(bytes: &[u8]) -> (r: String)
    ensures
        r@ == hex_of(sha256_of(bytes@)),
{
    let d = sha256(bytes);
    let mut s = String::new();
    let mut i: usize = 0;
    assert(d@.take(0) =~= Seq::<u8>::empty());
    while i < d.len()
        invariant
            i <= d@.len(),
            d@ == sha256_of(bytes@),
            s@ == hex_of(d@.take(i as int)),
        decreases d.len() - i,
    {
        let b = d[i];
        s.push(hex_digit(b / 16));
        s.push(hex_digit(b % 16));
        assert(d@.take(i + 1).drop_last() =~= d@.take(i as int));
        assert(s@ =~= hex_of(d@.take(i + 1)));
        i += 1;
    }
    assert(d@.take(d@.len() as int) =~= d@);
    s
}

/// One line of the input manifest: `path \0 size \0 sha256(content) \n`.
pub open spec fn manifest_line(rel: Seq<char>, content: Seq<u8>) -> Seq<char> {
    rel + seq!['\0'] + decimal(content.len()) + seq!['\0'] + hex_of(sha256_of(content)) + seq![
        '\n',
    ]
}

/// The manifest bytes that one scanned file adds to the input fingerprint.
pub fn manifest_entry(rel: &str, content: &[u8]) -> (r: Vec<u8>)
    ensures
        r@ == vstd::utf8::encode_utf8(manifest_line(rel@, content@)),
{
    let mut s = String::new();
    push_str(&mut s, rel);
    s.push('\0');
    push_decimal(&mut s, content.len());
    s.push('\0');
    let h = sha256_hex(content);
    push_str(&mut s, h.as_str());
    s.push('\n');
    assert(s@ =~= manifest_line(rel@, content@));
    s.as_str().as_bytes_vec()
}

// ---------------------------------------------------------------------------
// search.json and meta.json
// ---------------------------------------------------------------------------
/// A note page's URL from the site root: the base path, then the page
/// components percent-encoded and joined with `/`.
pub open spec fn page_url(base: Seq<char>, page: Seq<Seq<char>>) -> Seq<char> {
    base + join(page.map_values(|c: Seq<char>| encode_chars(c)), seq!['/'])
}

/// The page URL of a note.
pub fn note_url(base: &str, page: &Vec<String>) -> (r: String)
    ensures
        r@ == page_url(base@, strings_view(page@)),
{
    let ghost pv = strings_view(page@);
    let ghost enc = pv.map_values(|c: Seq<char>| encode_chars(c));
    let mut s = String::new();
    push_str(&mut s, base);
    let mut k: usize = 0;
    assert(enc.take(0) =~= Seq::<Seq<char>>::empty());
    while k < page.len()
        invariant
            k <= page@.len(),
            pv == strings_view(page@),
            enc == pv.map_values(|c: Seq<char>| encode_chars(c)),
            s@ == base@ + join(enc.take(k as int), seq!['/']),
        decreases page.len() - k,
    {
        if k > 0 {
            s.push('/');
        }
        let e = encode_path_component(page[k].as_str());
        push_str(&mut s, e.as_str());
        assert(enc.take(k + 1).drop_last() =~= enc.take(k as int));
        proof {
            if k == 0 {
                assert(join(enc.take(1), seq!['/']) == enc.take(1)[0]);
            }
        }
        assert(s@ =~= base@ + join(enc.take(k + 1), seq!['/']));
        k += 1;
    }
    assert(enc.take(page@.len() as int) =~= enc);
    s
}

/// The section shown for a note: its top-level directory, `root` for a note
/// at the root.
pub open spec fn section_label(path: Seq<char>) -> Seq<char> {
    if top_section_of(path).len() == 0 {
        "root"@
    } else {
        top_section_of(path)
    }
}

/// One object of `search.json`.
pub open spec fn search_entry_text(
    id: nat,
    title: Seq<char>,
    path: Seq<char>,
    url: Seq<char>,
    size: nat,
    degree: nat,
) -> Seq<char> {
    "{\"id\":"@ + decimal(id) + ",\"title\":"@ + json_string(title) + ",\"path\":"@ + json_string(
        path,
    ) + ",\"url\":"@ + json_string(url) + ",\"section\":"@ + json_string(section_label(path))
        + ",\"choseong\":"@ + json_string(choseong_chars(nfc_of(title))) + ",\"size\":"@ + decimal(
        size,
    ) + ",\"degree\":"@ + decimal(degree) + "}"@
}

/// The `search.json` object of one note.
pub fn search_entry(id: usize, title: &str, path: &str, url: &str, size: u64, degree: u32) -> (r:
    String)
    ensures
        r@ == search_entry_text(id as nat, title@, path@, url@, size as nat, degree as nat),
{
    let mut s = String::new();
    push_str(&mut s, "{\"id\":");
    push_decimal(&mut s, id);
    push_str(&mut s, ",\"title\":");
    push_str(&mut s, json_str(title).as_str());
    push_str(&mut s, ",\"path\":");
    push_str(&mut s, json_str(path).as_str());
    push_str(&mut s, ",\"url\":");
    push_str(&mut s, json_str(url).as_str());
    push_str(&mut s, ",\"section\":");
    let top = top_section(path);
    let section = if top.is_empty() {
        string_of(&chars_of("root"))
    } else {
        string_of(&chars_of(top))
    };
    push_str(&mut s, json_str(section.as_str()).as_str());
    push_str(&mut s, ",\"choseong\":");
    push_str(&mut s, json_str(choseong(title).as_str()).as_str());
    push_str(&mut s, ",\"size\":");
    push_decimal_u64(&mut s, size);
    push_str(&mut s, ",\"degree\":");
    push_decimal(&mut s, degree as usize);
    push_str(&mut s, "}");
    assert(s@ =~= search_entry_text(id as nat, title@, path@, url@, size as nat, degree as nat));
    s
}

/// One object of the `sections` array of `meta.json`.
pub open spec fn section_entry_text(name: Seq<char>, count: nat) -> Seq<char> {
    "{\"name\":"@ + json_string(name) + ",\"count\":"@ + decimal(count) + "}"@
}

/// The `sections` objects, one per section.
pub open spec fn section_entries(sections: Seq<(String, usize)>) -> Seq<Seq<char>> {
    sections.map_values(|p: (String, usize)| section_entry_text(p.0@, p.1 as nat))
}

/// `meta.json`: node and CSR target counts, the sections (one per line),
/// build time, input fingerprint, layout name and seed.
pub open spec fn meta_text(
    nodes: nat,
    edges: nat,
    sections: Seq<Seq<char>>,
    built_at: Seq<char>,
    root_sha256: Seq<char>,
    seed: nat,
) -> Seq<char> {
    "{\n  \"nodes\": "@ + decimal(nodes) + ",\n  \"edges\": "@ + decimal(edges)
        + ",\n  \"sections\": "@ + (if sections.len() == 0 {
        seq!['[', ']']
    } else {
        seq!['[', '\n'] + crate::json::pretty_lines(sections, "    "@) + crate::json::spaces(2)
            + seq![']']
    }) + ",\n  \"built_at\": "@ + json_string(built_at) + ",\n  \"root_sha256\": "@ + json_string(
        root_sha256,
    ) + ",\n  \"layout\": \"fa2\",\n  \"seed\": "@ + decimal(seed) + "\n}\n"@
}

/// The text of `meta.json`.
pub fn meta_json(
    nodes: usize,
    edges: usize,
    sections: &Vec<(String, usize)>,
    built_at: &str,
    root_sha256: &str,
    seed: u64,
) -> (r: String)
    ensures
        r@ == meta_text(
            nodes as nat,
            edges as nat,
            section_entries(sections@),
            built_at@,
            root_sha256@,
            seed as nat,
        ),
{
    let mut arr = Arr::new();
    let mut k: usize = 0;
    let ghost se = section_entries(sections@);
    assert(se.take(0) =~= Seq::<Seq<char>>::empty());
    while k < sections.len()
        invariant
            k <= sections@.len(),
            se == section_entries(sections@),
            arr.items() == se.take(k as int),
        decreases sections.len() - k,
    {
        let mut e = String::new();
        push_str(&mut e, "{\"name\":");
        push_str(&mut e, json_str(sections[k].0.as_str()).as_str());
        push_str(&mut e, ",\"count\":");
        push_decimal(&mut e, sections[k].1);
        push_str(&mut e, "}");
        assert(e@ =~= se[k as int]);
        arr.push(e);
        assert(se.take(k + 1) =~= se.take(k as int).push(se[k as int]));
        k += 1;
    }
    assert(se.take(sections@.len() as int) =~= se);
    let indent = "    ";
    proof {
        reveal_strlit("    ");
        assert(vstd::string::is_ascii(indent));
        vstd::string::is_ascii_spec_bytes(indent);
        assert(indent.spec_bytes().len() == 4);
    }
    let secs = arr.finish_pretty(indent);
    let mut s = String::new();
    push_str(&mut s, "{\n  \"nodes\": ");
    push_decimal(&mut s, nodes);
    push_str(&mut s, ",\n  \"edges\": ");
    push_decimal(&mut s, edges);
    push_str(&mut s, ",\n  \"sections\": ");
    push_str(&mut s, secs.as_str());
    push_str(&mut s, ",\n  \"built_at\": ");
    push_str(&mut s, json_str(built_at).as_str());
    push_str(&mut s, ",\n  \"root_sha256\": ");
    push_str(&mut s, json_str(root_sha256).as_str());
    push_str(&mut s, ",\n  \"layout\": \"fa2\",\n  \"seed\": ");
    push_decimal_u64(&mut s, seed);
    push_str(&mut s, "\n}\n");
    assert(s@ =~= meta_text(
        nodes as nat,
        edges as nat,
        se,
        built_at@,
        root_sha256@,
        seed as nat,
    ));
    s
}

/// The objects of `search.json`, one per note, in note order.
pub open spec fn search_entries(
    titles: Seq<Seq<char>>,
    paths: Seq<Seq<char>>,
    pages: Seq<Seq<Seq<char>>>,
    base: Seq<char>,
    sizes: Seq<u64>,
    degrees: Seq<u32>,
) -> Seq<Seq<char>> {
    Seq::new(
        paths.len(),
        |i: int|
            search_entry_text(
                i as nat,
                titles[i],
                paths[i],
                page_url(base, pages[i]),
                sizes[i] as nat,
                degrees[i] as nat,
            ),
    )
}

/// The text of `search.json`: one object per note (id, title, path, page
/// URL, section, initial consonants of the title, file size, degree), on
/// one line.
pub fn search_json(
    titles: &Vec<String>,
    note_paths: &Vec<String>,
    pages: &Vec<Vec<String>>,
    base_path: &str,
    sizes: &Vec<u64>,
    degrees: &Vec<u32>,
) -> (r: String)
    requires
        titles@.len() >= note_paths@.len(),
        pages@.len() >= note_paths@.len(),
        sizes@.len() >= note_paths@.len(),
        degrees@.len() >= note_paths@.len(),
    ensures
        r@ == seq!['['] + join(
            search_entries(
                strings_view(titles@),
                strings_view(note_paths@),
                pages@.map_values(|p: Vec<String>| strings_view(p@)),
                base_path@,
                sizes@,
                degrees@,
            ),
            seq![','],
        ) + seq![']'],
{
    let ghost es = search_entries(
        strings_view(titles@),
        strings_view(note_paths@),
        pages@.map_values(|p: Vec<String>| strings_view(p@)),
        base_path@,
        sizes@,
        degrees@,
    );
    let mut arr = Arr::new();
    let mut i: usize = 0;
    assert(es.take(0) =~= Seq::<Seq<char>>::empty());
    while i < note_paths.len()
        invariant
            i <= note_paths@.len(),
            titles@.len() >= note_paths@.len(),
            pages@.len() >= note_paths@.len(),
            sizes@.len() >= note_paths@.len(),
            degrees@.len() >= note_paths@.len(),
            es == search_entries(
                strings_view(titles@),
                strings_view(note_paths@),
                pages@.map_values(|p: Vec<String>| strings_view(p@)),
                base_path@,
                sizes@,
                degrees@,
            ),
            arr.items() == es.take(i as int),
        decreases note_paths.len() - i,
    {
        let url = note_url(base_path, &pages[i]);
        let e = search_entry(i, titles[i].as_str(), note_paths[i].as_str(), url.as_str(), sizes[i], degrees[i]);
        assert(e@ == es[i as int]);
        arr.push(e);
        assert(es.take(i + 1) =~= es.take(i as int).push(es[i as int]));
        i += 1;
    }
    assert(es.take(note_paths@.len() as int) =~= es);
    arr.finish()
}

// ---------------------------------------------------------------------------
// Command-line numbers
// ---------------------------------------------------------------------------
/// Only ASCII digits.
pub open spec fn all_digits(s: Seq<char>) -> bool {
    forall|i: int| 0 <= i < s.len() ==> '0' <= #[trigger] s[i] <= '9'
}

/// The value of a string of decimal digits.
pub open spec fn digits_value(s: Seq<char>) -> nat
    decreases s.len(),
{
    if s.len() == 0 {
        0
    } else {
        digits_value(s.drop_last()) * 10 + ((s.last() as nat) - 48) as nat
    }
}

/// What `u64::from_str` accepts: an optional `+`, then at least one digit,
/// of a value that fits.
pub open spec fn u64_of_text(s: Seq<char>) -> Option<u64> {
    let d = if s.len() > 0 && s[0] == '+' {
        s.drop_first()
    } else {
        s
    };
    if d.len() > 0 && all_digits(d) && digits_value(d) <= u64::MAX {
        Some(digits_value(d) as u64)
    } else {
        None
    }
}

proof fn lemma_digits_grow(s: Seq<char>, i: int)
    requires
        0 <= i <= s.len(),
        all_digits(s),
    ensures
        digits_value(s.take(i)) <= digits_value(s),
    decreases s.len() - i,
{
    if i < s.len() {
        assert(s.drop_last().take(i) =~= s.take(i));
        lemma_digits_grow(s.drop_last(), i);
    } else {
        assert(s.take(i) =~= s);
    }
}

/// A command-line integer (`u64::from_str`): `None` when the text is not one.
pub fn parse_u64(s: &str) -> (r: Option<u64>)
    ensures
        r == u64_of_text(s@),
{
    let v = chars_of(s);
    let from: usize = if v.len() > 0 && v[0] == '+' {
        1
    } else {
        0
    };
    let ghost d = if s@.len() > 0 && s@[0] == '+' {
        s@.drop_first()
    } else {
        s@
    };
    assert(d =~= v@.skip(from as int));
    if from == v.len() {
        return None;
    }
    let mut acc: u64 = 0;
    let mut i = from;
    assert(d.take(0) =~= Seq::<char>::empty());
    while i < v.len()
        invariant
            from <= i <= v@.len(),
            v@ == s@,
            d == (if s@.len() > 0 && s@[0] == '+' {
                s@.drop_first()
            } else {
                s@
            }),
            d == v@.skip(from as int),
            all_digits(d.take(i - from)),
            acc == digits_value(d.take(i - from)),
        decreases v.len() - i,
    {
        let c = v[i];
        assert(d[i - from] == c);
        if !('0' <= c && c <= '9') {
            assert(!('0' <= d[i - from] <= '9'));
            assert(!all_digits(d));
            return None;
        }
        let digit = (c as u32 - 48) as u64;
        assert(d.take(i + 1 - from).drop_last() =~= d.take(i - from));
        match acc.checked_mul(10) {
            Some(m) => match m.checked_add(digit) {
                Some(t) => {
                    acc = t;
                },
                None => {
                    proof {
                        if all_digits(d) {
                            lemma_digits_grow(d, i + 1 - from);
                        }
                    }
                    return None;
                },
            },
            None => {
                proof {
                    if all_digits(d) {
                        lemma_digits_grow(d, i + 1 - from);
                    }
                }
                return None;
            },
        }
        i += 1;
    }
    assert(d.take(v@.len() - from) =~= d);
    Some(acc)
}

/// Cleaning a base path twice changes nothing more: the result already
/// starts and ends with `/`.
pub proof fn law_base_path_idempotent(p: Seq<char>)
    ensures
        clean_base_path(clean_base_path(p)) == clean_base_path(p),
        starts_with(clean_base_path(p), seq!['/']),
        ends_with(clean_base_path(p), seq!['/']),
{
    let q = if starts_with(p, seq!['/']) {
        p
    } else {
        seq!['/'] + p
    };
    assert(starts_with(q, seq!['/'])) by {
        if !starts_with(p, seq!['/']) {
            assert((seq!['/'] + p).take(1) =~= seq!['/']);
        }
    }
    let r = clean_base_path(p);
    if ends_with(q, seq!['/']) {
        assert(r == q);
    } else {
        assert(r == q + seq!['/']);
        assert((q + seq!['/']).take(1) =~= q.take(1));
        assert((q + seq!['/']).skip(q.len() as int) =~= seq!['/']);
        assert((q + seq!['/']).skip((q + seq!['/']).len() - 1) =~= seq!['/']);
    }
}

} // verus!
