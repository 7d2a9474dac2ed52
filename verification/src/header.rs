use vstd::prelude::*;

verus! {

use crate::error::MdxError;
use crate::unpack::{
    be_bytes_to_int, lemma_be_bytes_bound, lemma_pow256_values, push_char, read_be_uint,
    utf16_decode, utf16le_units, utf16_le_string,
};

/// Format generation of an MDX file. It drives the integer widths of the
/// index sections: V1 uses 32-bit fields, V2 64-bit fields.
#[derive(Debug, Clone, Copy, PartialEq, Eq, Structural)]
pub enum Version {
    V1,
    V2,
}

/// How text runs (headwords, definitions) of this dictionary are decoded.
/// A dictionary that declares an encoding this crate has no decoder for is
/// read as UTF-8.
#[derive(Debug, Clone, Copy, PartialEq, Eq, Structural)]
pub enum TextEncoding {
    Utf8,
    Utf16Le,
}

/// The metadata extracted once from the file's preamble.
pub struct Header {
    /// Engine generation, from the `GeneratedByEngineVersion` attribute:
    /// an engine version of 2 or more means V2.
    pub version: Version,
    /// The declared text encoding, verbatim from the `Encoding` attribute.
    pub encoding: String,
    /// The `Encrypted` attribute, verbatim. Its low two bits gate record
    /// and key-index encryption: bit 1 set means the key-index info table
    /// is scrambled with the fast-XOR cipher.
    pub encrypted: String,
    /// The decoder selected by `encoding`.
    pub encoding_kind: TextEncoding,
    /// Bit 1 of the numeric value of `encrypted`.
    pub key_index_encrypted: bool,
    /// The `Title` attribute, when the preamble carries one.
    pub title: Option<String>,
    /// The `Description` attribute, when the preamble carries one.
    pub description: Option<String>,
}

/// The integer width, in bytes, of index-section fields for a version.
pub open spec fn int_width(v: Version) -> nat {
    match v {
        Version::V1 => 4,
        Version::V2 => 8,
    }
}

/// Executable counterpart of `int_width`.
pub fn version_width(v: Version) -> (w: usize)
    ensures
        w == int_width(v),
{
    match v {
        Version::V1 => 4,
        Version::V2 => 8,
    }
}


/// Builds a character vector from characters pushed one at a time.
fn pattern_encoding() -> (r: Vec<char>)
    ensures
        r@ == encoding_pat(),
{
    let mut v: Vec<char> = Vec::new();
    v.push('E');
    v.push('n');
    v.push('c');
    v.push('o');
    v.push('d');
    v.push('i');
    v.push('n');
    v.push('g');
    v.push('=');
    v.push('"');
    proof {
        assert(v@ =~= encoding_pat());
    }
    v
}

fn pattern_encrypted() -> (r: Vec<char>)
    ensures
        r@ == encrypted_pat(),
{
    let mut v: Vec<char> = Vec::new();
    v.push('E');
    v.push('n');
    v.push('c');
    v.push('r');
    v.push('y');
    v.push('p');
    v.push('t');
    v.push('e');
    v.push('d');
    v.push('=');
    v.push('"');
    proof {
        assert(v@ =~= encrypted_pat());
    }
    v
}

fn pattern_engine_version() -> (r: Vec<char>)
    ensures
        r@ == engine_version_pat(),
{
    let mut v: Vec<char> = Vec::new();
    v.push('G');
    v.push('e');
    v.push('n');
    v.push('e');
    v.push('r');
    v.push('a');
    v.push('t');
    v.push('e');
    v.push('d');
    v.push('B');
    v.push('y');
    v.push('E');
    v.push('n');
    v.push('g');
    v.push('i');
    v.push('n');
    v.push('e');
    v.push('V');
    v.push('e');
    v.push('r');
    v.push('s');
    v.push('i');
    v.push('o');
    v.push('n');
    v.push('=');
    v.push('"');
    proof {
        assert(v@ =~= engine_version_pat());
    }
    v
}

fn pattern_title() -> (r: Vec<char>)
    ensures
        r@ == title_pat(),
{
    let mut v: Vec<char> = Vec::new();
    v.push('T');
    v.push('i');
    v.push('t');
    v.push('l');
    v.push('e');
    v.push('=');
    v.push('"');
    proof {
        assert(v@ =~= title_pat());
    }
    v
}

fn pattern_description() -> (r: Vec<char>)
    ensures
        r@ == description_pat(),
{
    let mut v: Vec<char> = Vec::new();
    v.push('D');
    v.push('e');
    v.push('s');
    v.push('c');
    v.push('r');
    v.push('i');
    v.push('p');
    v.push('t');
    v.push('i');
    v.push('o');
    v.push('n');
    v.push('=');
    v.push('"');
    proof {
        assert(v@ =~= description_pat());
    }
    v
}

fn pattern_utf16_name() -> (r: Vec<char>)
    ensures
        r@ == utf16_name(),
{
    let mut v: Vec<char> = Vec::new();
    v.push('U');
    v.push('T');
    v.push('F');
    v.push('-');
    v.push('1');
    v.push('6');
    proof {
        assert(v@ =~= utf16_name());
    }
    v
}

/// The first position at or past `from` where `pat` occurs.
pub open spec fn first_match(hay: Seq<char>, pat: Seq<char>, from: int) -> Option<int>
    decreases hay.len() - from,
    when from >= 0 && pat.len() >= 1
{
    if from + pat.len() > hay.len() {
        None
    } else if hay.subrange(from, from + pat.len()) == pat {
        Some(from)
    } else {
        first_match(hay, pat, from + 1)
    }
}

/// The value of the attribute that `pat` opens (`pat` ends with the opening
/// quote): the characters between the first occurrence of `pat` and the next
/// double quote.
pub open spec fn attr_of(hay: Seq<char>, pat: Seq<char>) -> Option<Seq<char>> {
    match first_match(hay, pat, 0) {
        None => None,
        Some(t) => match first_match(hay, seq!['"'], t + pat.len()) {
            None => None,
            Some(u) => Some(hay.subrange(t + pat.len(), u)),
        },
    }
}

pub open spec fn is_ascii_digit(c: char) -> bool {
    48 <= c as u32 <= 57
}

/// How many characters from `from` on are decimal digits.
pub open spec fn digit_run_len(s: Seq<char>, from: int) -> int
    decreases s.len() - from,
    when from >= 0
{
    if from >= s.len() {
        0
    } else if is_ascii_digit(s[from]) {
        1 + digit_run_len(s, from + 1)
    } else {
        0
    }
}

/// The number a run of decimal digits denotes.
pub open spec fn dec_int(s: Seq<char>) -> int
    decreases s.len(),
{
    if s.len() == 0 {
        0
    } else {
        dec_int(s.drop_last()) * 10 + (s.last() as u32 - 48)
    }
}

pub open spec fn pow10(n: nat) -> int
    decreases n,
{
    if n == 0 {
        1
    } else {
        10 * pow10((n - 1) as nat)
    }
}

/// The pattern that opens the `Encoding` attribute.
pub open spec fn encoding_pat() -> Seq<char> {
    seq!['E', 'n', 'c', 'o', 'd', 'i', 'n', 'g', '=', '"']
}

/// The pattern that opens the `Encrypted` attribute.
pub open spec fn encrypted_pat() -> Seq<char> {
    seq!['E', 'n', 'c', 'r', 'y', 'p', 't', 'e', 'd', '=', '"']
}

/// The pattern that opens the `GeneratedByEngineVersion` attribute.
pub open spec fn engine_version_pat() -> Seq<char> {
    seq![
        'G', 'e', 'n', 'e', 'r', 'a', 't', 'e', 'd', 'B', 'y', 'E', 'n', 'g', 'i', 'n', 'e', 'V',
        'e', 'r', 's', 'i', 'o', 'n', '=', '"',
    ]
}

/// The pattern that opens the optional `Title` attribute.
pub open spec fn title_pat() -> Seq<char> {
    seq!['T', 'i', 't', 'l', 'e', '=', '"']
}

/// The pattern that opens the optional `Description` attribute.
pub open spec fn description_pat() -> Seq<char> {
    seq!['D', 'e', 's', 'c', 'r', 'i', 'p', 't', 'i', 'o', 'n', '=', '"']
}

/// The characters that select the UTF-16 decoder.
pub open spec fn utf16_name() -> Seq<char> {
    seq!['U', 'T', 'F', '-', '1', '6']
}

/// An engine version names V2 when its integer part is at least two: its
/// first character is a digit other than `0` and `1`, or a second digit
/// follows it.
pub open spec fn engine_is_v2(value: Seq<char>) -> bool {
    value[0] as u32 >= 50 || (value.len() >= 2 && is_ascii_digit(value[1]))
}

/// A parsed header as mathematics, with how many bytes the section took.
pub ghost struct HeaderSpec {
    pub version: Version,
    pub encoding: Seq<char>,
    pub encrypted: Seq<char>,
    pub encoding_kind: TextEncoding,
    pub key_index_encrypted: bool,
    pub title: Option<Seq<char>>,
    pub description: Option<Seq<char>>,
    pub consumed: int,
}

/// The header that a file image denotes: a 4-byte big-endian length, that
/// many bytes of UTF-16LE attribute text, then a 4-byte checksum that is
/// skipped. The text must decode strictly and carry the `Encoding`,
/// `Encrypted` and `GeneratedByEngineVersion` attributes; the engine version
/// must open with a digit, and the digit run opening `Encrypted` (at most 19
/// digits, possibly empty) gives the encryption gate bits.
pub open spec fn header_spec(data: Seq<u8>) -> Option<HeaderSpec> {
    if data.len() < 4 {
        None
    } else {
        let hl = be_bytes_to_int(data.subrange(0, 4));
        if 4 + hl + 4 > data.len() || hl % 2 == 1 {
            None
        } else {
            let blob = data.subrange(4, 4 + hl);
            match utf16_decode(utf16le_units(blob)) {
                None => None,
                Some(chars) => {
                    match (attr_of(chars, encoding_pat()), attr_of(chars, encrypted_pat()), attr_of(
                        chars,
                        engine_version_pat(),
                    )) {
                        (Some(enc_v), Some(crypt_v), Some(ver_v)) => {
                            let run = crypt_v.subrange(0, digit_run_len(crypt_v, 0));
                            if ver_v.len() == 0 || !is_ascii_digit(ver_v[0]) || run.len() > 19 {
                                None
                            } else {
                                Some(
                                    (HeaderSpec {
                                        version: if engine_is_v2(ver_v) {
                                            Version::V2
                                        } else {
                                            Version::V1
                                        },
                                        encoding: enc_v,
                                        encrypted: crypt_v,
                                        encoding_kind: if enc_v == utf16_name() {
                                            TextEncoding::Utf16Le
                                        } else {
                                            TextEncoding::Utf8
                                        },
                                        key_index_encrypted: (dec_int(run) / 2) % 2 == 1,
                                        title: attr_of(chars, title_pat()),
                                        description: attr_of(chars, description_pat()),
                                        consumed: 4 + hl + 4,
                                    }),
                                )
                            }
                        },
                        _ => None,
                    }
                },
            }
        }
    }
}

/// Whether `pat` occurs in `hay` starting at `t`.
fn match_here(hay: &[char], pat: &[char], t: usize) -> (b: bool)
    requires
        t + pat@.len() <= hay@.len(),
    ensures
        b == (hay@.subrange(t as int, t + pat@.len()) == pat@),
{
    let n = hay.len();
    let m = pat.len();
    let mut j: usize = 0;
    while j < m
        invariant
            n == hay@.len(),
            m == pat@.len(),
            t + m <= hay@.len(),
            j <= m,
            forall|k: int| 0 <= k < j ==> hay@[t + k] == pat@[k],
        decreases m - j,
    {
        if hay[t + j] != pat[j] {
            proof {
                assert(hay@.subrange(t as int, t + pat@.len())[j as int] == hay@[t + j]);
            }
            return false;
        }
        j = j + 1;
    }
    proof {
        assert(hay@.subrange(t as int, t + pat@.len()) =~= pat@);
    }
    true
}

/// Finds the first occurrence of `pat` at or past `from`.
fn find_sub(hay: &[char], pat: &[char], from: usize) -> (r: Option<usize>)
    requires
        from <= hay@.len(),
        pat@.len() >= 1,
    ensures
        match r {
            Some(t) => first_match(hay@, pat@, from as int) == Some(t as int) && from <= t && t
                + pat@.len() <= hay@.len(),
            None => first_match(hay@, pat@, from as int) is None,
        },
{
    let n = hay.len();
    let m = pat.len();
    if m > n || from > n - m {
        proof {
            assert(first_match(hay@, pat@, from as int) is None);
        }
        return None;
    }
    let mut t = from;
    while t <= n - m
        invariant
            n == hay@.len(),
            m == pat@.len(),
            1 <= m <= n,
            from <= t,
            t <= n - m + 1,
            first_match(hay@, pat@, from as int) == first_match(hay@, pat@, t as int),
        decreases n - t,
    {
        if match_here(hay, pat, t) {
            return Some(t);
        }
        t = t + 1;
    }
    None
}

/// Parses the header section: the length-prefixed UTF-16LE metadata text and
/// its trailing checksum, yielding the populated `Header` and how many bytes
/// the section took. A mismatched length, text that is not UTF-16LE, or a
/// missing required attribute is fatal.
pub fn parse_header(data: &[u8]) -> (r: Result<(Header, usize), MdxError>)
    ensures
        match r {
            Ok(t) => header_spec(data@) == Some(
                (HeaderSpec {
                    version: t.0.version,
                    encoding: t.0.encoding@,
                    encrypted: t.0.encrypted@,
                    encoding_kind: t.0.encoding_kind,
                    key_index_encrypted: t.0.key_index_encrypted,
                    title: match t.0.title {
                        Some(ti) => Some(ti@),
                        None => None,
                    },
                    description: match t.0.description {
                        Some(de) => Some(de@),
                        None => None,
                    },
                    consumed: t.1 as int,
                }),
            ),
            Err(_) => header_spec(data@) is None,
        },
{
    let n = data.len();
    if n < 4 {
        return Err(MdxError::Truncated);
    }
    proof {
        lemma_pow256_values();
        lemma_be_bytes_bound(data@.subrange(0, 4));
    }
    let hl64 = read_be_uint(data, 0, 4);
    if hl64 > (n as u64) || 8 > n - (hl64 as usize) {
        return Err(MdxError::Truncated);
    }
    let hl = hl64 as usize;
    if hl % 2 == 1 {
        return Err(MdxError::TextDecoding);
    }
    let blob = &data[4..4 + hl];
    let decoded = match utf16_le_string(blob) {
        Some(s) => s,
        None => {
            return Err(MdxError::TextDecoding);
        },
    };
    let chars: Vec<char> = str_chars(decoded.as_str());
    let ghost gchars = chars@;
    let enc_v = match find_attr(&chars, &pattern_encoding()) {
        Some(v) => v,
        None => {
            proof {
                assert(attr_of(gchars, encoding_pat()) is None);
            }
            return Err(MdxError::Malformed);
        },
    };
    proof {
        assert(attr_of(gchars, encoding_pat()) == Some(enc_v@));
    }
    let crypt_v = match find_attr(&chars, &pattern_encrypted()) {
        Some(v) => v,
        None => {
            proof {
                assert(attr_of(gchars, encrypted_pat()) is None);
            }
            return Err(MdxError::Malformed);
        },
    };
    let ver_v = match find_attr(&chars, &pattern_engine_version()) {
        Some(v) => v,
        None => {
            proof {
                assert(attr_of(gchars, engine_version_pat()) is None);
            }
            return Err(MdxError::Malformed);
        },
    };
    if ver_v.len() == 0 {
        return Err(MdxError::Malformed);
    }
    let v0 = ver_v[0];
    if !((v0 as u32) >= 48 && (v0 as u32) <= 57) {
        return Err(MdxError::Malformed);
    }
    let version = if (v0 as u32) >= 50 || (ver_v.len() >= 2 && (ver_v[1] as u32) >= 48 && (
    ver_v[1] as u32) <= 57) {
        Version::V2
    } else {
        Version::V1
    };
    // read the digit run that opens the Encrypted value
    let ghost grun = crypt_v@.subrange(0, digit_run_len(crypt_v@, 0));
    let mut rl: usize = 0;
    while rl < crypt_v.len() && (crypt_v[rl] as u32) >= 48 && (crypt_v[rl] as u32) <= 57
        invariant
            rl <= crypt_v@.len(),
            digit_run_len(crypt_v@, 0) == rl + digit_run_len(crypt_v@, rl as int),
            forall|k: int| 0 <= k < rl ==> is_ascii_digit(#[trigger] crypt_v@[k]),
        decreases crypt_v@.len() - rl,
    {
        rl = rl + 1;
    }
    proof {
        assert(digit_run_len(crypt_v@, rl as int) == 0);
        assert(grun.len() == rl);
        assert(forall|k: int| 0 <= k < grun.len() ==> is_ascii_digit(#[trigger] grun[k]));
    }
    if rl > 19 {
        return Err(MdxError::Malformed);
    }
    let mut flags: u64 = 0;
    let mut k: usize = 0;
    proof {
        assert(grun.subrange(0, 0) =~= Seq::<char>::empty());
        lemma_pow10_19();
    }
    while k < rl
        invariant
            rl <= 19,
            rl <= crypt_v@.len(),
            grun == crypt_v@.subrange(0, rl as int),
            grun.len() == rl,
            forall|j: int| 0 <= j < grun.len() ==> is_ascii_digit(#[trigger] grun[j]),
            k <= rl,
            flags == dec_int(grun.subrange(0, k as int)),
            flags < pow10(k as nat),
        decreases rl - k,
    {
        proof {
            lemma_pow10_19();
            lemma_pow10_monotone(k as nat + 1, 19);
            let pre = grun.subrange(0, k as int);
            let cur = grun.subrange(0, k + 1);
            assert(cur.drop_last() =~= pre);
            assert(cur.last() == grun[k as int]);
            assert(grun[k as int] == crypt_v@[k as int]);
        }
        let c = crypt_v[k];
        flags = flags * 10 + (((c as u32) - 48) as u64);
        k = k + 1;
    }
    proof {
        assert(grun.subrange(0, rl as int) =~= grun);
    }
    let key_index_encrypted = (flags / 2) % 2 == 1;
    // the raw attribute strings, kept verbatim
    let encoding = chars_to_string(&enc_v);
    let encrypted = chars_to_string(&crypt_v);
    let is_utf16 = chars_eq(&enc_v, &pattern_utf16_name());
    let encoding_kind = if is_utf16 {
        TextEncoding::Utf16Le
    } else {
        TextEncoding::Utf8
    };
    let title = match find_attr(&chars, &pattern_title()) {
        Some(v) => Some(chars_to_string(&v)),
        None => None,
    };
    let description = match find_attr(&chars, &pattern_description()) {
        Some(v) => Some(chars_to_string(&v)),
        None => None,
    };
    let header = Header {
        version,
        encoding,
        encrypted,
        encoding_kind,
        key_index_encrypted,
        title,
        description,
    };
    proof {
        assert(data@.subrange(4, 4 + hl64 as int) =~= blob@);
    }
    Ok((header, 4 + hl + 4))
}

pub proof fn lemma_pow10_monotone(a: nat, b: nat)
    requires
        a <= b,
    ensures
        1 <= pow10(a) <= pow10(b),
    decreases b,
{
    if b == 0 {
    } else if a == b {
        lemma_pow10_monotone(0, (a - 1) as nat);
    } else {
        lemma_pow10_monotone(a, (b - 1) as nat);
    }
}

pub proof fn lemma_pow10_19()
    ensures
        pow10(19) == 0x8AC7230489E80000,
{
    reveal_with_fuel(pow10, 20);
}

/// Relies on str::chars: the characters of a string, in order.
#[verifier::external_body]
fn str_chars(s: &str) -> (r: Vec<char>)
    ensures
        r@ == s@,
{
    s.chars().collect()
}

/// Extracts one attribute value: the characters between the first occurrence
/// of `pat` (which ends with the opening quote) and the next double quote.
fn find_attr(chars: &Vec<char>, pat: &Vec<char>) -> (r: Option<Vec<char>>)
    requires
        pat@.len() >= 1,
    ensures
        match r {
            Some(v) => attr_of(chars@, pat@) == Some(v@),
            None => attr_of(chars@, pat@) is None,
        },
{
    let n = chars.len();
    let t = match find_sub(chars.as_slice(), pat.as_slice(), 0) {
        Some(t) => t,
        None => {
            return None;
        },
    };
    let v0 = t + pat.len();
    let mut quote: Vec<char> = Vec::new();
    quote.push('"');
    proof {
        assert(quote@ =~= seq!['"']);
    }
    let u = match find_sub(chars.as_slice(), quote.as_slice(), v0) {
        Some(u) => u,
        None => {
            return None;
        },
    };
    let mut out: Vec<char> = Vec::new();
    let mut k = v0;
    while k < u
        invariant
            v0 <= k <= u,
            u <= chars@.len(),
            out@ == chars@.subrange(v0 as int, k as int),
        decreases u - k,
    {
        proof {
            assert(chars@.subrange(v0 as int, k + 1) =~= chars@.subrange(v0 as int, k as int).push(
                chars@[k as int],
            ));
        }
        out.push(chars[k]);
        k = k + 1;
    }
    Some(out)
}

/// Builds an owned string out of a character vector.
fn chars_to_string(chars: &Vec<char>) -> (r: String)
    ensures
        r@ == chars@,
{
    let mut out = String::new();
    let mut k: usize = 0;
    while k < chars.len()
        invariant
            k <= chars@.len(),
            out@ == chars@.subrange(0, k as int),
        decreases chars@.len() - k,
    {
        proof {
            assert(chars@.subrange(0, k + 1) =~= chars@.subrange(0, k as int).push(
                chars@[k as int],
            ));
        }
        push_char(&mut out, chars[k]);
        k = k + 1;
    }
    proof {
        assert(chars@.subrange(0, chars@.len() as int) =~= chars@);
    }
    out
}

/// Whether two character vectors hold the same characters.
fn chars_eq(a: &Vec<char>, b: &Vec<char>) -> (r: bool)
    ensures
        r == (a@ == b@),
{
    if a.len() != b.len() {
        return false;
    }
    let mut k: usize = 0;
    while k < a.len()
        invariant
            a@.len() == b@.len(),
            k <= a@.len(),
            forall|j: int| 0 <= j < k ==> a@[j] == b@[j],
        decreases a@.len() - k,
    {
        if a[k] != b[k] {
            return false;
        }
        k = k + 1;
    }
    proof {
        assert(a@ =~= b@);
    }
    true
}

} // verus!
