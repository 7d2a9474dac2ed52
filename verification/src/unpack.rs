use vstd::prelude::*;

verus! {

use vstd::utf8::{decode_utf8, is_scalar, valid_utf8};
use crate::util::opt_prepend;

/// Byte order selector for the fixed-width integer decoders.
pub enum Endian {
    /// Least significant byte first.
    LE,
    /// Most significant byte first.
    BE,
}

/// The integer a byte sequence denotes with the most significant byte first.
pub open spec fn be_bytes_to_int(s: Seq<u8>) -> int
    decreases s.len(),
{
    if s.len() == 0 {
        0
    } else {
        be_bytes_to_int(s.drop_last()) * 256 + s.last()
    }
}

/// The integer a byte sequence denotes with the least significant byte first.
pub open spec fn le_bytes_to_int(s: Seq<u8>) -> int
    decreases s.len(),
{
    if s.len() == 0 {
        0
    } else {
        le_bytes_to_int(s.drop_first()) * 256 + s.first()
    }
}

/// 256 to the power `n`: the number of values that `n` bytes can hold.
pub open spec fn pow256(n: nat) -> int
    decreases n,
{
    if n == 0 {
        1
    } else {
        256 * pow256((n - 1) as nat)
    }
}

pub proof fn lemma_pow256_monotone(a: nat, b: nat)
    requires
        a <= b,
    ensures
        1 <= pow256(a) <= pow256(b),
    decreases b,
{
    if b == 0 {
    } else if a == b {
        lemma_pow256_monotone(0, (a - 1) as nat);
    } else {
        lemma_pow256_monotone(a, (b - 1) as nat);
    }
}

pub proof fn lemma_pow256_values()
    ensures
        pow256(0) == 1,
        pow256(1) == 0x100,
        pow256(2) == 0x10000,
        pow256(4) == 0x100000000,
        pow256(8) == 0x10000000000000000,
{
    reveal_with_fuel(pow256, 9);
}

pub proof fn lemma_be_bytes_bound(s: Seq<u8>)
    ensures
        0 <= be_bytes_to_int(s) < pow256(s.len()),
    decreases s.len(),
{
    if s.len() > 0 {
        lemma_be_bytes_bound(s.drop_last());
    }
}

pub proof fn lemma_le_bytes_bound(s: Seq<u8>)
    ensures
        0 <= le_bytes_to_int(s) < pow256(s.len()),
    decreases s.len(),
{
    if s.len() > 0 {
        lemma_le_bytes_bound(s.drop_first());
    }
}

/// Reads `width` big-endian bytes starting at `pos` as an unsigned integer.
pub fn read_be_uint(bytes: &[u8], pos: usize, width: usize) -> (r: u64)
    requires
        width <= 8,
        pos + width <= bytes@.len(),
    ensures
        r as int == be_bytes_to_int(bytes@.subrange(pos as int, pos + width)),
{
    let n = bytes.len();
    proof {
        lemma_pow256_values();
        assert(bytes@.subrange(pos as int, pos as int) =~= Seq::<u8>::empty());
    }
    let mut acc: u64 = 0;
    let mut k: usize = 0;
    while k < width
        invariant
            width <= 8,
            n == bytes@.len(),
            pos + width <= bytes@.len(),
            k <= width,
            acc as int == be_bytes_to_int(bytes@.subrange(pos as int, pos + k)),
            (acc as int) < pow256(k as nat),
        decreases width - k,
    {
        let b = bytes[pos + k];
        proof {
            lemma_pow256_values();
            lemma_pow256_monotone(k as nat + 1, 8);
            let pre = bytes@.subrange(pos as int, pos + k);
            let cur = bytes@.subrange(pos as int, pos + k + 1);
            assert(cur.drop_last() =~= pre);
            assert(cur.last() == bytes@[pos + k]);
        }
        acc = acc * 256 + (b as u64);
        k = k + 1;
    }
    proof {
        assert(bytes@.subrange(pos as int, pos + width) == bytes@.subrange(
            pos as int,
            pos + width as int,
        ));
    }
    acc
}

/// Reads `width` little-endian bytes starting at `pos` as an unsigned integer.
pub fn read_le_uint(bytes: &[u8], pos: usize, width: usize) -> (r: u64)
    requires
        width <= 8,
        pos + width <= bytes@.len(),
    ensures
        r as int == le_bytes_to_int(bytes@.subrange(pos as int, pos + width)),
{
    let n = bytes.len();
    proof {
        lemma_pow256_values();
        assert(bytes@.subrange(pos + width, pos + width) =~= Seq::<u8>::empty());
    }
    let mut acc: u64 = 0;
    let mut k: usize = width;
    while k > 0
        invariant
            width <= 8,
            n == bytes@.len(),
            pos + width <= bytes@.len(),
            k <= width,
            acc as int == le_bytes_to_int(bytes@.subrange(pos + k, pos + width)),
            (acc as int) < pow256((width - k) as nat),
        decreases k,
    {
        k = k - 1;
        let b = bytes[pos + k];
        proof {
            lemma_pow256_values();
            lemma_pow256_monotone((width - k - 1) as nat + 1, 8);
            let pre = bytes@.subrange(pos + k + 1, pos + width);
            let cur = bytes@.subrange(pos + k, pos + width);
            assert(cur.drop_first() =~= pre);
            assert(cur.first() == bytes@[pos + k]);
        }
        acc = acc * 256 + (b as u64);
    }
    acc
}

/// Decodes the first two bytes as a 16-bit integer in the given byte order.
pub fn unpack_u16(bytes: &[u8], byteorder: Endian) -> (r: u16)
    requires
        bytes@.len() >= 2,
    ensures
        r as int == match byteorder {
            Endian::LE => le_bytes_to_int(bytes@.subrange(0, 2)),
            Endian::BE => be_bytes_to_int(bytes@.subrange(0, 2)),
        },
{
    proof {
        lemma_pow256_values();
        lemma_le_bytes_bound(bytes@.subrange(0, 2));
        lemma_be_bytes_bound(bytes@.subrange(0, 2));
    }
    match byteorder {
        Endian::LE => read_le_uint(bytes, 0, 2) as u16,
        Endian::BE => read_be_uint(bytes, 0, 2) as u16,
    }
}

/// Decodes the first four bytes as a 32-bit integer in the given byte order.
pub fn unpack_u32(bytes: &[u8], byteorder: Endian) -> (r: u32)
    requires
        bytes@.len() >= 4,
    ensures
        r as int == match byteorder {
            Endian::LE => le_bytes_to_int(bytes@.subrange(0, 4)),
            Endian::BE => be_bytes_to_int(bytes@.subrange(0, 4)),
        },
{
    proof {
        lemma_pow256_values();
        lemma_le_bytes_bound(bytes@.subrange(0, 4));
        lemma_be_bytes_bound(bytes@.subrange(0, 4));
    }
    match byteorder {
        Endian::LE => read_le_uint(bytes, 0, 4) as u32,
        Endian::BE => read_be_uint(bytes, 0, 4) as u32,
    }
}

/// Decodes the first eight bytes as a 64-bit integer in the given byte order.
pub fn unpack_u64(bytes: &[u8], byteorder: Endian) -> (r: u64)
    requires
        bytes@.len() >= 8,
    ensures
        r as int == match byteorder {
            Endian::LE => le_bytes_to_int(bytes@.subrange(0, 8)),
            Endian::BE => be_bytes_to_int(bytes@.subrange(0, 8)),
        },
{
    match byteorder {
        Endian::LE => read_le_uint(bytes, 0, 8),
        Endian::BE => read_be_uint(bytes, 0, 8),
    }
}

/// The 16-bit code units that a little-endian byte sequence denotes, pairing
/// adjacent bytes. A trailing odd byte is not a unit.
pub open spec fn utf16le_units(bytes: Seq<u8>) -> Seq<u16> {
    Seq::new(bytes.len() / 2, |i: int| (bytes[2 * i] + bytes[2 * i + 1] * 256) as u16)
}

pub open spec fn is_high_surrogate(u: u16) -> bool {
    0xD800 <= u < 0xDC00
}

pub open spec fn is_low_surrogate(u: u16) -> bool {
    0xDC00 <= u < 0xE000
}

/// The Unicode scalar value that a surrogate pair denotes.
pub open spec fn surrogate_scalar(hi: u16, lo: u16) -> int
    recommends
        is_high_surrogate(hi),
        is_low_surrogate(lo),
{
    0x10000 + (hi - 0xD800) * 0x400 + (lo - 0xDC00)
}

/// Strict UTF-16 decoding of a code-unit sequence: `None` on any unpaired
/// surrogate, with no replacement.
pub open spec fn utf16_decode(units: Seq<u16>) -> Option<Seq<char>>
    decreases units.len(),
{
    if units.len() == 0 {
        Some(Seq::empty())
    } else if !is_high_surrogate(units[0]) && !is_low_surrogate(units[0]) {
        opt_prepend(seq![units[0] as u32 as char], utf16_decode(units.drop_first()))
    } else if is_high_surrogate(units[0]) && units.len() >= 2 && is_low_surrogate(units[1]) {
        opt_prepend(
            seq![surrogate_scalar(units[0], units[1]) as u32 as char],
            utf16_decode(units.skip(2)),
        )
    } else {
        None
    }
}

/// Lossy UTF-16 decoding: each unpaired surrogate unit becomes the
/// replacement character.
pub open spec fn utf16_decode_lossy(units: Seq<u16>) -> Seq<char>
    decreases units.len(),
{
    if units.len() == 0 {
        Seq::empty()
    } else if !is_high_surrogate(units[0]) && !is_low_surrogate(units[0]) {
        seq![units[0] as u32 as char] + utf16_decode_lossy(units.drop_first())
    } else if is_high_surrogate(units[0]) && units.len() >= 2 && is_low_surrogate(units[1]) {
        seq![surrogate_scalar(units[0], units[1]) as u32 as char] + utf16_decode_lossy(
            units.skip(2),
        )
    } else {
        seq!['\u{FFFD}'] + utf16_decode_lossy(units.drop_first())
    }
}

/// Lossy UTF-16LE decoding of a whole byte run, the trailing odd byte (if
/// any) read as one more damaged unit.
pub open spec fn utf16le_lossy_decode(bytes: Seq<u8>) -> Seq<char> {
    utf16_decode_lossy(utf16le_units(bytes)) + if bytes.len() % 2 == 1 {
        seq!['\u{FFFD}']
    } else {
        Seq::<char>::empty()
    }
}

/// Relies on char::from_u32: `Some` holds the character with the given code
/// point exactly when the value is a Unicode scalar, and `None` comes
/// otherwise.
#[verifier::external_body]
pub(crate) fn char_from_u32(u: u32) -> (r: Option<char>)
    ensures
        r is Some <==> is_scalar(u),
        r matches Some(c) ==> c == u as char,
{
    char::from_u32(u)
}

/// Relies on String::push: appends one character to the string.
#[verifier::external_body]
pub(crate) fn push_char(s: &mut String, c: char)
    ensures
        final(s)@ == old(s)@.push(c),
{
    s.push(c);
}

/// Relies on String::from_utf8: `Some` exactly when the bytes are valid
/// UTF-8, in which case the string is their decoding.
#[verifier::external_body]
pub(crate) fn string_from_utf8(v: Vec<u8>) -> (r: Option<String>)
    ensures
        r is Some <==> valid_utf8(v@),
        r matches Some(s) ==> s@ == decode_utf8(v@),
{
    String::from_utf8(v).ok()
}

/// What String::from_utf8_lossy returns on arbitrary bytes; it depends on
/// the bytes alone.
pub uninterp spec fn utf8_lossy_of(bytes: Seq<u8>) -> Seq<char>;

/// Relies on String::from_utf8_lossy: on valid UTF-8 the result is exactly
/// the decoding of the bytes; invalid sequences are replaced.
#[verifier::external_body]
pub(crate) fn string_from_utf8_lossy(v: &[u8]) -> (r: String)
    ensures
        r@ == utf8_lossy_of(v@),
        valid_utf8(v@) ==> r@ == decode_utf8(v@),
{
    String::from_utf8_lossy(v).to_string()
}

/// Decodes a UTF-16LE byte run into a string. Fails (`None`) when the byte
/// length is odd or any code-unit sequence is an unpaired surrogate; it never
/// substitutes a replacement character.
pub fn utf16_le_string(slice: &[u8]) -> (r: Option<String>)
    ensures
        slice@.len() % 2 == 1 ==> r is None,
        slice@.len() % 2 == 0 ==> {
            &&& r is Some <==> utf16_decode(utf16le_units(slice@)) is Some
            &&& (r matches Some(s) ==> Some(s@) == utf16_decode(utf16le_units(slice@)))
        },
{
    if slice.len() % 2 == 1 {
        return None;
    }
    let ghost units = utf16le_units(slice@);
    let n: usize = slice.len() / 2;
    let mut out = String::new();
    let mut i: usize = 0;
    proof {
        assert(units.skip(0) =~= units);
    }
    while i < n
        invariant
            slice@.len() % 2 == 0,
            n == slice@.len() / 2,
            units == utf16le_units(slice@),
            units.len() == n,
            i <= n,
            utf16_decode(units) == opt_prepend(out@, utf16_decode(units.skip(i as int))),
        decreases n - i,
    {
        let u: u16 = read_unit(slice, i);
        let ghost rest = units.skip(i as int);
        proof {
            assert(rest[0] == units[i as int]);
            assert(rest.len() == n - i);
        }
        if !(0xD800 <= u && u < 0xE000) {
            let c = match char_from_u32(u as u32) {
                Some(c) => c,
                None => {
                    proof {
                        assert(is_scalar(u as u32));
                    }
                    unreached()
                },
            };
            proof {
                assert(rest.drop_first() =~= units.skip(i + 1));
                assert(utf16_decode(rest) == opt_prepend(
                    seq![units[i as int] as u32 as char],
                    utf16_decode(units.skip(i + 1)),
                ));
            }
            push_char(&mut out, c);
            i = i + 1;
        } else if u < 0xDC00 && i + 1 < n {
            let u2: u16 = read_unit(slice, i + 1);
            proof {
                assert(rest[1] == units[i + 1]);
            }
            if 0xDC00 <= u2 && u2 < 0xE000 {
                let scalar: u32 = 0x10000 + ((u as u32) - 0xD800) * 0x400 + ((u2 as u32)
                    - 0xDC00);
                proof {
                    assert(scalar == surrogate_scalar(units[i as int], units[i + 1]));
                    assert(is_scalar(scalar));
                }
                let c = match char_from_u32(scalar) {
                    Some(c) => c,
                    None => unreached(),
                };
                proof {
                    assert(rest.skip(2) =~= units.skip(i + 2));
                    assert(utf16_decode(rest) == opt_prepend(
                        seq![surrogate_scalar(units[i as int], units[i + 1]) as u32 as char],
                        utf16_decode(units.skip(i + 2)),
                    ));
                }
                push_char(&mut out, c);
                i = i + 2;
            } else {
                proof {
                    assert(utf16_decode(rest) is None);
                }
                return None;
            }
        } else {
            proof {
                if is_high_surrogate(u) {
                    if rest.len() >= 2 {
                        assert(rest[1] == units[i + 1]);
                    }
                }
                assert(utf16_decode(rest) is None);
            }
            return None;
        }
    }
    proof {
        assert(units.skip(n as int) =~= Seq::<u16>::empty());
        assert(utf16_decode(units.skip(n as int)) == Some(Seq::<char>::empty()));
        assert(out@ + Seq::<char>::empty() =~= out@);
    }
    Some(out)
}

/// Reads the `i`-th little-endian 16-bit code unit of a byte slice.
fn read_unit(slice: &[u8], i: usize) -> (u: u16)
    requires
        2 * i + 1 < slice@.len(),
        i < utf16le_units(slice@).len(),
    ensures
        u == utf16le_units(slice@)[i as int],
{
    let n = slice.len();
    let lo = slice[2 * i];
    let hi = slice[2 * i + 1];
    (lo as u16) + (hi as u16) * 256
}

/// Lossy UTF-16LE decoding of a whole byte run: unpaired surrogates and a
/// trailing odd byte each become the replacement character.
pub fn utf16_le_lossy(slice: &[u8]) -> (r: String)
    ensures
        r@ == utf16le_lossy_decode(slice@),
{
    let ghost units = utf16le_units(slice@);
    let n: usize = slice.len() / 2;
    let mut out = String::new();
    let mut i: usize = 0;
    proof {
        assert(units.skip(0) =~= units);
    }
    while i < n
        invariant
            n == slice@.len() / 2,
            units == utf16le_units(slice@),
            units.len() == n,
            i <= n,
            utf16_decode_lossy(units) == out@ + utf16_decode_lossy(units.skip(i as int)),
        decreases n - i,
    {
        let u: u16 = read_unit(slice, i);
        let ghost rest = units.skip(i as int);
        proof {
            assert(rest[0] == units[i as int]);
            assert(rest.len() == n - i);
        }
        if !(0xD800 <= u && u < 0xE000) {
            let c = match char_from_u32(u as u32) {
                Some(c) => c,
                None => {
                    proof {
                        assert(is_scalar(u as u32));
                    }
                    unreached()
                },
            };
            proof {
                assert(rest.drop_first() =~= units.skip(i + 1));
                assert(out@.push(c) + utf16_decode_lossy(units.skip(i + 1)) =~= out@
                    + utf16_decode_lossy(rest));
            }
            push_char(&mut out, c);
            i = i + 1;
        } else {
            let mut paired = false;
            let mut u2: u16 = 0;
            if u < 0xDC00 && i + 1 < n {
                u2 = read_unit(slice, i + 1);
                proof {
                    assert(rest[1] == units[i + 1]);
                }
                if 0xDC00 <= u2 && u2 < 0xE000 {
                    paired = true;
                }
            }
            if paired {
                let scalar: u32 = 0x10000 + ((u as u32) - 0xD800) * 0x400 + ((u2 as u32)
                    - 0xDC00);
                proof {
                    assert(scalar == surrogate_scalar(units[i as int], units[i + 1]));
                    assert(is_scalar(scalar));
                }
                let c = match char_from_u32(scalar) {
                    Some(c) => c,
                    None => unreached(),
                };
                proof {
                    assert(rest.skip(2) =~= units.skip(i + 2));
                    assert(out@.push(c) + utf16_decode_lossy(units.skip(i + 2)) =~= out@
                        + utf16_decode_lossy(rest));
                }
                push_char(&mut out, c);
                i = i + 2;
            } else {
                proof {
                    if is_high_surrogate(u) && rest.len() >= 2 {
                        assert(rest[1] == units[i + 1]);
                    }
                    assert(rest.drop_first() =~= units.skip(i + 1));
                    assert(utf16_decode_lossy(rest) == seq!['\u{FFFD}'] + utf16_decode_lossy(
                        units.skip(i + 1),
                    ));
                    assert(out@.push('\u{FFFD}') + utf16_decode_lossy(units.skip(i + 1)) =~= out@
                        + utf16_decode_lossy(rest));
                }
                push_char(&mut out, '\u{FFFD}');
                i = i + 1;
            }
        }
    }
    proof {
        assert(units.skip(n as int) =~= Seq::<u16>::empty());
        assert(out@ + Seq::<char>::empty() =~= out@);
    }
    if slice.len() % 2 == 1 {
        push_char(&mut out, '\u{FFFD}');
    }
    out
}

} // verus!
