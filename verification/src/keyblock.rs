use vstd::prelude::*;

verus! {

use vstd::utf8::{decode_utf8, valid_utf8};
use crate::error::MdxError;
use crate::header::{Header, TextEncoding, Version, int_width, version_width};
use crate::recordblock::block_decode_spec;
use crate::recordblock::record_block_parser;
use crate::unpack::{
    be_bytes_to_int, lemma_be_bytes_bound, lemma_pow256_monotone, lemma_pow256_values,
    read_be_uint, string_from_utf8, utf16_decode, utf16le_units, utf16_le_string,
};
use crate::util::{fast_decrypt, fast_decrypt_spec, opt_prepend, ripemd128, ripemd128_of};

/// One key-index entry: a decoded headword and the logical offset of its
/// record in the virtual stream formed by concatenating all decompressed
/// record blocks.
#[derive(Debug)]
pub struct Entry {
    pub text: String,
    pub record_start_in_de_buf: u64,
}

/// A key-index entry as mathematics.
pub ghost struct EntrySpec {
    pub text: Seq<char>,
    pub start: int,
}

/// A produced entry equals a mathematical entry.
pub open spec fn entry_matches(e: Entry, s: EntrySpec) -> bool {
    &&& e.text@ == s.text
    &&& e.record_start_in_de_buf == s.start
}

/// The fixed-shape tuple that opens the key-index section.
#[derive(Debug, Clone, Copy, PartialEq, Eq, Structural)]
pub struct KeyBlockHeader {
    pub num_key_blocks: u64,
    pub num_entries: u64,
    pub key_block_info_len: u64,
    pub key_blocks_len: u64,
}

/// One row of the key-block info table: how many entries the block declares,
/// and its compressed and decompressed sizes. The first and last headwords
/// the table also carries are advisory and are skipped.
#[derive(Debug, Clone, Copy, PartialEq, Eq, Structural)]
pub struct KeyBlockInfo {
    pub entries_in_block: u64,
    pub csize: u64,
    pub dsize: u64,
}

/// Size in bytes of the key-block header: four version-width fields, plus a
/// trailing 4-byte checksum in V2, which is not verified.
pub open spec fn key_header_size(v: Version) -> int {
    4 * int_width(v) + if v is V2 {
        4int
    } else {
        0int
    }
}

/// The `k`-th field of the key-block header.
pub open spec fn key_header_field(data: Seq<u8>, w: nat, k: int) -> int {
    be_bytes_to_int(data.subrange(k * w, (k + 1) * w))
}

/// Parses the key-block header: `num_key_blocks`, `num_entries`,
/// `key_block_info_len`, `key_blocks_len`, each a version-width big-endian
/// integer; V2 closes the tuple with a checksum that is skipped.
pub fn parse_key_block_header(data: &[u8], header: &Header) -> (r: Result<
    (KeyBlockHeader, usize),
    MdxError,
>)
    ensures
        ({
            let w = int_width(header.version);
            match r {
                Ok(t) => {
                    &&& data@.len() >= key_header_size(header.version)
                    &&& t.0.num_key_blocks == key_header_field(data@, w, 0)
                    &&& t.0.num_entries == key_header_field(data@, w, 1)
                    &&& t.0.key_block_info_len == key_header_field(data@, w, 2)
                    &&& t.0.key_blocks_len == key_header_field(data@, w, 3)
                    &&& t.1 == key_header_size(header.version)
                },
                Err(e) => {
                    &&& data@.len() < key_header_size(header.version)
                    &&& e == MdxError::Truncated
                },
            }
        }),
{
    let w = version_width(header.version);
    let tail: usize = match header.version {
        Version::V1 => 0,
        Version::V2 => 4,
    };
    if data.len() < 4 * w + tail {
        return Err(MdxError::Truncated);
    }
    proof {
        lemma_pow256_values();
        lemma_pow256_monotone(int_width(header.version), 8);
        let wi = int_width(header.version) as int;
        lemma_be_bytes_bound(data@.subrange(0 * wi, 1 * wi));
        lemma_be_bytes_bound(data@.subrange(1 * wi, 2 * wi));
        lemma_be_bytes_bound(data@.subrange(2 * wi, 3 * wi));
        lemma_be_bytes_bound(data@.subrange(3 * wi, 4 * wi));
        assert(data@.subrange(0, w as int) =~= data@.subrange(0 * wi, 1 * wi));
        assert(data@.subrange(w as int, 2 * w as int) =~= data@.subrange(1 * wi, 2 * wi));
        assert(data@.subrange(2 * w as int, 3 * w as int) =~= data@.subrange(2 * wi, 3 * wi));
        assert(data@.subrange(3 * w as int, 4 * w as int) =~= data@.subrange(3 * wi, 4 * wi));
    }
    let kbh = KeyBlockHeader {
        num_key_blocks: read_be_uint(data, 0, w),
        num_entries: read_be_uint(data, w, w),
        key_block_info_len: read_be_uint(data, 2 * w, w),
        key_blocks_len: read_be_uint(data, 3 * w, w),
    };
    Ok((kbh, 4 * w + tail))
}

/// The length-field width inside the info table: V1 counts headword bytes in
/// one byte, V2 in two.
pub open spec fn len_width(v: Version) -> nat {
    match v {
        Version::V1 => 1,
        Version::V2 => 2,
    }
}

/// Executable counterpart of `len_width`.
pub fn version_len_width(v: Version) -> (w: usize)
    ensures
        w == len_width(v),
{
    match v {
        Version::V1 => 1,
        Version::V2 => 2,
    }
}

/// The info rows that the (descrambled) table body denotes, read from byte
/// `p` on, `m` rows owed: each row is entry count, first headword
/// (length-prefixed, skipped), last headword (skipped), compressed size,
/// decompressed size. `None` when a row runs off the body or bytes are left
/// over after the last row.
pub open spec fn key_info_spec(body: Seq<u8>, p: int, w: nat, lw: nat, m: int) -> Option<
    Seq<KeyBlockInfo>,
>
    decreases m,
{
    if m <= 0 {
        if p == body.len() {
            Some(Seq::empty())
        } else {
            None
        }
    } else if p + w + lw > body.len() {
        None
    } else {
        let eb = be_bytes_to_int(body.subrange(p, p + w));
        let fl = be_bytes_to_int(body.subrange(p + w, p + w + lw));
        let q = p + w + lw + fl;
        if q + lw > body.len() {
            None
        } else {
            let ll = be_bytes_to_int(body.subrange(q, q + lw));
            let q2 = q + lw + ll;
            if q2 + 2 * w > body.len() {
                None
            } else {
                let cs = be_bytes_to_int(body.subrange(q2, q2 + w));
                let ds = be_bytes_to_int(body.subrange(q2 + w, q2 + 2 * w));
                opt_prepend(
                    seq![
                        (KeyBlockInfo {
                            entries_in_block: eb as u64,
                            csize: cs as u64,
                            dsize: ds as u64,
                        }),
                    ],
                    key_info_spec(body, q2 + 2 * w, w, lw, m - 1),
                )
            }
        }
    }
}

/// The info-table body after the optional descrambling: the table opens with
/// a 4-byte prefix; when the key-index-encrypted bit is set, the rest is
/// decrypted with the fast-XOR cipher keyed by the RIPEMD-128 digest of the
/// prefix followed by the fixed bytes 0x95 0x36 0x00 0x00.
pub open spec fn key_info_body(table: Seq<u8>, encrypted: bool) -> Seq<u8> {
    if encrypted {
        fast_decrypt_spec(
            table.skip(4),
            ripemd128_of(table.subrange(0, 4) + seq![0x95u8, 0x36u8, 0x00u8, 0x00u8]),
        )
    } else {
        table.skip(4)
    }
}

/// Parses the key-block info table: the first `key_block_info_len` bytes of
/// the input, descrambled if the header's key-index-encrypted bit is set,
/// then read as exactly `num_key_blocks` rows that fill the table.
#[verifier::rlimit(60)]
pub fn parse_key_block_info(
    data: &[u8],
    key_block_info_len: u64,
    num_key_blocks: u64,
    header: &Header,
) -> (r: Result<(Vec<KeyBlockInfo>, usize), MdxError>)
    ensures
        ({
            let w = int_width(header.version);
            let lw = len_width(header.version);
            let spec_r = key_info_spec(
                key_info_body(
                    data@.subrange(0, key_block_info_len as int),
                    header.key_index_encrypted,
                ),
                0,
                w,
                lw,
                num_key_blocks as int,
            );
            match r {
                Ok(t) => {
                    &&& key_block_info_len >= 4
                    &&& data@.len() >= key_block_info_len
                    &&& spec_r == Some(t.0@)
                    &&& t.1 == key_block_info_len
                },
                Err(e) => {
                    &&& (key_block_info_len < 4 || data@.len() < key_block_info_len || spec_r
                        is None)
                    &&& (e == MdxError::Truncated <==> (key_block_info_len < 4 || data@.len()
                        < key_block_info_len))
                    &&& (e == MdxError::Truncated || e == MdxError::Malformed)
                },
            }
        }),
{
    let w = version_width(header.version);
    let lw = version_len_width(header.version);
    if key_block_info_len < 4 {
        return Err(MdxError::Truncated);
    }
    let n = data.len();
    if (n as u64) < key_block_info_len || key_block_info_len > (usize::MAX as u64) {
        return Err(MdxError::Truncated);
    }
    let il = key_block_info_len as usize;
    let ghost table = data@.subrange(0, key_block_info_len as int);
    let body: Vec<u8> = if header.key_index_encrypted {
        let mut seed: Vec<u8> = vstd::slice::slice_to_vec(&data[0..4]);
        seed.push(0x95);
        seed.push(0x36);
        seed.push(0x00);
        seed.push(0x00);
        proof {
            assert(seed@ =~= table.subrange(0, 4) + seq![0x95u8, 0x36u8, 0x00u8, 0x00u8]);
            assert(data@.subrange(4, il as int) =~= table.skip(4));
        }
        let key = ripemd128(seed.as_slice());
        fast_decrypt(&data[4..il], key.as_slice())
    } else {
        proof {
            assert(data@.subrange(4, il as int) =~= table.skip(4));
        }
        vstd::slice::slice_to_vec(&data[4..il])
    };
    proof {
        assert(body@ == key_info_body(table, header.key_index_encrypted));
    }
    let ghost m0 = num_key_blocks as int;
    let mut infos: Vec<KeyBlockInfo> = Vec::new();
    let mut left = num_key_blocks;
    let mut p: usize = 0;
    let blen = body.len();
    proof {
        match key_info_spec(body@, 0, int_width(header.version), len_width(header.version), m0) {
            Some(rest) => {
                assert(infos@ + rest =~= rest);
            },
            None => {},
        }
    }
    while left > 0
        invariant
            w == int_width(header.version),
            lw == len_width(header.version),
            4 <= w <= 8,
            1 <= lw <= 2,
            blen == body@.len(),
            p <= blen,
            left <= num_key_blocks,
            infos@.len() == num_key_blocks - left,
            4 <= key_block_info_len <= usize::MAX,
            il == key_block_info_len,
            data@.len() >= key_block_info_len,
            m0 == num_key_blocks as int,
            table == data@.subrange(0, key_block_info_len as int),
            body@ == key_info_body(table, header.key_index_encrypted),
            key_info_spec(body@, 0, int_width(header.version), len_width(header.version), m0)
                == opt_prepend(
                infos@,
                key_info_spec(
                    body@,
                    p as int,
                    int_width(header.version),
                    len_width(header.version),
                    left as int,
                ),
            ),
        decreases left,
    {
        let ghost cur = key_info_spec(
            body@,
            p as int,
            int_width(header.version),
            len_width(header.version),
            left as int,
        );
        if w + lw > blen - p {
            proof {
                assert(cur is None);
            }
            return Err(MdxError::Malformed);
        }
        proof {
            lemma_pow256_values();
            lemma_pow256_monotone(len_width(header.version), 8);
            lemma_pow256_monotone(int_width(header.version), 8);
            lemma_be_bytes_bound(body@.subrange(p + w, p + w + lw));
        }
        let eb = read_be_uint(body.as_slice(), p, w);
        let fl = read_be_uint(body.as_slice(), p + w, lw);
        // the length fields are at most two bytes, so these sums stay small
        proof {
            assert(fl < 0x10000);
        }
        let q: usize = if (fl as usize) <= blen && p + w + lw <= blen - (fl as usize) {
            p + w + lw + (fl as usize)
        } else {
            proof {
                assert(fl == be_bytes_to_int(body@.subrange(p + w, p + w + lw)));
                assert(cur is None);
            }
            return Err(MdxError::Malformed);
        };
        if lw > blen - q {
            return Err(MdxError::Malformed);
        }
        proof {
            lemma_be_bytes_bound(body@.subrange(q as int, q + lw));
        }
        let ll = read_be_uint(body.as_slice(), q, lw);
        proof {
            assert(ll < 0x10000);
        }
        let q2: usize = if (ll as usize) <= blen && q + lw <= blen - (ll as usize) {
            q + lw + (ll as usize)
        } else {
            return Err(MdxError::Malformed);
        };
        if 2 * w > blen - q2 {
            return Err(MdxError::Malformed);
        }
        let cs = read_be_uint(body.as_slice(), q2, w);
        let ds = read_be_uint(body.as_slice(), q2 + w, w);
        let info = KeyBlockInfo { entries_in_block: eb, csize: cs, dsize: ds };
        proof {
            let ghost rest = key_info_spec(
                body@,
                q2 + 2 * w,
                int_width(header.version),
                len_width(header.version),
                left - 1,
            );
            assert(cur == opt_prepend(seq![info], rest));
            match rest {
                Some(rs) => {
                    assert((infos@ + (seq![info] + rs)) =~= ((infos@ + seq![info]) + rs));
                },
                None => {},
            }
        }
        infos.push(info);
        p = q2 + 2 * w;
        left = left - 1;
    }
    if p != blen {
        return Err(MdxError::Malformed);
    }
    proof {
        assert(key_info_spec(
            body@,
            p as int,
            int_width(header.version),
            len_width(header.version),
            0,
        ) == Some(Seq::<KeyBlockInfo>::empty()));
        assert(infos@ + Seq::<KeyBlockInfo>::empty() =~= infos@);
    }
    Ok((infos, il))
}

/// Every byte from `from` to the end is zero: the trailing padding a key
/// block may end with.
pub open spec fn all_zero_from(bytes: Seq<u8>, from: int) -> bool {
    forall|k: int| from <= k < bytes.len() ==> bytes[k] == 0
}

/// The first index at or past `from` holding a zero byte.
pub open spec fn first_zero(bytes: Seq<u8>, from: int) -> Option<int>
    decreases bytes.len() - from,
    when from >= 0
{
    if from >= bytes.len() {
        None
    } else if bytes[from] == 0 {
        Some(from)
    } else {
        first_zero(bytes, from + 1)
    }
}

/// The first index at or past `from`, at even distance from it, where two
/// zero bytes sit: a UTF-16 code unit of zero.
pub open spec fn first_zero_pair(bytes: Seq<u8>, from: int) -> Option<int>
    decreases bytes.len() - from,
    when from >= 0
{
    if from + 2 > bytes.len() {
        None
    } else if bytes[from] == 0 && bytes[from + 1] == 0 {
        Some(from)
    } else {
        first_zero_pair(bytes, from + 2)
    }
}

/// The entries that one decompressed key block holds from byte `p` on, `c`
/// entries still declared: each entry is a version-width big-endian logical
/// offset, then a headword terminated by a NUL code unit in the dictionary's
/// encoding, decoded strictly. Fewer entries than declared are accepted only
/// when the rest of the block is zero padding; more are a format error.
pub open spec fn key_entries_spec(
    bytes: Seq<u8>,
    p: int,
    w: nat,
    enc: TextEncoding,
    c: int,
) -> Option<Seq<EntrySpec>>
    decreases c,
{
    if all_zero_from(bytes, p) {
        Some(Seq::empty())
    } else if c <= 0 {
        None
    } else if p + w > bytes.len() {
        None
    } else {
        let start = be_bytes_to_int(bytes.subrange(p, p + w));
        match enc {
            TextEncoding::Utf8 => match first_zero(bytes, p + w) {
                None => None,
                Some(t) => {
                    let hw = bytes.subrange(p + w, t);
                    if valid_utf8(hw) {
                        opt_prepend(
                            seq![(EntrySpec { text: decode_utf8(hw), start })],
                            key_entries_spec(bytes, t + 1, w, enc, c - 1),
                        )
                    } else {
                        None
                    }
                },
            },
            TextEncoding::Utf16Le => match first_zero_pair(bytes, p + w) {
                None => None,
                Some(t) => {
                    let hw = bytes.subrange(p + w, t);
                    match utf16_decode(utf16le_units(hw)) {
                        Some(cs) => opt_prepend(
                            seq![(EntrySpec { text: cs, start })],
                            key_entries_spec(bytes, t + 2, w, enc, c - 1),
                        ),
                        None => None,
                    }
                },
            },
        }
    }
}

/// The entries of all key blocks from block `j` on, reading block `j` at
/// byte `pos` of the input: each block is framed and decoded as a record
/// block is, must decompress to exactly its declared size, and its entries
/// are read by `key_entries_spec`.
pub open spec fn key_blocks_spec(
    data: Seq<u8>,
    pos: int,
    w: nat,
    enc: TextEncoding,
    infos: Seq<KeyBlockInfo>,
    j: int,
) -> Option<Seq<EntrySpec>>
    decreases infos.len() - j,
{
    if j >= infos.len() {
        Some(Seq::empty())
    } else {
        let info = infos[j];
        if pos + info.csize > data.len() || info.dsize > usize::MAX {
            None
        } else {
            match block_decode_spec(data.subrange(pos, pos + info.csize), info.dsize as nat) {
                Err(_) => None,
                Ok(plain) => {
                    if plain.len() != info.dsize {
                        None
                    } else {
                        match key_entries_spec(plain, 0, w, enc, info.entries_in_block as int) {
                            None => None,
                            Some(es) => opt_prepend(
                                es,
                                key_blocks_spec(data, pos + info.csize, w, enc, infos, j + 1),
                            ),
                        }
                    }
                },
            }
        }
    }
}

/// Total compressed size of the key blocks from `j` on.
pub open spec fn key_csize_sum(infos: Seq<KeyBlockInfo>, j: int) -> int
    decreases infos.len() - j,
{
    if j >= infos.len() {
        0
    } else {
        infos[j].csize + key_csize_sum(infos, j + 1)
    }
}

/// Whether every byte from `from` on is zero.
fn is_zero_from(bytes: &[u8], from: usize) -> (b: bool)
    requires
        from <= bytes@.len(),
    ensures
        b == all_zero_from(bytes@, from as int),
{
    let n = bytes.len();
    let mut j = from;
    while j < n
        invariant
            from <= j <= n,
            n == bytes@.len(),
            forall|k: int| from <= k < j ==> bytes@[k] == 0,
        decreases n - j,
    {
        if bytes[j] != 0 {
            return false;
        }
        j = j + 1;
    }
    true
}

/// Finds the first zero byte at or past `from`.
fn find_nul(bytes: &[u8], from: usize) -> (r: Option<usize>)
    requires
        from <= bytes@.len(),
    ensures
        match r {
            Some(t) => first_zero(bytes@, from as int) == Some(t as int) && from <= t
                < bytes@.len(),
            None => first_zero(bytes@, from as int) is None,
        },
{
    let n = bytes.len();
    let mut j = from;
    while j < n
        invariant
            from <= j <= n,
            n == bytes@.len(),
            first_zero(bytes@, from as int) == first_zero(bytes@, j as int),
        decreases n - j,
    {
        if bytes[j] == 0 {
            return Some(j);
        }
        j = j + 1;
    }
    None
}

/// Finds the first all-zero 16-bit code unit at or past `from`, stepping in
/// whole units.
fn find_nul_pair(bytes: &[u8], from: usize) -> (r: Option<usize>)
    requires
        from <= bytes@.len(),
    ensures
        match r {
            Some(t) => first_zero_pair(bytes@, from as int) == Some(t as int) && from <= t && t + 2
                <= bytes@.len() && (t - from) % 2 == 0,
            None => first_zero_pair(bytes@, from as int) is None,
        },
{
    let n = bytes.len();
    let mut j = from;
    while j < n && j + 1 < n
        invariant
            from <= j,
            j <= n,
            n == bytes@.len(),
            (j - from) % 2 == 0,
            first_zero_pair(bytes@, from as int) == first_zero_pair(bytes@, j as int),
        decreases n - j,
    {
        if bytes[j] == 0 && bytes[j + 1] == 0 {
            return Some(j);
        }
        j = j + 2;
    }
    None
}

/// Parses the key-block bodies: one framed, compressed block per info row,
/// each decoding to exactly its declared size and holding its declared
/// entries (fewer only before zero padding). The blocks must together
/// consume exactly `key_blocks_len` bytes. Headwords are decoded strictly:
/// a byte run that is not valid in the dictionary's encoding is an error,
/// never replaced.
#[verifier::rlimit(100)]
pub fn parse_key_blocks(
    data: &[u8],
    key_blocks_len: u64,
    header: &Header,
    key_blocks_size: &Vec<KeyBlockInfo>,
) -> (r: Result<(Vec<Entry>, usize), MdxError>)
    ensures
        ({
            let w = int_width(header.version);
            let spec_r = key_blocks_spec(
                data@,
                0,
                w,
                header.encoding_kind,
                key_blocks_size@,
                0,
            );
            match r {
                Ok(t) => {
                    &&& spec_r is Some
                    &&& t.0@.len() == spec_r->Some_0.len()
                    &&& (forall|k: int|
                        0 <= k < t.0@.len() ==> entry_matches(
                            t.0@[k],
                            #[trigger] spec_r->Some_0[k],
                        ))
                    &&& t.1 == key_blocks_len
                    &&& t.1 <= data@.len()
                    &&& key_blocks_len == key_csize_sum(key_blocks_size@, 0)
                },
                Err(_) => spec_r is None || key_csize_sum(key_blocks_size@, 0)
                    != key_blocks_len,
            }
        }),
{
    let w = version_width(header.version);
    let nb = key_blocks_size.len();
    let dlen = data.len();
    let mut entries: Vec<Entry> = Vec::new();
    let ghost mut gents: Seq<EntrySpec> = Seq::empty();
    let ghost genc = header.encoding_kind;
    let ghost gw = int_width(header.version);
    let mut j: usize = 0;
    let mut pos: usize = 0;
    proof {
        match key_blocks_spec(data@, 0, gw, genc, key_blocks_size@, 0) {
            Some(rest) => {
                assert(gents + rest =~= rest);
            },
            None => {},
        }
    }
    while j < nb
        invariant
            w == gw,
            gw == int_width(header.version),
            genc == header.encoding_kind,
            4 <= w <= 8,
            nb == key_blocks_size@.len(),
            dlen == data@.len(),
            j <= nb,
            pos <= dlen,
            entries@.len() == gents.len(),
            pos + key_csize_sum(key_blocks_size@, j as int) == key_csize_sum(
                key_blocks_size@,
                0,
            ),
            key_blocks_spec(data@, 0, gw, genc, key_blocks_size@, 0) == opt_prepend(
                gents,
                key_blocks_spec(data@, pos as int, gw, genc, key_blocks_size@, j as int),
            ),
            forall|k: int| 0 <= k < gents.len() ==> entry_matches(entries@[k], #[trigger] gents[k]),
        decreases nb - j,
    {
        let info = key_blocks_size[j];
        let ghost cur = key_blocks_spec(data@, pos as int, gw, genc, key_blocks_size@, j as int);
        if (info.csize as u128) > ((dlen - pos) as u128) || info.dsize > (usize::MAX as u64) {
            proof {
                assert(cur is None);
            }
            return Err(MdxError::Truncated);
        }
        let cs = info.csize as usize;
        let block_buf = &data[pos..pos + cs];
        proof {
            assert(block_buf@.subrange(0, cs as int) =~= data@.subrange(
                pos as int,
                pos + info.csize,
            ));
        }
        let plain: Vec<u8> = match record_block_parser(block_buf, cs, info.dsize) {
            Ok(v) => v,
            Err(_) => {
                proof {
                    assert(cur is None);
                }
                return Err(MdxError::Decompress);
            },
        };
        if (plain.len() as u64) != info.dsize {
            proof {
                assert(cur is None);
            }
            return Err(MdxError::Malformed);
        }
        let ghost pl = plain@;
        let ghost next_pos = pos + info.csize;
        let plen = plain.len();
        let mut c: u64 = info.entries_in_block;
        let mut p: usize = 0;
        let mut done = false;
        proof {
            match key_entries_spec(pl, 0, gw, genc, info.entries_in_block as int) {
                Some(es) => {
                    match key_blocks_spec(data@, next_pos, gw, genc, key_blocks_size@, j + 1) {
                        Some(kb) => {
                            assert((gents + (es + kb)) =~= ((gents + es) + kb));
                        },
                        None => {},
                    }
                },
                None => {},
            }
        }
        while !done
            invariant
                w == gw,
                gw == int_width(header.version),
                genc == header.encoding_kind,
                4 <= w <= 8,
                nb == key_blocks_size@.len(),
                dlen == data@.len(),
                j < nb,
                plen == pl.len(),
                pl == plain@,
                p <= plen,
                entries@.len() == gents.len(),
                done ==> all_zero_from(pl, p as int),
                match key_entries_spec(pl, p as int, gw, genc, c as int) {
                    Some(es) => key_blocks_spec(data@, 0, gw, genc, key_blocks_size@, 0)
                        == opt_prepend(
                        gents + es,
                        key_blocks_spec(data@, next_pos, gw, genc, key_blocks_size@, j + 1),
                    ),
                    None => key_blocks_spec(data@, 0, gw, genc, key_blocks_size@, 0) is None,
                },
                forall|k: int|
                    0 <= k < gents.len() ==> entry_matches(entries@[k], #[trigger] gents[k]),
            decreases pl.len() - p + (if done { 0int } else { 1int }),
        {
            let ghost ecur = key_entries_spec(pl, p as int, gw, genc, c as int);
            if is_zero_from(plain.as_slice(), p) {
                done = true;
            } else {
                if c == 0 {
                    proof {
                        assert(ecur is None);
                    }
                    return Err(MdxError::Malformed);
                }
                if w > plen - p {
                    proof {
                        assert(ecur is None);
                    }
                    return Err(MdxError::Truncated);
                }
                let start = read_be_uint(plain.as_slice(), p, w);
                let text: String;
                let mut p2: usize = 0;
                match header.encoding_kind {
                    TextEncoding::Utf8 => {
                        let t = match find_nul(plain.as_slice(), p + w) {
                            Some(t) => t,
                            None => {
                                proof {
                                    assert(ecur is None);
                                }
                                return Err(MdxError::Truncated);
                            },
                        };
                        let hw = vstd::slice::slice_to_vec(&plain.as_slice()[p + w..t]);
                        text = match string_from_utf8(hw) {
                            Some(s) => s,
                            None => {
                                proof {
                                    assert(ecur is None);
                                }
                                return Err(MdxError::TextDecoding);
                            },
                        };
                        p2 = t + 1;
                    },
                    TextEncoding::Utf16Le => {
                        let t = match find_nul_pair(plain.as_slice(), p + w) {
                            Some(t) => t,
                            None => {
                                proof {
                                    assert(ecur is None);
                                }
                                return Err(MdxError::Truncated);
                            },
                        };
                        let hw = &plain.as_slice()[p + w..t];
                        proof {
                            assert(hw@.len() % 2 == 0);
                        }
                        text = match utf16_le_string(hw) {
                            Some(s) => s,
                            None => {
                                proof {
                                    assert(ecur is None);
                                }
                                return Err(MdxError::TextDecoding);
                            },
                        };
                        p2 = t + 2;
                    },
                }
                let ghost ent = EntrySpec {
                    text: text@,
                    start: be_bytes_to_int(pl.subrange(p as int, p + w)),
                };
                proof {
                    let erest = key_entries_spec(pl, p2 as int, gw, genc, c - 1);
                    assert(ecur == opt_prepend(seq![ent], erest));
                    match erest {
                        Some(es) => {
                            assert(((gents + seq![ent]) + es) =~= (gents + (seq![ent] + es)));
                        },
                        None => {},
                    }
                    gents = gents + seq![ent];
                }
                entries.push(Entry { text, record_start_in_de_buf: start });
                p = p2;
                c = c - 1;
            }
        }
        proof {
            assert(key_entries_spec(pl, p as int, gw, genc, c as int) == Some(
                Seq::<EntrySpec>::empty(),
            ));
            assert(gents + Seq::<EntrySpec>::empty() =~= gents);
            assert(key_csize_sum(key_blocks_size@, j as int) == info.csize + key_csize_sum(
                key_blocks_size@,
                j + 1,
            ));
        }
        pos = pos + cs;
        j = j + 1;
    }
    proof {
        assert(key_blocks_spec(data@, pos as int, gw, genc, key_blocks_size@, nb as int) == Some(
            Seq::<EntrySpec>::empty(),
        ));
        assert(gents + Seq::<EntrySpec>::empty() =~= gents);
        assert(key_csize_sum(key_blocks_size@, nb as int) == 0);
    }
    if (pos as u64) != key_blocks_len {
        return Err(MdxError::Malformed);
    }
    Ok((entries, pos))
}

} // verus!
