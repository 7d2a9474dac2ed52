use vstd::prelude::*;

use std::io::Read;

verus! {

use crate::error::MdxError;
use crate::header::{Header, Version, int_width, version_width};
use crate::unpack::{
    be_bytes_to_int, le_bytes_to_int, lemma_be_bytes_bound, lemma_le_bytes_bound,
    lemma_pow256_monotone, lemma_pow256_values, pow256, read_be_uint, read_le_uint,
};
use crate::util::{fast_decrypt, fast_decrypt_spec, ripemd128, ripemd128_of, salsa20_xor,
    salsa20_xor_of};

/// Compressed and decompressed byte sizes of one record block. The
/// compressed size includes the block's 8-byte framing prefix.
#[derive(Debug, Clone, Copy, PartialEq, Eq, Structural)]
pub struct RecordBlockSize {
    pub csize: u64,
    pub dsize: u64,
}

/// What inflating a zlib stream yields: `None` when the stream is rejected.
/// It depends on the input bytes alone.
pub uninterp spec fn zlib_inflate_of(data: Seq<u8>) -> Option<Seq<u8>>;

/// Relies on flate2::read::ZlibDecoder (read_to_end): inflates a zlib
/// stream; success and output depend on the input bytes alone.
#[verifier::external_body]
pub(crate) fn zlib_decompress(data: &[u8]) -> (r: Option<Vec<u8>>)
    ensures
        r is Some <==> zlib_inflate_of(data@) is Some,
        r matches Some(v) ==> Some(v@) == zlib_inflate_of(data@),
{
    let mut out: Vec<u8> = Vec::new();
    let mut dec = flate2::read::ZlibDecoder::new(data);
    match dec.read_to_end(&mut out) {
        Ok(_) => Some(out),
        Err(_) => None,
    }
}

/// What inflating an LZO1X stream into a buffer of `dlen` bytes yields:
/// `None` when the stream is rejected. It depends on the arguments alone.
pub uninterp spec fn lzo_inflate_of(data: Seq<u8>, dlen: nat) -> Option<Seq<u8>>;

/// Relies on minilzo_rs::LZO::init and LZO::decompress_safe: inflates an
/// LZO1X stream into a buffer of `dlen` bytes, with overrun checking;
/// success and output depend on the arguments alone, and the buffer handed
/// back on success holds exactly `dlen` bytes.
#[verifier::external_body]
pub(crate) fn lzo_decompress(data: &[u8], dlen: usize) -> (r: Option<Vec<u8>>)
    ensures
        r is Some <==> lzo_inflate_of(data@, dlen as nat) is Some,
        r matches Some(v) ==> Some(v@) == lzo_inflate_of(data@, dlen as nat),
        r matches Some(v) ==> v@.len() == dlen,
{
    match minilzo_rs::LZO::init() {
        Ok(lzo) => lzo.decompress_safe(data, dlen).ok(),
        Err(_) => None,
    }
}

/// The decompressed image of one framed block, or the error decoding it
/// yields. The block starts with a 4-byte little-endian word whose low
/// nibble selects the compression method and next nibble the encryption
/// method, then 4 checksum bytes from which the cipher key is derived, then
/// the encrypted, compressed payload.
pub open spec fn block_decode_spec(block: Seq<u8>, dsize: nat) -> Result<Seq<u8>, MdxError> {
    if block.len() < 8 {
        Err(MdxError::Truncated)
    } else {
        let enc_word = le_bytes_to_int(block.subrange(0, 4));
        let comp_method = enc_word % 16;
        let enc_method = (enc_word / 16) % 16;
        let key = ripemd128_of(block.subrange(4, 8));
        let payload = block.skip(8);
        if enc_method > 2 {
            Err(MdxError::Unsupported)
        } else {
            let decrypted = if enc_method == 0 {
                payload
            } else if enc_method == 1 {
                fast_decrypt_spec(payload, key)
            } else {
                salsa20_xor_of(key + key, payload)
            };
            if comp_method == 0 {
                Ok(decrypted)
            } else if comp_method == 1 {
                match lzo_inflate_of(decrypted, dsize) {
                    Some(p) => Ok(p),
                    None => Err(MdxError::Decompress),
                }
            } else if comp_method == 2 {
                match zlib_inflate_of(decrypted) {
                    Some(p) => Ok(p),
                    None => Err(MdxError::Decompress),
                }
            } else {
                Err(MdxError::Unsupported)
            }
        }
    }
}

proof fn lemma_enc_word_fields(e: u32)
    ensures
        (e & 0xf) == e as int % 16,
        ((e >> 4) & 0xf) == (e as int / 16) % 16,
{
    assert((e & 0xf) == e % 16) by (bit_vector);
    assert(((e >> 4) & 0xf) == (e / 16) % 16) by (bit_vector);
}

/// Decrypts and decompresses the one record block that starts the slice:
/// the block occupies the first `csize` bytes; `dsize` is its declared
/// decompressed size, used by the LZO path.
pub fn record_block_parser(block: &[u8], csize: usize, dsize: u64) -> (r: Result<
    Vec<u8>,
    MdxError,
>)
    requires
        csize <= block@.len(),
        dsize <= usize::MAX,
    ensures
        ({
            let s = block_decode_spec(block@.subrange(0, csize as int), dsize as nat);
            match r {
                Ok(v) => s == Ok::<Seq<u8>, MdxError>(v@),
                Err(e) => s == Err::<Seq<u8>, MdxError>(e),
            }
        }),
{
    let ghost b = block@.subrange(0, csize as int);
    if csize < 8 {
        return Err(MdxError::Truncated);
    }
    proof {
        lemma_pow256_values();
        assert(b.subrange(0, 4) =~= block@.subrange(0, 4));
        assert(b.subrange(4, 8) =~= block@.subrange(4, 8));
        assert(b.skip(8) =~= block@.subrange(8, csize as int));
        lemma_le_bytes_bound(block@.subrange(0, 4));
    }
    let enc_word: u32 = read_le_uint(block, 0, 4) as u32;
    proof {
        lemma_enc_word_fields(enc_word);
    }
    let comp_method: u32 = enc_word & 0xf;
    let enc_method: u32 = (enc_word >> 4) & 0xf;
    if enc_method > 2 {
        return Err(MdxError::Unsupported);
    }
    let checksum = &block[4..8];
    let key = ripemd128(checksum);
    let payload = &block[8..csize];
    let decrypted: Vec<u8> = if enc_method == 0 {
        vstd::slice::slice_to_vec(payload)
    } else if enc_method == 1 {
        fast_decrypt(payload, key.as_slice())
    } else {
        let mut key32 = key.clone();
        let mut second = key.clone();
        key32.append(&mut second);
        salsa20_xor(key32.as_slice(), payload)
    };
    if comp_method == 0 {
        Ok(decrypted)
    } else if comp_method == 1 {
        match lzo_decompress(decrypted.as_slice(), dsize as usize) {
            Some(p) => Ok(p),
            None => Err(MdxError::Decompress),
        }
    } else if comp_method == 2 {
        match zlib_decompress(decrypted.as_slice()) {
            Some(p) => Ok(p),
            None => Err(MdxError::Decompress),
        }
    } else {
        Err(MdxError::Unsupported)
    }
}

/// Total compressed size of a run of blocks.
pub open spec fn sum_csize(blocks: Seq<RecordBlockSize>) -> int
    decreases blocks.len(),
{
    if blocks.len() == 0 {
        0
    } else {
        blocks[0].csize + sum_csize(blocks.drop_first())
    }
}

/// Total decompressed size of a run of blocks.
pub open spec fn sum_dsize(blocks: Seq<RecordBlockSize>) -> int
    decreases blocks.len(),
{
    if blocks.len() == 0 {
        0
    } else {
        blocks[0].dsize + sum_dsize(blocks.drop_first())
    }
}

pub proof fn lemma_sums_nonneg(blocks: Seq<RecordBlockSize>)
    ensures
        sum_csize(blocks) >= 0,
        sum_dsize(blocks) >= 0,
    decreases blocks.len(),
{
    if blocks.len() > 0 {
        lemma_sums_nonneg(blocks.drop_first());
    }
}

/// Checks the size table against the retained buffer and the declared total:
/// the blocks' compressed sizes must fit inside the buffer (trailing padding
/// may follow them), their decompressed sizes must add up to exactly the
/// record index's declared total, and each block must be addressable.
pub fn check_block_sums(blocks: &Vec<RecordBlockSize>, buf_len: usize, record_buf_len: u64) -> (ok:
    bool)
    ensures
        ok == ({
            &&& sum_csize(blocks@) <= buf_len
            &&& sum_dsize(blocks@) == record_buf_len
            &&& forall|k: int|
                0 <= k < blocks@.len() ==> (#[trigger] blocks@[k]).dsize <= usize::MAX
        }),
{
    let n = blocks.len();
    let mut sc: u128 = 0;
    let mut sd: u128 = 0;
    let mut k: usize = 0;
    proof {
        assert(blocks@.skip(0) =~= blocks@);
    }
    while k < n
        invariant
            n == blocks@.len(),
            k <= n,
            sc == sum_csize(blocks@) - sum_csize(blocks@.skip(k as int)),
            sd == sum_dsize(blocks@) - sum_dsize(blocks@.skip(k as int)),
            sc <= u128::MAX - u64::MAX,
            sd <= u128::MAX - u64::MAX,
            forall|j: int| 0 <= j < k ==> (#[trigger] blocks@[j]).dsize <= usize::MAX,
        decreases n - k,
    {
        let blk = blocks[k];
        if blk.dsize > (usize::MAX as u64) {
            proof {
                lemma_sums_nonneg(blocks@);
            }
            return false;
        }
        proof {
            let rest = blocks@.skip(k as int);
            assert(rest.drop_first() =~= blocks@.skip(k + 1));
            assert(rest[0] == blocks@[k as int]);
            lemma_sums_nonneg(blocks@.skip(k + 1));
            lemma_sums_nonneg(blocks@.skip(k as int));
        }
        if sc > (u64::MAX as u128) || sd > (u64::MAX as u128) {
            // the running sums can no longer be matched by any usize buffer
            // length or u64 total
            proof {
                lemma_sums_nonneg(blocks@.skip(k as int));
            }
            return false;
        }
        sc = sc + (blk.csize as u128);
        sd = sd + (blk.dsize as u128);
        k = k + 1;
    }
    proof {
        assert(blocks@.skip(n as int) =~= Seq::<RecordBlockSize>::empty());
    }
    (sc <= (buf_len as u128)) && (sd == (record_buf_len as u128))
}

/// The `k`-th field of the record-index header: `w`-byte big-endian
/// integers, in order: block count, entry count, size-table length, total
/// decompressed length of all record blocks.
pub open spec fn record_index_field(data: Seq<u8>, w: nat, k: int) -> int {
    be_bytes_to_int(data.subrange(k * w, (k + 1) * w))
}

/// The `m` compressed/decompressed size pairs that follow the record-index
/// header.
pub open spec fn record_blocks_spec(data: Seq<u8>, w: nat, m: nat) -> Seq<RecordBlockSize> {
    Seq::new(
        m as nat,
        |i: int|
            RecordBlockSize {
                csize: be_bytes_to_int(
                    data.subrange(4 * w + 2 * w * i, 4 * w + 2 * w * i + w),
                ) as u64,
                dsize: be_bytes_to_int(
                    data.subrange(4 * w + 2 * w * i + w, 4 * w + 2 * w * i + 2 * w),
                ) as u64,
            },
    )
}

/// Parses the record-index section: its four-field header, then exactly
/// `num_record_blocks` size pairs. The declared table length must equal
/// `num_record_blocks` times the pair width, and the table must lie within
/// the input; the remaining bytes are the record-block buffer, which the
/// caller retains. Returns the size pairs, the declared total decompressed
/// length, and how many bytes the section consumed.
pub fn parse_record_blocks(data: &[u8], header: &Header) -> (r: Result<
    (Vec<RecordBlockSize>, u64, usize),
    MdxError,
>)
    ensures
        ({
            let w = int_width(header.version);
            let m = record_index_field(data@, w, 0);
            let il = record_index_field(data@, w, 2);
            match r {
                Ok(t) => {
                    &&& data@.len() >= 4 * w
                    &&& il == m * (2 * w)
                    &&& 4 * w + il <= data@.len()
                    &&& t.0@ == record_blocks_spec(data@, w, m as nat)
                    &&& t.0@.len() == m
                    &&& t.1 == record_index_field(data@, w, 3)
                    &&& t.2 == 4 * w + il
                },
                Err(e) => {
                    &&& (data@.len() < 4 * w || il != m * (2 * w) || 4 * w + il > data@.len())
                    &&& e == MdxError::Malformed <==> (data@.len() >= 4 * w && il != m * (2
                        * w))
                    &&& (e == MdxError::Truncated || e == MdxError::Malformed)
                },
            }
        }),
{
    let w = version_width(header.version);
    let n = data.len();
    proof {
        lemma_pow256_values();
        lemma_pow256_monotone(int_width(header.version), 8);
    }
    if n < 4 * w {
        return Err(MdxError::Truncated);
    }
    let m64 = read_be_uint(data, 0, w);
    let il64 = read_be_uint(data, 2 * w, w);
    let bl64 = read_be_uint(data, 3 * w, w);
    proof {
        let ghost wi = int_width(header.version) as int;
        assert(data@.subrange(0, w as int) =~= data@.subrange(0 * wi, 1 * wi));
        assert(data@.subrange(2 * w as int, 3 * w as int) =~= data@.subrange(2 * wi, 3 * wi));
        assert(data@.subrange(3 * w as int, 4 * w as int) =~= data@.subrange(3 * wi, 4 * wi));
    }
    let need: u128 = (m64 as u128) * ((2 * w) as u128);
    if (il64 as u128) != need {
        return Err(MdxError::Malformed);
    }
    if il64 > ((n - 4 * w) as u64) {
        return Err(MdxError::Truncated);
    }
    proof {
        assert(m64 as int * 8 <= m64 as int * (2 * w as int)) by (nonlinear_arith)
            requires
                w >= 4,
        ;
    }
    let m: usize = m64 as usize;
    let il: usize = il64 as usize;
    let mut blocks: Vec<RecordBlockSize> = Vec::new();
    let mut i: usize = 0;
    let mut pos: usize = 4 * w;
    while i < m
        invariant
            w == int_width(header.version),
            4 <= w <= 8,
            n == data@.len(),
            m == m64,
            il == il64,
            il == m * (2 * w),
            4 * w + il <= n,
            i <= m,
            pos == 4 * w + 2 * w * i,
            blocks@.len() == i,
            forall|j: int|
                0 <= j < i ==> blocks@[j] == record_blocks_spec(
                    data@,
                    int_width(header.version),
                    m as nat,
                )[j],
        decreases m - i,
    {
        proof {
            assert(2 * w * (i + 1) <= 2 * w * m) by (nonlinear_arith)
                requires
                    i + 1 <= m,
                    w >= 0,
            ;
            assert(2 * w * m == m * (2 * w)) by (nonlinear_arith);
            assert(2 * w * i + 2 * w == 2 * w * (i + 1)) by (nonlinear_arith);
            lemma_pow256_values();
            lemma_pow256_monotone(int_width(header.version), 8);
            lemma_be_bytes_bound(data@.subrange(pos as int, pos + w));
            lemma_be_bytes_bound(data@.subrange(pos + w, pos + 2 * w));
        }
        let csize = read_be_uint(data, pos, w);
        let dsize = read_be_uint(data, pos + w, w);
        proof {
            let ghost wi = int_width(header.version) as int;
            let ghost ii = i as int;
            assert(data@.subrange(pos as int, pos + w) =~= data@.subrange(
                4 * wi + 2 * wi * ii,
                4 * wi + 2 * wi * ii + wi,
            ));
            assert(data@.subrange(pos + w, pos + 2 * w) =~= data@.subrange(
                4 * wi + 2 * wi * ii + wi,
                4 * wi + 2 * wi * ii + 2 * wi,
            ));
        }
        blocks.push(RecordBlockSize { csize, dsize });
        pos = pos + 2 * w;
        i = i + 1;
    }
    proof {
        assert(blocks@ =~= record_blocks_spec(data@, int_width(header.version), m as nat));
    }
    Ok((blocks, bl64, 4 * w + il))
}

} // verus!
