use vstd::prelude::*;

use salsa20::cipher::KeyIvInit;
use salsa20::cipher::StreamCipher;

verus! {

/// What the RIPEMD-128 hash of a byte sequence is; it depends on the bytes
/// alone.
pub uninterp spec fn ripemd128_of(data: Seq<u8>) -> Seq<u8>;

/// Relies on ripemd::Ripemd128 through the Digest trait: a 16-byte digest of
/// the input, a function of the input bytes alone.
#[verifier::external_body]
pub(crate) fn ripemd128(data: &[u8]) -> (r: Vec<u8>)
    ensures
        r@ == ripemd128_of(data@),
        r@.len() == 16,
{
    let digest = <ripemd::Ripemd128 as ripemd::Digest>::digest(data);
    digest.to_vec()
}

/// What XORing a byte sequence with the Salsa20 keystream for a 32-byte key
/// and an all-zero 8-byte nonce yields; it depends on key and data alone.
pub uninterp spec fn salsa20_xor_of(key: Seq<u8>, data: Seq<u8>) -> Seq<u8>;

/// Relies on salsa20::Salsa20 (new via cipher::KeyIvInit, then
/// cipher::StreamCipher::apply_keystream): XORs the keystream for the given
/// key and an all-zero nonce over the data, keeping its length.
#[verifier::external_body]
pub(crate) fn salsa20_xor(key32: &[u8], data: &[u8]) -> (r: Vec<u8>)
    requires
        key32@.len() == 32,
    ensures
        r@ == salsa20_xor_of(key32@, data@),
        r@.len() == data@.len(),
{
    let nonce = [0u8; 8];
    let mut cipher = salsa20::Salsa20::new(
        salsa20::Key::from_slice(key32),
        salsa20::Nonce::from_slice(&nonce),
    );
    let mut buf = data.to_vec();
    cipher.apply_keystream(&mut buf);
    buf
}

/// `Some(pre + rest)` when `rest` is `Some`, else `None`: the shape of a
/// decoder step that prepends what it has produced to whatever the rest of
/// the input yields.
pub open spec fn opt_prepend<A>(pre: Seq<A>, rest: Option<Seq<A>>) -> Option<Seq<A>> {
    match rest {
        Some(r) => Some(pre + r),
        None => None,
    }
}

/// One byte of the fast-XOR cipher: the ciphertext byte's nibbles are
/// swapped, then XORed with the byte index (mod 256) and with one byte of the
/// 16-byte key.
pub open spec fn fast_decrypt_byte(c: u8, i: int, key: Seq<u8>) -> u8
    recommends
        0 <= i,
        key.len() == 16,
{
    ((c >> 4) | (c << 4)) ^ (((i % 256) as u8) ^ key[i % 16])
}

/// The plaintext that the fast-XOR cipher yields on a whole buffer.
pub open spec fn fast_decrypt_spec(data: Seq<u8>, key: Seq<u8>) -> Seq<u8>
    recommends
        key.len() == 16,
{
    Seq::new(data.len(), |i: int| fast_decrypt_byte(data[i], i, key))
}

/// One byte of the inverse transform: XOR with the position-mixed key byte
/// first, then swap the nibbles. This is what a producer of fast-XOR
/// encrypted data applies.
pub open spec fn fast_encrypt_byte(p: u8, i: int, key: Seq<u8>) -> u8
    recommends
        0 <= i,
        key.len() == 16,
{
    let x = p ^ (((i % 256) as u8) ^ key[i % 16]);
    (x >> 4) | (x << 4)
}

/// The ciphertext of the inverse transform on a whole buffer.
pub open spec fn fast_encrypt_spec(data: Seq<u8>, key: Seq<u8>) -> Seq<u8>
    recommends
        key.len() == 16,
{
    Seq::new(data.len(), |i: int| fast_encrypt_byte(data[i], i, key))
}

/// Decrypts a buffer with the fast-XOR cipher.
pub fn fast_decrypt(data: &[u8], key: &[u8]) -> (r: Vec<u8>)
    requires
        key@.len() == 16,
    ensures
        r@ == fast_decrypt_spec(data@, key@),
{
    let mut out: Vec<u8> = Vec::new();
    let mut i: usize = 0;
    while i < data.len()
        invariant
            key@.len() == 16,
            i <= data@.len(),
            out@.len() == i,
            forall|j: int| 0 <= j < i ==> out@[j] == fast_decrypt_byte(data@[j], j, key@),
        decreases data@.len() - i,
    {
        let c = data[i];
        let swapped: u8 = (c >> 4) | (c << 4);
        let pos: u8 = (i % 256) as u8;
        let k: u8 = key[i % 16];
        out.push(swapped ^ (pos ^ k));
        i = i + 1;
    }
    proof {
        assert(out@ =~= fast_decrypt_spec(data@, key@));
    }
    out
}

/// Decrypting undoes the inverse transform on each byte.
proof fn lemma_fast_cipher_byte_round_trip(p: u8, m: u8)
    ensures
        ({
            let x = p ^ m;
            let e = (x >> 4) | (x << 4);
            ((e >> 4) | (e << 4)) ^ m == p
        }),
{
    let x = p ^ m;
    let e = (x >> 4) | (x << 4);
    assert(((e >> 4) | (e << 4)) ^ m == p) by (bit_vector)
        requires
            x == p ^ m,
            e == (x >> 4) | (x << 4),
    ;
}

/// The fast-XOR cipher is the inverse of the transform that produced the
/// ciphertext: decrypting an encrypted buffer with the same key yields the
/// original bytes, whatever they are.
pub proof fn lemma_fast_cipher_round_trip(data: Seq<u8>, key: Seq<u8>)
    requires
        key.len() == 16,
    ensures
        fast_decrypt_spec(fast_encrypt_spec(data, key), key) == data,
{
    let enc = fast_encrypt_spec(data, key);
    assert forall|i: int| 0 <= i < data.len() implies fast_decrypt_spec(enc, key)[i]
        == data[i] by {
        let m = (((i % 256) as u8) ^ key[i % 16]);
        lemma_fast_cipher_byte_round_trip(data[i], m);
    }
    assert(fast_decrypt_spec(enc, key) =~= data);
}

} // verus!
