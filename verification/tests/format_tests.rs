use mdx::error::MdxError;
use mdx::mdx::Mdx;
use ripemd::Digest;
use salsa20::cipher::{KeyIvInit, StreamCipher};
use std::io::Write;

fn be(v: u64, w: usize) -> Vec<u8> {
    v.to_be_bytes()[8 - w..].to_vec()
}

fn utf16le(s: &str) -> Vec<u8> {
    s.encode_utf16().flat_map(|u| u.to_le_bytes()).collect()
}

fn ripemd128(data: &[u8]) -> Vec<u8> {
    ripemd::Ripemd128::digest(data).to_vec()
}

/// The inverse of the reader's fast-XOR cipher.
fn fast_encrypt(data: &[u8], key: &[u8]) -> Vec<u8> {
    data.iter()
        .enumerate()
        .map(|(i, &p)| {
            let x = p ^ ((i & 0xff) as u8 ^ key[i % 16]);
            (x >> 4) | (x << 4)
        })
        .collect()
}

fn zlib_compress(data: &[u8]) -> Vec<u8> {
    let mut enc = flate2::write::ZlibEncoder::new(Vec::new(), flate2::Compression::default());
    enc.write_all(data).unwrap();
    enc.finish().unwrap()
}

fn lzo_compress(data: &[u8]) -> Vec<u8> {
    let mut lzo = minilzo_rs::LZO::init().unwrap();
    lzo.compress(data).unwrap()
}

/// Frames one block: enc_word (LE), 4 checksum bytes, then the compressed
/// and encrypted payload.
fn frame_block(plain: &[u8], comp: u8, enc: u8) -> Vec<u8> {
    let checksum = [0x01u8, 0x02, 0x03, 0x04];
    let compressed = match comp {
        0 => plain.to_vec(),
        1 => lzo_compress(plain),
        2 => zlib_compress(plain),
        _ => panic!("bad comp"),
    };
    let key = ripemd128(&checksum);
    let encrypted = match enc {
        0 => compressed,
        1 => fast_encrypt(&compressed, &key),
        2 => {
            let mut key32 = key.clone();
            key32.extend_from_slice(&key);
            let mut cipher = salsa20::Salsa20::new(
                salsa20::Key::from_slice(&key32),
                salsa20::Nonce::from_slice(&[0u8; 8]),
            );
            let mut buf = compressed;
            cipher.apply_keystream(&mut buf);
            buf
        }
        _ => panic!("bad enc"),
    };
    let enc_word = (comp as u32) | ((enc as u32) << 4);
    let mut out = enc_word.to_le_bytes().to_vec();
    out.extend_from_slice(&checksum);
    out.extend_from_slice(&encrypted);
    out
}

fn header_section(engine: &str, encrypted: &str, encoding: &str) -> Vec<u8> {
    let text = format!(
        "<Dictionary GeneratedByEngineVersion=\"{}\" Encrypted=\"{}\" Encoding=\"{}\"/>",
        engine, encrypted, encoding
    );
    let blob = utf16le(&text);
    let mut out = be(blob.len() as u64, 4);
    out.extend_from_slice(&blob);
    out.extend_from_slice(&[0u8; 4]);
    out
}

struct KeySpec<'a> {
    entries: Vec<(u64, &'a str)>,
    comp: u8,
    enc: u8,
}

/// Builds a whole MDX image. `w` is 4 for V1, 8 for V2; `utf16` selects how
/// headwords are encoded; `info_encrypted` scrambles the key-block info
/// table; each record block is (plaintext, comp, enc).
fn build_mdx(
    engine: &str,
    encrypted_attr: &str,
    encoding: &str,
    key_blocks: &[KeySpec],
    record_blocks: &[(&[u8], u8, u8)],
) -> Vec<u8> {
    let utf16 = encoding == "UTF-16";
    let w = if engine.starts_with('1') { 4 } else { 8 };
    let lw = if w == 4 { 1 } else { 2 };
    let info_encrypted = encrypted_attr
        .chars()
        .take_while(|c| c.is_ascii_digit())
        .collect::<String>()
        .parse::<u64>()
        .map(|v| v & 2 != 0)
        .unwrap_or(false);

    let mut out = header_section(engine, encrypted_attr, encoding);

    // key block bodies and the info table that describes them
    let mut kb_bytes: Vec<u8> = Vec::new();
    let mut info_body: Vec<u8> = Vec::new();
    let mut total_entries = 0u64;
    for kb in key_blocks {
        let mut plain: Vec<u8> = Vec::new();
        for (start, word) in &kb.entries {
            plain.extend_from_slice(&be(*start, w));
            if utf16 {
                plain.extend_from_slice(&utf16le(word));
                plain.extend_from_slice(&[0, 0]);
            } else {
                plain.extend_from_slice(word.as_bytes());
                plain.push(0);
            }
        }
        let framed = frame_block(&plain, kb.comp, kb.enc);
        info_body.extend_from_slice(&be(kb.entries.len() as u64, w));
        info_body.extend_from_slice(&be(0, lw)); // empty first headword
        info_body.extend_from_slice(&be(0, lw)); // empty last headword
        info_body.extend_from_slice(&be(framed.len() as u64, w));
        info_body.extend_from_slice(&be(plain.len() as u64, w));
        total_entries += kb.entries.len() as u64;
        kb_bytes.extend_from_slice(&framed);
    }
    let prefix = [0x11u8, 0x22, 0x33, 0x44];
    let body = if info_encrypted {
        let mut seed = prefix.to_vec();
        seed.extend_from_slice(&[0x95, 0x36, 0x00, 0x00]);
        fast_encrypt(&info_body, &ripemd128(&seed))
    } else {
        info_body
    };
    let mut info = prefix.to_vec();
    info.extend_from_slice(&body);

    // key block header
    out.extend_from_slice(&be(key_blocks.len() as u64, w));
    out.extend_from_slice(&be(total_entries, w));
    out.extend_from_slice(&be(info.len() as u64, w));
    out.extend_from_slice(&be(kb_bytes.len() as u64, w));
    if w == 8 {
        out.extend_from_slice(&[0u8; 4]);
    }
    out.extend_from_slice(&info);
    out.extend_from_slice(&kb_bytes);

    // record index and record blocks
    let mut buf: Vec<u8> = Vec::new();
    let mut pairs: Vec<u8> = Vec::new();
    let mut total_dsize = 0u64;
    for (plain, comp, enc) in record_blocks {
        let framed = frame_block(plain, *comp, *enc);
        pairs.extend_from_slice(&be(framed.len() as u64, w));
        pairs.extend_from_slice(&be(plain.len() as u64, w));
        total_dsize += plain.len() as u64;
        buf.extend_from_slice(&framed);
    }
    out.extend_from_slice(&be(record_blocks.len() as u64, w));
    out.extend_from_slice(&be(total_entries, w));
    out.extend_from_slice(&be((record_blocks.len() * 2 * w) as u64, w));
    out.extend_from_slice(&be(total_dsize, w));
    out.extend_from_slice(&pairs);
    out.extend_from_slice(&buf);
    out
}

#[test]
fn tiny_v1_uncompressed_unencrypted() {
    let data = build_mdx(
        "1.2",
        "0",
        "UTF-8",
        &[KeySpec { entries: vec![(0, "a"), (6, "b")], comp: 0, enc: 0 }],
        &[(b"first\0second", 0, 0)],
    );
    let m = Mdx::new(&data).unwrap();
    let offs = m.entries();
    assert_eq!(offs.len(), 2);
    assert_eq!(offs[0].record_start_in_de_block, 0);
    assert_eq!(offs[0].record_end_in_de_block, 6);
    assert_eq!(offs[1].record_start_in_de_block, 6);
    assert_eq!(offs[1].record_end_in_de_block, 12);
    let items = m.items();
    let r0 = items[0].as_ref().unwrap();
    let r1 = items[1].as_ref().unwrap();
    assert_eq!(r0.text, "a");
    assert_eq!(r0.definition, "first\u{0}");
    assert_eq!(r1.text, "b");
    assert_eq!(r1.definition, "second");
}

#[test]
fn v2_zlib_unencrypted_pi() {
    let data = build_mdx(
        "2.0",
        "0",
        "UTF-8",
        &[KeySpec { entries: vec![(0, "\u{3c0}")], comp: 2, enc: 0 }],
        &[(b"ratio", 2, 0)],
    );
    let m = Mdx::new(&data).unwrap();
    let items = m.items();
    assert_eq!(items.len(), 1);
    let r = items[0].as_ref().unwrap();
    assert_eq!(r.text, "\u{3c0}");
    assert_eq!(r.definition, "ratio");
}

#[test]
fn v2_lzo_fast_xor_three_entries() {
    let plain = b"alpha\0beta\0gamma\0";
    let data = build_mdx(
        "2.0",
        "2",
        "UTF-8",
        &[KeySpec { entries: vec![(0, "one"), (6, "two"), (11, "three")], comp: 1, enc: 1 }],
        &[(plain, 1, 1)],
    );
    let m = Mdx::new(&data).unwrap();
    let items = m.items();
    assert_eq!(items.len(), 3);
    assert_eq!(items[0].as_ref().unwrap().definition, "alpha\u{0}");
    assert_eq!(items[1].as_ref().unwrap().definition, "beta\u{0}");
    assert_eq!(items[2].as_ref().unwrap().definition, "gamma\u{0}");
}

#[test]
fn salsa20_block_round_trip() {
    let data = build_mdx(
        "2.0",
        "0",
        "UTF-8",
        &[KeySpec { entries: vec![(0, "s")], comp: 0, enc: 2 }],
        &[(b"stream", 0, 2)],
    );
    let m = Mdx::new(&data).unwrap();
    let items = m.items();
    assert_eq!(items[0].as_ref().unwrap().definition, "stream");
}

#[test]
fn zlib_fast_xor_combined() {
    let data = build_mdx(
        "2.0",
        "0",
        "UTF-8",
        &[KeySpec { entries: vec![(0, "z")], comp: 2, enc: 1 }],
        &[(b"zipped", 2, 1)],
    );
    let m = Mdx::new(&data).unwrap();
    assert_eq!(m.items()[0].as_ref().unwrap().definition, "zipped");
}

#[test]
fn boundary_entry_goes_to_next_block() {
    let data = build_mdx(
        "1.0",
        "0",
        "UTF-8",
        &[KeySpec { entries: vec![(0, "a"), (12, "b")], comp: 0, enc: 0 }],
        &[(b"aaaaaaaaaaaa", 0, 0), (b"bbbbbbbbbbbb", 0, 0)],
    );
    let m = Mdx::new(&data).unwrap();
    let offs = m.entries();
    assert_eq!(offs[0].record_start_in_de_block, 0);
    assert_eq!(offs[0].record_end_in_de_block, 12);
    assert_eq!(offs[1].record_start_in_de_block, 0);
    assert_eq!(offs[1].record_end_in_de_block, 12);
    assert!(offs[1].block_start_in_buf > 0);
    assert_eq!(offs[1].block_start_in_buf, offs[0].block_csize);
}

#[test]
fn corrupt_block_fails_only_its_records() {
    let data = build_mdx(
        "1.0",
        "0",
        "UTF-8",
        &[KeySpec { entries: vec![(0, "good"), (5, "bad")], comp: 0, enc: 0 }],
        &[(b"fine\0", 2, 0), (b"broken\0", 2, 0)],
    );
    let mut m = Mdx::new(&data).unwrap();
    // flip one byte inside the second block's compressed payload
    let start = m.entries()[1].block_start_in_buf as usize;
    m.record_block_buf[start + 8] ^= 0xff;
    let items = m.items();
    assert_eq!(items.len(), 2);
    assert_eq!(items[0].as_ref().unwrap().definition, "fine\u{0}");
    let err = items[1].as_ref().unwrap_err();
    assert_eq!(err.text, "bad");
    assert_eq!(err.err, MdxError::Decompress);
}

#[test]
fn utf16_headword_round_trip() {
    let def = utf16le("coffee");
    let data = build_mdx(
        "2.0",
        "0",
        "UTF-16",
        &[KeySpec { entries: vec![(0, "caf\u{e9}")], comp: 0, enc: 0 }],
        &[(&def, 0, 0)],
    );
    let m = Mdx::new(&data).unwrap();
    let items = m.items();
    let r = items[0].as_ref().unwrap();
    assert_eq!(r.text, "caf\u{e9}");
    assert_eq!(r.definition, "coffee");
}

#[test]
fn decode_is_stable_across_calls() {
    let data = build_mdx(
        "2.0",
        "0",
        "UTF-8",
        &[KeySpec { entries: vec![(0, "x")], comp: 2, enc: 0 }],
        &[(b"same bytes", 2, 0)],
    );
    let m = Mdx::new(&data).unwrap();
    let a = m.items()[0].as_ref().unwrap().definition.clone();
    let b = m.items()[0].as_ref().unwrap().definition.clone();
    assert_eq!(a, b);
}

#[test]
fn lossy_definition_replaces_bad_bytes() {
    let data = build_mdx(
        "1.0",
        "0",
        "UTF-8",
        &[KeySpec { entries: vec![(0, "junk")], comp: 0, enc: 0 }],
        &[(&[b'o', b'k', 0xff, 0xfe], 0, 0)],
    );
    let m = Mdx::new(&data).unwrap();
    let items = m.items();
    assert_eq!(items[0].as_ref().unwrap().definition, "ok\u{fffd}\u{fffd}");
}

#[test]
fn unknown_compression_is_unsupported() {
    // frame a record block whose low nibble names no known method
    let mut data = build_mdx(
        "1.0",
        "0",
        "UTF-8",
        &[KeySpec { entries: vec![(0, "u")], comp: 0, enc: 0 }],
        &[(b"abc", 0, 0)],
    );
    let n = data.len();
    data[n - 11] = 3; // enc_word low byte of the only record block
    let m = Mdx::new(&data).unwrap();
    let items = m.items();
    assert_eq!(items[0].as_ref().unwrap_err().err, MdxError::Unsupported);
}

#[test]
fn truncated_image_is_fatal() {
    assert_eq!(Mdx::new(&[0, 0]).unwrap_err(), MdxError::Truncated);
    let data = build_mdx(
        "1.0",
        "0",
        "UTF-8",
        &[KeySpec { entries: vec![(0, "a")], comp: 0, enc: 0 }],
        &[(b"abc", 0, 0)],
    );
    assert!(Mdx::new(&data[..data.len() - 4]).is_err());
}

#[test]
fn bad_header_text_is_fatal() {
    // an odd header length cannot be UTF-16LE
    let mut data = vec![0, 0, 0, 3];
    data.extend_from_slice(&[0x3c, 0x00, 0x44]);
    data.extend_from_slice(&[0u8; 4]);
    assert_eq!(Mdx::new(&data).unwrap_err(), MdxError::TextDecoding);
}

#[test]
fn missing_attribute_is_fatal() {
    let mut data = be(utf16le("<Dictionary Encoding=\"UTF-8\"/>").len() as u64, 4);
    data.extend_from_slice(&utf16le("<Dictionary Encoding=\"UTF-8\"/>"));
    data.extend_from_slice(&[0u8; 4]);
    assert_eq!(Mdx::new(&data).unwrap_err(), MdxError::Malformed);
}

#[test]
fn invalid_headword_bytes_are_fatal() {
    // headwords are decoded strictly: 0xff is not UTF-8
    let mut data = build_mdx(
        "1.0",
        "0",
        "UTF-8",
        &[KeySpec { entries: vec![(0, "A")], comp: 0, enc: 0 }],
        &[(b"abc", 0, 0)],
    );
    // the key block is stored uncompressed: patch the headword byte "A"
    let pos = data.iter().position(|&b| b == b'A').unwrap();
    data[pos] = 0xff;
    assert_eq!(Mdx::new(&data).unwrap_err(), MdxError::TextDecoding);
}

#[test]
fn find_definition_matches_items() {
    let data = build_mdx(
        "2.0",
        "0",
        "UTF-8",
        &[KeySpec { entries: vec![(0, "w")], comp: 2, enc: 0 }],
        &[(b"word", 2, 0)],
    );
    let m = Mdx::new(&data).unwrap();
    let offs = m.entries().clone();
    assert_eq!(m.find_definition(&offs[0]).unwrap(), "word");
}
