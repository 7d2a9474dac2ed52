use mdx::error::MdxError;
use mdx::keyblock::Entry;
use mdx::mdx::records_offset;
use mdx::recordblock::RecordBlockSize;
use mdx::unpack::{unpack_u16, unpack_u32, unpack_u64, utf16_le_lossy, utf16_le_string, Endian};

fn entry(text: &str, start: u64) -> Entry {
    Entry { text: text.to_string(), record_start_in_de_buf: start }
}

#[test]
fn unpack_fixed_width_integers() {
    let b = [0x01u8, 0x02, 0x03, 0x04, 0x05, 0x06, 0x07, 0x08];
    assert_eq!(unpack_u16(&b, Endian::BE), 0x0102);
    assert_eq!(unpack_u16(&b, Endian::LE), 0x0201);
    assert_eq!(unpack_u32(&b, Endian::BE), 0x01020304);
    assert_eq!(unpack_u32(&b, Endian::LE), 0x04030201);
    assert_eq!(unpack_u64(&b, Endian::BE), 0x0102030405060708);
    assert_eq!(unpack_u64(&b, Endian::LE), 0x0807060504030201);
}

#[test]
fn utf16_le_string_decodes_text() {
    let bytes: Vec<u8> = "caf\u{e9}".encode_utf16().flat_map(|u| u.to_le_bytes()).collect();
    assert_eq!(utf16_le_string(&bytes).unwrap(), "caf\u{e9}");
}

#[test]
fn utf16_le_string_decodes_surrogate_pairs() {
    let bytes: Vec<u8> = "\u{1f600}".encode_utf16().flat_map(|u| u.to_le_bytes()).collect();
    assert_eq!(bytes.len(), 4);
    assert_eq!(utf16_le_string(&bytes).unwrap(), "\u{1f600}");
}

#[test]
fn utf16_le_string_rejects_odd_length() {
    assert!(utf16_le_string(&[0x61, 0x00, 0x62]).is_none());
}

#[test]
fn utf16_le_string_rejects_unpaired_surrogate() {
    // a high surrogate with no low surrogate after it
    assert!(utf16_le_string(&[0x00, 0xd8, 0x61, 0x00]).is_none());
}

#[test]
fn utf16_le_lossy_replaces_unpaired_surrogate() {
    assert_eq!(utf16_le_lossy(&[0x00, 0xd8, 0x61, 0x00]), "\u{fffd}a");
    assert_eq!(utf16_le_lossy(&[0x61, 0x00, 0x62]), "a\u{fffd}");
}

#[test]
fn offsets_cover_every_entry_in_order() {
    let entries = vec![entry("a", 0), entry("b", 6), entry("c", 12), entry("d", 20)];
    let blocks = vec![
        RecordBlockSize { csize: 100, dsize: 12 },
        RecordBlockSize { csize: 50, dsize: 12 },
    ];
    let offs = records_offset(&entries, &blocks).unwrap();
    assert_eq!(offs.len(), 4);
    // the first block's entries tile [0, 12)
    assert_eq!(offs[0].record_start_in_de_block, 0);
    assert_eq!(offs[0].record_end_in_de_block, 6);
    assert_eq!(offs[1].record_start_in_de_block, 6);
    assert_eq!(offs[1].record_end_in_de_block, 12);
    // the second block's entries tile [0, 12) as well
    assert_eq!(offs[2].block_start_in_buf, 100);
    assert_eq!(offs[2].record_start_in_de_block, 0);
    assert_eq!(offs[2].record_end_in_de_block, 8);
    assert_eq!(offs[3].record_start_in_de_block, 8);
    assert_eq!(offs[3].record_end_in_de_block, 12);
    // strictly increasing (block, start) across the table
    assert!(offs[0].block_start_in_buf <= offs[1].block_start_in_buf);
    assert!(offs[1].record_start_in_de_block < offs[2].record_start_in_de_block + 12);
}

#[test]
fn offsets_boundary_entry_lands_in_next_block() {
    // a logical start equal to the end of the first block's span belongs to
    // the second block
    let entries = vec![entry("a", 0), entry("b", 12)];
    let blocks = vec![
        RecordBlockSize { csize: 30, dsize: 12 },
        RecordBlockSize { csize: 40, dsize: 5 },
    ];
    let offs = records_offset(&entries, &blocks).unwrap();
    assert_eq!(offs[0].record_end_in_de_block, 12);
    assert_eq!(offs[1].block_start_in_buf, 30);
    assert_eq!(offs[1].record_start_in_de_block, 0);
    assert_eq!(offs[1].record_end_in_de_block, 5);
}

#[test]
fn offsets_reject_leftover_entries() {
    let entries = vec![entry("a", 0), entry("b", 99)];
    let blocks = vec![RecordBlockSize { csize: 30, dsize: 12 }];
    assert_eq!(records_offset(&entries, &blocks).unwrap_err(), MdxError::Malformed);
}

#[test]
fn offsets_reject_record_past_block_end() {
    // the second entry sits in the next block, so the first record would end
    // beyond its own block
    let entries = vec![entry("a", 0), entry("b", 14)];
    let blocks = vec![
        RecordBlockSize { csize: 30, dsize: 12 },
        RecordBlockSize { csize: 30, dsize: 12 },
    ];
    assert_eq!(records_offset(&entries, &blocks).unwrap_err(), MdxError::Malformed);
}

#[test]
fn offsets_reject_unsorted_entries() {
    let entries = vec![entry("a", 10), entry("b", 2)];
    let blocks = vec![RecordBlockSize { csize: 30, dsize: 12 }];
    assert_eq!(records_offset(&entries, &blocks).unwrap_err(), MdxError::Malformed);
}

#[test]
fn offsets_of_empty_inputs() {
    let offs = records_offset(&Vec::new(), &Vec::new()).unwrap();
    assert_eq!(offs.len(), 0);
}

fn header_bytes(text: &str) -> Vec<u8> {
    let blob: Vec<u8> = text.encode_utf16().flat_map(|u| u.to_le_bytes()).collect();
    let mut out = (blob.len() as u32).to_be_bytes().to_vec();
    out.extend_from_slice(&blob);
    out.extend_from_slice(&[0u8; 4]);
    out
}

#[test]
fn header_carries_title_and_description() {
    let data = header_bytes(
        "<Dictionary GeneratedByEngineVersion=\"2.0\" Encrypted=\"2\" Encoding=\"UTF-8\" \
         Title=\"My Words\" Description=\"A test book\"/>",
    );
    let (h, used) = mdx::header::parse_header(&data).unwrap();
    assert_eq!(h.version, mdx::header::Version::V2);
    assert_eq!(h.encoding, "UTF-8");
    assert_eq!(h.encrypted, "2");
    assert!(h.key_index_encrypted);
    assert_eq!(h.title.as_deref(), Some("My Words"));
    assert_eq!(h.description.as_deref(), Some("A test book"));
    assert_eq!(used, data.len());
}

#[test]
fn header_without_title_or_description() {
    let data = header_bytes(
        "<Dictionary GeneratedByEngineVersion=\"1.2\" Encrypted=\"0\" Encoding=\"UTF-8\"/>",
    );
    let (h, _) = mdx::header::parse_header(&data).unwrap();
    assert_eq!(h.version, mdx::header::Version::V1);
    assert!(!h.key_index_encrypted);
    assert!(h.title.is_none());
    assert!(h.description.is_none());
}

#[test]
fn header_engine_version_threshold() {
    let two = header_bytes(
        "<Dictionary GeneratedByEngineVersion=\"3.5\" Encrypted=\"0\" Encoding=\"UTF-8\"/>",
    );
    assert_eq!(mdx::header::parse_header(&two).unwrap().0.version, mdx::header::Version::V2);
    let ten = header_bytes(
        "<Dictionary GeneratedByEngineVersion=\"10.2\" Encrypted=\"0\" Encoding=\"UTF-8\"/>",
    );
    assert_eq!(mdx::header::parse_header(&ten).unwrap().0.version, mdx::header::Version::V2);
    let one = header_bytes(
        "<Dictionary GeneratedByEngineVersion=\"1.9\" Encrypted=\"0\" Encoding=\"UTF-8\"/>",
    );
    assert_eq!(mdx::header::parse_header(&one).unwrap().0.version, mdx::header::Version::V1);
}
