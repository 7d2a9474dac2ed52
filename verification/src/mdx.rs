use vstd::prelude::*;

verus! {

use crate::error::MdxError;
use crate::header::TextEncoding;
use crate::header::{header_spec, int_width};
use crate::keyblock::{key_blocks_spec, key_csize_sum, key_header_field, key_header_size,
    key_info_body, key_info_spec, len_width, parse_key_block_header, parse_key_block_info,
    parse_key_blocks, Entry, EntrySpec};
use crate::recordblock::{block_decode_spec, check_block_sums, lemma_sums_nonneg,
    parse_record_blocks, record_block_parser, record_blocks_spec, record_index_field, sum_csize,
    sum_dsize, RecordBlockSize};
use crate::unpack::{string_from_utf8_lossy, utf16_le_lossy, utf16le_lossy_decode, utf8_lossy_of};
use crate::util::opt_prepend;

/// Physical coordinates of one record: which compressed block encloses it
/// (position and sizes of that block within the retained record-block
/// buffer), and where the record lies within the block's decompressed image.
#[derive(Debug, Clone)]
pub struct RecordOffset {
    /// The headword, owned.
    pub text: String,
    /// Byte offset of the enclosing compressed block in the record-block
    /// buffer: the sum of the compressed sizes of all preceding blocks.
    pub block_start_in_buf: u64,
    /// Compressed size of the enclosing block, framing prefix included.
    pub block_csize: u64,
    /// Decompressed size of the enclosing block.
    pub block_dsize: u64,
    /// First byte of the record within the decompressed block.
    pub record_start_in_de_block: u64,
    /// One past the last byte of the record within the decompressed block.
    pub record_end_in_de_block: u64,
}

/// One (headword, definition) pair as handed to callers.
#[derive(Debug, Clone)]
pub struct Record {
    pub text: String,
    pub definition: String,
}

/// A per-record decode failure, with the headword it belongs to.
#[derive(Debug, Clone)]
pub struct ItemError {
    pub text: String,
    pub err: MdxError,
}

/// One row of the coordinate table as mathematics: the index of the block
/// the record falls in, and the values of every `RecordOffset` field.
pub ghost struct DrainItem {
    pub block_index: int,
    pub text: Seq<char>,
    pub block_start_in_buf: int,
    pub block_csize: int,
    pub block_dsize: int,
    pub record_start_in_de_block: int,
    pub record_end_in_de_block: int,
}

/// The walk that joins the entry list against the block size table, from
/// entry `i` and block `b` on, with `sc` and `sd` the compressed and
/// decompressed bytes of the blocks already passed. An entry belongs to the
/// first remaining block whose decompressed span ends strictly after the
/// entry's logical start. `None` when an entry starts before the current
/// block, when a record's bounds leave `(start, dsize]`, when entries remain
/// after the last block, or when a running sum leaves `u64`.
pub open spec fn drain(
    entries: Seq<EntrySpec>,
    blocks: Seq<RecordBlockSize>,
    i: int,
    b: int,
    sc: int,
    sd: int,
) -> Option<Seq<DrainItem>>
    decreases blocks.len() - b, entries.len() - i,
{
    if i >= entries.len() {
        Some(Seq::empty())
    } else if b >= blocks.len() {
        None
    } else {
        let e = entries[i];
        let blk = blocks[b];
        if e.start < sd + blk.dsize {
            let start = e.start - sd;
            let end = if i + 1 < entries.len() {
                entries[i + 1].start - sd
            } else {
                blk.dsize as int
            };
            if 0 <= start && start < end && end <= blk.dsize {
                opt_prepend(
                    seq![
                        (DrainItem {
                            block_index: b,
                            text: e.text,
                            block_start_in_buf: sc,
                            block_csize: blk.csize as int,
                            block_dsize: blk.dsize as int,
                            record_start_in_de_block: start,
                            record_end_in_de_block: end,
                        }),
                    ],
                    drain(entries, blocks, i + 1, b, sc, sd),
                )
            } else {
                None
            }
        } else if sc + blk.csize > u64::MAX || sd + blk.dsize > u64::MAX {
            None
        } else {
            drain(entries, blocks, i, b + 1, sc + blk.csize, sd + blk.dsize)
        }
    }
}

/// The coordinate table that an entry list and a block size table determine,
/// when they are consistent.
pub open spec fn record_offsets_spec(entries: Seq<EntrySpec>, blocks: Seq<RecordBlockSize>) -> Option<
    Seq<DrainItem>,
> {
    drain(entries, blocks, 0, 0, 0, 0)
}

/// The entry list as mathematics.
pub open spec fn entries_view(es: Seq<Entry>) -> Seq<EntrySpec> {
    Seq::new(
        es.len(),
        |i: int| EntrySpec { text: es[i].text@, start: es[i].record_start_in_de_buf as int },
    )
}

/// A produced coordinate row equals a mathematical row, field for field.
pub open spec fn off_matches(o: RecordOffset, d: DrainItem) -> bool {
    &&& o.text@ == d.text
    &&& o.block_start_in_buf == d.block_start_in_buf
    &&& o.block_csize == d.block_csize
    &&& o.block_dsize == d.block_dsize
    &&& o.record_start_in_de_block == d.record_start_in_de_block
    &&& o.record_end_in_de_block == d.record_end_in_de_block
}

/// Joins the entry list against the record-block size table: walks blocks in
/// order and drains every entry whose logical start lies strictly before the
/// end of the current block's decompressed span, producing one coordinate
/// row per entry. Fails when the two inputs are misaligned: an entry that
/// starts before the current block or at one whose record bounds leave the
/// block, or entries left over after the last block.
pub fn records_offset(entries: &Vec<Entry>, record_blocks_size: &Vec<RecordBlockSize>) -> (r:
    Result<Vec<RecordOffset>, MdxError>)
    ensures
        match r {
            Ok(offs) => {
                &&& record_offsets_spec(entries_view(entries@), record_blocks_size@) is Some
                &&& offs@.len() == entries@.len()
                &&& ({
                    let ds = record_offsets_spec(entries_view(entries@), record_blocks_size@)->Some_0;
                    &&& ds.len() == offs@.len()
                    &&& forall|k: int| 0 <= k < ds.len() ==> off_matches(offs@[k], #[trigger] ds[k])
                })
            },
            Err(e) => {
                &&& record_offsets_spec(entries_view(entries@), record_blocks_size@) is None
                &&& e == MdxError::Malformed
            },
        },
{
    let n = entries.len();
    let m = record_blocks_size.len();
    let mut positions: Vec<RecordOffset> = Vec::new();
    let ghost mut gds: Seq<DrainItem> = Seq::empty();
    let mut i: usize = 0;
    let mut b: usize = 0;
    let mut sd: u64 = 0;
    let mut sc: u64 = 0;
    proof {
        assert(opt_prepend(gds, drain(entries_view(entries@), record_blocks_size@, 0, 0, 0, 0))
            == record_offsets_spec(entries_view(entries@), record_blocks_size@)) by {
            match drain(entries_view(entries@), record_blocks_size@, 0, 0, 0, 0) {
                Some(rest) => {
                    assert(gds + rest =~= rest);
                },
                None => {},
            }
        }
    }
    while b < m && i < n
        invariant
            n == entries@.len(),
            m == record_blocks_size@.len(),
            i <= n,
            b <= m,
            positions@.len() == i,
            gds.len() == i,
            record_offsets_spec(entries_view(entries@), record_blocks_size@) == opt_prepend(
                gds,
                drain(entries_view(entries@), record_blocks_size@, i as int, b as int, sc as int, sd as int),
            ),
            forall|k: int| 0 <= k < i ==> off_matches(positions@[k], #[trigger] gds[k]),
        decreases m - b,
    {
        let blk = record_blocks_size[b];
        while i < n && (entries[i].record_start_in_de_buf as u128) < (sd as u128)
            + (blk.dsize as u128)
            invariant
                n == entries@.len(),
                m == record_blocks_size@.len(),
                i <= n,
                b < m,
                blk == record_blocks_size@[b as int],
                positions@.len() == i,
                gds.len() == i,
                record_offsets_spec(entries_view(entries@), record_blocks_size@) == opt_prepend(
                    gds,
                    drain(entries_view(entries@), record_blocks_size@, i as int, b as int, sc as int, sd as int),
                ),
                forall|k: int| 0 <= k < i ==> off_matches(positions@[k], #[trigger] gds[k]),
            decreases n - i,
        {
            let e = &entries[i];
            let ghost cur = drain(
                entries_view(entries@),
                record_blocks_size@,
                i as int,
                b as int,
                sc as int,
                sd as int,
            );
            if e.record_start_in_de_buf < sd {
                proof {
                    assert(cur is None);
                }
                return Err(MdxError::Malformed);
            }
            let start: u64 = e.record_start_in_de_buf - sd;
            let end: u64;
            if i + 1 < n {
                let nx = entries[i + 1].record_start_in_de_buf;
                if nx < sd {
                    proof {
                        assert(cur is None);
                    }
                    return Err(MdxError::Malformed);
                }
                end = nx - sd;
            } else {
                end = blk.dsize;
            }
            if !(start < end && end <= blk.dsize) {
                proof {
                    assert(cur is None);
                }
                return Err(MdxError::Malformed);
            }
            let ghost item = DrainItem {
                block_index: b as int,
                text: e.text@,
                block_start_in_buf: sc as int,
                block_csize: blk.csize as int,
                block_dsize: blk.dsize as int,
                record_start_in_de_block: start as int,
                record_end_in_de_block: end as int,
            };
            proof {
                let rest = drain(
                    entries_view(entries@),
                    record_blocks_size@,
                    i + 1,
                    b as int,
                    sc as int,
                    sd as int,
                );
                assert(cur == opt_prepend(seq![item], rest));
                match rest {
                    Some(rs) => {
                        assert((gds + (seq![item] + rs)) =~= ((gds + seq![item]) + rs));
                    },
                    None => {},
                }
                gds = gds + seq![item];
            }
            positions.push(
                RecordOffset {
                    text: e.text.clone(),
                    block_start_in_buf: sc,
                    block_csize: blk.csize,
                    block_dsize: blk.dsize,
                    record_start_in_de_block: start,
                    record_end_in_de_block: end,
                },
            );
            i = i + 1;
        }
        if i < n {
            // advance the running sums to the next block
            let nsd: u128 = (sd as u128) + (blk.dsize as u128);
            let nsc: u128 = (sc as u128) + (blk.csize as u128);
            if nsd > (u64::MAX as u128) || nsc > (u64::MAX as u128) {
                proof {
                    assert(drain(
                        entries_view(entries@),
                        record_blocks_size@,
                        i as int,
                        b as int,
                        sc as int,
                        sd as int,
                    ) is None);
                }
                return Err(MdxError::Malformed);
            }
            sd = nsd as u64;
            sc = nsc as u64;
        }
        b = b + 1;
    }
    if i < n {
        proof {
            assert(drain(
                entries_view(entries@),
                record_blocks_size@,
                i as int,
                b as int,
                sc as int,
                sd as int,
            ) is None);
        }
        return Err(MdxError::Malformed);
    }
    proof {
        assert(drain(entries_view(entries@), record_blocks_size@, i as int, b as int, sc as int, sd as int)
            == Some(Seq::<DrainItem>::empty()));
        assert(gds + Seq::<DrainItem>::empty() =~= gds);
    }
    Ok(positions)
}

/// What decoding one record yields: slice the enclosing block out of the
/// record-block buffer, decrypt and decompress it, cut the record's byte
/// range out of the decompressed image, and decode that lossily in the
/// dictionary's encoding. Coordinates that leave the buffer or the image are
/// a `Malformed` error; the block decode's own errors pass through.
pub open spec fn definition_of(buf: Seq<u8>, rs: RecordOffset, enc: TextEncoding) -> Result<
    Seq<char>,
    MdxError,
> {
    match block_decode_spec(
        buf.subrange(
            rs.block_start_in_buf as int,
            rs.block_start_in_buf + rs.block_csize,
        ),
        rs.block_dsize as nat,
    ) {
        Err(e) => Err(e),
        Ok(plain) => {
            if rs.record_start_in_de_block <= rs.record_end_in_de_block
                && rs.record_end_in_de_block <= plain.len() {
                let bytes = plain.subrange(
                    rs.record_start_in_de_block as int,
                    rs.record_end_in_de_block as int,
                );
                Ok(
                    match enc {
                        TextEncoding::Utf8 => utf8_lossy_of(bytes),
                        TextEncoding::Utf16Le => utf16le_lossy_decode(bytes),
                    },
                )
            } else {
                Err(MdxError::Malformed)
            }
        },
    }
}

/// The sections of an MDX image as mathematics: the key-index entries, the
/// record-block size table, the retained record-block bytes, and the header
/// fields that decoding keeps.
pub ghost struct MdxSpec {
    pub entries: Seq<EntrySpec>,
    pub blocks: Seq<RecordBlockSize>,
    pub buf: Seq<u8>,
    pub encoding: Seq<char>,
    pub encrypted: Seq<char>,
    pub encoding_kind: TextEncoding,
}

/// What a whole file image denotes: the header section, then the key-block
/// header, info table and bodies, then the record index, whose remaining
/// bytes are the record-block buffer. `None` when any section is malformed,
/// when the key blocks do not fill exactly their declared length, or when
/// the size table disagrees with the buffer or the declared total.
pub open spec fn mdx_spec(data: Seq<u8>) -> Option<MdxSpec> {
    match header_spec(data) {
        None => None,
        Some(h) => {
            let w = int_width(h.version);
            let d1 = data.subrange(h.consumed, data.len() as int);
            if d1.len() < key_header_size(h.version) {
                None
            } else {
                let nkb = key_header_field(d1, w, 0);
                let il = key_header_field(d1, w, 2);
                let kbl = key_header_field(d1, w, 3);
                let d2 = d1.subrange(key_header_size(h.version), d1.len() as int);
                if il < 4 || d2.len() < il {
                    None
                } else {
                    match key_info_spec(
                        key_info_body(d2.subrange(0, il), h.key_index_encrypted),
                        0,
                        w,
                        len_width(h.version),
                        nkb,
                    ) {
                        None => None,
                        Some(infos) => {
                            let d3 = d2.subrange(il, d2.len() as int);
                            match key_blocks_spec(d3, 0, w, h.encoding_kind, infos, 0) {
                                None => None,
                                Some(es) => {
                                    if key_csize_sum(infos, 0) != kbl {
                                        None
                                    } else {
                                        let d4 = d3.subrange(kbl, d3.len() as int);
                                        let mrb = record_index_field(d4, w, 0);
                                        let il2 = record_index_field(d4, w, 2);
                                        let rbl = record_index_field(d4, w, 3);
                                        if d4.len() < 4 * w || il2 != mrb * (2 * w) || 4 * w + il2
                                            > d4.len() {
                                            None
                                        } else {
                                            let blocks = record_blocks_spec(d4, w, mrb as nat);
                                            let buf = d4.subrange(4 * w + il2, d4.len() as int);
                                            if sum_csize(blocks) <= buf.len() && sum_dsize(blocks)
                                                == rbl && (forall|k: int|
                                                0 <= k < blocks.len() ==> (
                                                #[trigger] blocks[k]).dsize <= usize::MAX) {
                                                Some(
                                                    (MdxSpec {
                                                        entries: es,
                                                        blocks,
                                                        buf,
                                                        encoding: h.encoding,
                                                        encrypted: h.encrypted,
                                                        encoding_kind: h.encoding_kind,
                                                    }),
                                                )
                                            } else {
                                                None
                                            }
                                        }
                                    }
                                },
                            }
                        },
                    }
                }
            }
        },
    }
}

/// An MDX dictionary, opened: the retained record-block buffer, one
/// coordinate row per entry, and the header fields that decoding needs. The
/// key-index bytes and the size tables are not retained; they have been
/// projected into the coordinate rows.
#[derive(Debug)]
pub struct Mdx {
    pub records_offset: Vec<RecordOffset>,
    pub record_block_buf: Vec<u8>,
    /// The `Encoding` header attribute, verbatim.
    pub encoding: String,
    /// The `Encrypted` header attribute, verbatim.
    pub encrypted: String,
    /// The decoder that `encoding` selects.
    pub encoding_kind: TextEncoding,
}

impl Mdx {
    /// Every coordinate row points at a block that lies within the retained
    /// buffer, with sizes a machine word can index, and record bounds inside
    /// the block's decompressed span. `new` establishes this for every `Mdx`
    /// it returns.
    pub open spec fn wf(self) -> bool {
        forall|k: int|
            0 <= k < self.records_offset@.len() ==> {
                let o = #[trigger] self.records_offset@[k];
                &&& o.block_start_in_buf + o.block_csize <= self.record_block_buf@.len()
                &&& o.block_csize <= usize::MAX
                &&& o.block_dsize <= usize::MAX
                &&& o.record_start_in_de_block < o.record_end_in_de_block <= o.block_dsize
            }
    }

    /// Opens an MDX image: drives the header, key-index and record-index
    /// decoders, builds the coordinate table, and retains the record-block
    /// bytes. Succeeds exactly when every section is well formed and the
    /// entry list joins cleanly against the record-block size table; no
    /// partial `Mdx` is ever handed out, and the one handed out carries the
    /// sections that `mdx_spec` reads off the image.
    #[verifier::rlimit(100)]
    pub fn new(data: &[u8]) -> (r: Result<Mdx, MdxError>)
        ensures
            match r {
                Ok(m) => {
                    &&& m.wf()
                    &&& mdx_spec(data@) is Some
                    &&& ({
                        let sp = mdx_spec(data@)->Some_0;
                        &&& m.record_block_buf@ == sp.buf
                        &&& m.encoding@ == sp.encoding
                        &&& m.encrypted@ == sp.encrypted
                        &&& m.encoding_kind == sp.encoding_kind
                        &&& record_offsets_spec(sp.entries, sp.blocks) is Some
                        &&& ({
                            let ds = record_offsets_spec(sp.entries, sp.blocks)->Some_0;
                            &&& ds.len() == m.records_offset@.len()
                            &&& forall|k: int|
                                0 <= k < ds.len() ==> off_matches(
                                    #[trigger] m.records_offset@[k],
                                    ds[k],
                                )
                        })
                    })
                },
                Err(_) => mdx_spec(data@) is None || record_offsets_spec(
                    mdx_spec(data@)->Some_0.entries,
                    mdx_spec(data@)->Some_0.blocks,
                ) is None,
            },
    {
        let n = data.len();
        let (header, used0) = match crate::header::parse_header(data) {
            Ok(t) => t,
            Err(e) => {
                return Err(e);
            },
        };
        let ghost h = header_spec(data@)->Some_0;
        let ghost w = int_width(header.version);
        let mut pos = used0;
        let ghost d1 = data@.subrange(used0 as int, n as int);
        let (kbh, used1) = match parse_key_block_header(&data[pos..n], &header) {
            Ok(t) => t,
            Err(e) => {
                proof {
                    assert(mdx_spec(data@) is None);
                }
                return Err(e);
            },
        };
        pos = pos + used1;
        let ghost d2 = data@.subrange(used0 + used1, n as int);
        proof {
            assert(d2 =~= d1.subrange(key_header_size(header.version), d1.len() as int));
        }
        let (key_blocks_size, used2) = match parse_key_block_info(
            &data[pos..n],
            kbh.key_block_info_len,
            kbh.num_key_blocks,
            &header,
        ) {
            Ok(t) => t,
            Err(e) => {
                proof {
                    assert(mdx_spec(data@) is None);
                }
                return Err(e);
            },
        };
        pos = pos + used2;
        let ghost d3 = data@.subrange(used0 + used1 + used2, n as int);
        proof {
            assert(d2.subrange(0, kbh.key_block_info_len as int) =~= data@.subrange(
                used0 + used1,
                used0 + used1 + used2,
            ));
            assert(d3 =~= d2.subrange(kbh.key_block_info_len as int, d2.len() as int));
        }
        let (entries, used3) = match parse_key_blocks(
            &data[pos..n],
            kbh.key_blocks_len,
            &header,
            &key_blocks_size,
        ) {
            Ok(t) => t,
            Err(e) => {
                proof {
                    assert(mdx_spec(data@) is None);
                }
                return Err(e);
            },
        };
        pos = pos + used3;
        let ghost d4 = data@.subrange(used0 + used1 + used2 + used3, n as int);
        proof {
            assert(d4 =~= d3.subrange(kbh.key_blocks_len as int, d3.len() as int));
        }
        let (record_blocks_size, record_buf_len, used4) = match parse_record_blocks(
            &data[pos..n],
            &header,
        ) {
            Ok(t) => t,
            Err(e) => {
                proof {
                    assert(mdx_spec(data@) is None);
                }
                return Err(e);
            },
        };
        pos = pos + used4;
        let record_block_buf: Vec<u8> = vstd::slice::slice_to_vec(&data[pos..n]);
        proof {
            assert(record_block_buf@ =~= d4.subrange(
                4 * w + record_index_field(d4, w, 2),
                d4.len() as int,
            ));
        }
        if !check_block_sums(&record_blocks_size, record_block_buf.len(), record_buf_len) {
            proof {
                assert(mdx_spec(data@) is None);
            }
            return Err(MdxError::Malformed);
        }
        let ghost sp = mdx_spec(data@)->Some_0;
        proof {
            assert(mdx_spec(data@) is Some);
            assert(entries_view(entries@) =~= sp.entries);
            assert(sp.blocks == record_blocks_size@);
        }
        let offset = match records_offset(&entries, &record_blocks_size) {
            Ok(o) => o,
            Err(e) => {
                return Err(e);
            },
        };
        let m = Mdx {
            records_offset: offset,
            record_block_buf,
            encoding: header.encoding,
            encrypted: header.encrypted,
            encoding_kind: header.encoding_kind,
        };
        proof {
            lemma_offsets_coverage(entries_view(entries@), record_blocks_size@);
            lemma_sums_nonneg(record_blocks_size@);
            let ds = record_offsets_spec(entries_view(entries@), record_blocks_size@)->Some_0;
            assert forall|k: int| 0 <= k < m.records_offset@.len() implies {
                let o = #[trigger] m.records_offset@[k];
                &&& o.block_start_in_buf + o.block_csize <= m.record_block_buf@.len()
                &&& o.block_csize <= usize::MAX
                &&& o.block_dsize <= usize::MAX
                &&& o.record_start_in_de_block < o.record_end_in_de_block <= o.block_dsize
            } by {
                assert(off_matches(m.records_offset@[k], ds[k]));
                assert(ds[k].block_dsize == record_blocks_size@[ds[k].block_index].dsize);
            }
        }
        Ok(m)
    }

    /// The coordinate table, in entry order.
    pub fn entries(&self) -> (r: &Vec<RecordOffset>)
        ensures
            r@ == self.records_offset@,
    {
        &self.records_offset
    }

    /// Decodes the one record that a coordinate row points at. The row must
    /// point into this dictionary's buffer (rows from `entries` do).
    pub fn find_definition(&self, rs: &RecordOffset) -> (r: Result<String, MdxError>)
        requires
            rs.block_start_in_buf + rs.block_csize <= self.record_block_buf@.len(),
            rs.block_csize <= usize::MAX,
            rs.block_dsize <= usize::MAX,
        ensures
            match r {
                Ok(s) => definition_of(self.record_block_buf@, *rs, self.encoding_kind) == Ok::<
                    Seq<char>,
                    MdxError,
                >(s@),
                Err(e) => definition_of(self.record_block_buf@, *rs, self.encoding_kind) == Err::<
                    Seq<char>,
                    MdxError,
                >(e),
            },
    {
        let buflen = self.record_block_buf.len();
        proof {
            assert(rs.block_start_in_buf + rs.block_csize <= buflen);
        }
        let bs = rs.block_start_in_buf as usize;
        let cs = rs.block_csize as usize;
        let block_buf = &self.record_block_buf.as_slice()[bs..bs + cs];
        proof {
            assert(block_buf@.subrange(0, cs as int) =~= self.record_block_buf@.subrange(
                rs.block_start_in_buf as int,
                rs.block_start_in_buf + rs.block_csize,
            ));
        }
        let decompressed = match record_block_parser(block_buf, cs, rs.block_dsize) {
            Ok(v) => v,
            Err(e) => {
                return Err(e);
            },
        };
        if !(rs.record_start_in_de_block <= rs.record_end_in_de_block
            && rs.record_end_in_de_block <= decompressed.len() as u64) {
            return Err(MdxError::Malformed);
        }
        let s = rs.record_start_in_de_block as usize;
        let e2 = rs.record_end_in_de_block as usize;
        let record = &decompressed.as_slice()[s..e2];
        let def = match self.encoding_kind {
            TextEncoding::Utf8 => string_from_utf8_lossy(record),
            TextEncoding::Utf16Le => utf16_le_lossy(record),
        };
        Ok(def)
    }

    /// Decodes every record, in entry order: one `Record` per coordinate
    /// row, or, where that one block fails to decode, an error carrying the
    /// row's headword — a single damaged block does not disturb the other
    /// records.
    pub fn items(&self) -> (r: Vec<Result<Record, ItemError>>)
        requires
            self.wf(),
        ensures
            r@.len() == self.records_offset@.len(),
            forall|k: int|
                0 <= k < r@.len() ==> {
                    let o = self.records_offset@[k];
                    match #[trigger] r@[k] {
                        Ok(rec) => rec.text@ == o.text@ && definition_of(
                            self.record_block_buf@,
                            o,
                            self.encoding_kind,
                        ) == Ok::<Seq<char>, MdxError>(rec.definition@),
                        Err(ie) => ie.text@ == o.text@ && definition_of(
                            self.record_block_buf@,
                            o,
                            self.encoding_kind,
                        ) == Err::<Seq<char>, MdxError>(ie.err),
                    }
                },
    {
        let mut out: Vec<Result<Record, ItemError>> = Vec::new();
        let mut k: usize = 0;
        while k < self.records_offset.len()
            invariant
                self.wf(),
                k <= self.records_offset@.len(),
                out@.len() == k,
                forall|j: int|
                    0 <= j < k ==> {
                        let o = self.records_offset@[j];
                        match #[trigger] out@[j] {
                            Ok(rec) => rec.text@ == o.text@ && definition_of(
                                self.record_block_buf@,
                                o,
                                self.encoding_kind,
                            ) == Ok::<Seq<char>, MdxError>(rec.definition@),
                            Err(ie) => ie.text@ == o.text@ && definition_of(
                                self.record_block_buf@,
                                o,
                                self.encoding_kind,
                            ) == Err::<Seq<char>, MdxError>(ie.err),
                        }
                    },
            decreases self.records_offset@.len() - k,
        {
            let rs = &self.records_offset[k];
            match self.find_definition(rs) {
                Ok(d) => {
                    out.push(Ok(Record { text: rs.text.clone(), definition: d }));
                },
                Err(e) => {
                    out.push(Err(ItemError { text: rs.text.clone(), err: e }));
                },
            }
            k = k + 1;
        }
        out
    }
}

/// Structure of a successful walk from state `(i, b, sc, sd)`: exactly one
/// row per remaining entry; every row lies in a remaining block and carries
/// that block's sizes; its record bounds sit inside the block; its buffer
/// position spans bytes between `sc` and the end of the remaining blocks'
/// compressed run; and the first row starts no later than the first entry's
/// logical offset, counted from `sd`.
pub proof fn lemma_drain_rows(
    entries: Seq<EntrySpec>,
    blocks: Seq<RecordBlockSize>,
    i: int,
    b: int,
    sc: int,
    sd: int,
)
    requires
        drain(entries, blocks, i, b, sc, sd) is Some,
        0 <= i,
        0 <= b <= blocks.len(),
    ensures
        ({
            let ds = drain(entries, blocks, i, b, sc, sd)->Some_0;
            &&& ds.len() == if i < entries.len() {
                entries.len() - i
            } else {
                0
            }
            &&& forall|k: int|
                0 <= k < ds.len() ==> {
                    let d = #[trigger] ds[k];
                    &&& b <= d.block_index < blocks.len()
                    &&& d.block_csize == blocks[d.block_index].csize
                    &&& d.block_dsize == blocks[d.block_index].dsize
                    &&& 0 <= d.record_start_in_de_block < d.record_end_in_de_block
                        <= d.block_dsize
                    &&& d.text == entries[i + k].text
                    &&& sc <= d.block_start_in_buf
                    &&& d.block_start_in_buf + d.block_csize <= sc + sum_csize(
                        blocks.skip(b),
                    )
                }
            &&& (ds.len() > 0 ==> ds[0].record_start_in_de_block <= entries[i].start - sd)
            &&& (ds.len() > 0 && ds[0].block_index == b ==> ds[0].record_start_in_de_block
                == entries[i].start - sd && ds[0].block_start_in_buf == sc)
        }),
    decreases blocks.len() - b, entries.len() - i,
{
    let ds = drain(entries, blocks, i, b, sc, sd)->Some_0;
    if i >= entries.len() {
    } else if b >= blocks.len() {
        assert(false);
    } else {
        let e = entries[i];
        let blk = blocks[b];
        lemma_sums_nonneg(blocks.skip(b));
        lemma_sums_nonneg(blocks.skip(b + 1));
        assert(blocks.skip(b).drop_first() =~= blocks.skip(b + 1));
        assert(blocks.skip(b)[0] == blocks[b]);
        if e.start < sd + blk.dsize {
            let rest = drain(entries, blocks, i + 1, b, sc, sd);
            assert(rest is Some);
            lemma_drain_rows(entries, blocks, i + 1, b, sc, sd);
            let rs = rest->Some_0;
            assert(ds.len() == 1 + rs.len());
            assert forall|k: int| 1 <= k < ds.len() implies ds[k] == rs[k - 1] by {}
        } else {
            lemma_drain_rows(entries, blocks, i, b + 1, sc + blk.csize, sd + blk.dsize);
        }
    }
}

/// Order and tiling of a successful walk: rows are strictly increasing in
/// (block index, record start); consecutive rows that share a block tile it,
/// each row ending exactly where the next begins; a row that closes a block
/// ends at the block's decompressed size; and a row that opens a block after
/// another row starts at offset zero.
pub proof fn lemma_drain_tiling(
    entries: Seq<EntrySpec>,
    blocks: Seq<RecordBlockSize>,
    i: int,
    b: int,
    sc: int,
    sd: int,
)
    requires
        drain(entries, blocks, i, b, sc, sd) is Some,
        0 <= i,
        0 <= b <= blocks.len(),
    ensures
        ({
            let ds = drain(entries, blocks, i, b, sc, sd)->Some_0;
            &&& forall|k: int|
                0 <= k < ds.len() - 1 ==> {
                    &&& ((#[trigger] ds[k]).block_index < ds[k + 1].block_index || (
                    ds[k].block_index == ds[k + 1].block_index
                        && ds[k].record_start_in_de_block < ds[k + 1].record_start_in_de_block))
                    &&& (ds[k].block_index == ds[k + 1].block_index ==> ds[
                        k
                    ].record_end_in_de_block == ds[k + 1].record_start_in_de_block)
                    &&& (ds[k].block_index != ds[k + 1].block_index ==> ds[
                        k
                    ].record_end_in_de_block == ds[k].block_dsize && ds[k
                        + 1].record_start_in_de_block == 0)
                }
            &&& (ds.len() > 0 ==> ds.last().record_end_in_de_block == ds.last().block_dsize)
        }),
    decreases blocks.len() - b, entries.len() - i,
{
    let ds = drain(entries, blocks, i, b, sc, sd)->Some_0;
    if i >= entries.len() {
    } else if b >= blocks.len() {
        assert(false);
    } else {
        let e = entries[i];
        let blk = blocks[b];
        if e.start < sd + blk.dsize {
            let rest = drain(entries, blocks, i + 1, b, sc, sd);
            assert(rest is Some);
            let rs = rest->Some_0;
            lemma_drain_tiling(entries, blocks, i + 1, b, sc, sd);
            lemma_drain_rows(entries, blocks, i + 1, b, sc, sd);
            assert(ds.len() == 1 + rs.len());
            assert forall|k: int| 1 <= k < ds.len() implies ds[k] == rs[k - 1] by {}
            if rs.len() > 0 {
                // the boundary pair: the drained row and the first of the rest
                assert(i + 1 < entries.len());
                let end0 = entries[i + 1].start - sd;
                assert(ds[0].record_end_in_de_block == end0);
                if rs[0].block_index == b {
                    assert(rs[0].record_start_in_de_block == end0);
                } else {
                    assert(rs[0].block_index > b);
                    // drain at (i + 1, b) must have advanced, so the next
                    // entry starts at or past this block's end
                    assert(!(entries[i + 1].start < sd + blk.dsize));
                    assert(end0 >= blk.dsize);
                    assert(ds[0].record_end_in_de_block == blk.dsize);
                    // and after the advance the walk's origin has moved to
                    // exactly the block boundary the entry sits on or before
                    assert(rest == drain(
                        entries,
                        blocks,
                        i + 1,
                        b + 1,
                        sc + blk.csize,
                        sd + blk.dsize,
                    ));
                    lemma_drain_rows(
                        entries,
                        blocks,
                        i + 1,
                        b + 1,
                        sc + blk.csize,
                        sd + blk.dsize,
                    );
                    assert(rs[0].record_start_in_de_block <= entries[i + 1].start - (sd
                        + blk.dsize));
                    assert(rs[0].record_start_in_de_block == 0);
                }
            }
        } else {
            lemma_drain_tiling(entries, blocks, i, b + 1, sc + blk.csize, sd + blk.dsize);
        }
    }
}

/// Coverage: a successful build yields exactly one row per entry, in entry
/// order, each with its record's bounds inside its block's decompressed
/// span and its block lying within the blocks' compressed run.
pub proof fn lemma_offsets_coverage(entries: Seq<EntrySpec>, blocks: Seq<RecordBlockSize>)
    requires
        record_offsets_spec(entries, blocks) is Some,
    ensures
        ({
            let ds = record_offsets_spec(entries, blocks)->Some_0;
            &&& ds.len() == entries.len()
            &&& forall|k: int|
                0 <= k < ds.len() ==> {
                    let d = #[trigger] ds[k];
                    &&& 0 <= d.block_index < blocks.len()
                    &&& d.block_csize == blocks[d.block_index].csize
                    &&& d.block_dsize == blocks[d.block_index].dsize
                    &&& 0 <= d.record_start_in_de_block < d.record_end_in_de_block
                        <= d.block_dsize
                    &&& d.text == entries[k].text
                    &&& 0 <= d.block_start_in_buf
                    &&& d.block_start_in_buf + d.block_csize <= sum_csize(blocks)
                }
        }),
{
    lemma_drain_rows(entries, blocks, 0, 0, 0, 0);
    assert(blocks.skip(0) =~= blocks);
}

/// Monotonicity: across the table, the pair (block index, record start) is
/// strictly increasing.
pub proof fn lemma_offsets_monotonic(entries: Seq<EntrySpec>, blocks: Seq<RecordBlockSize>)
    requires
        record_offsets_spec(entries, blocks) is Some,
    ensures
        ({
            let ds = record_offsets_spec(entries, blocks)->Some_0;
            forall|k: int|
                0 <= k < ds.len() - 1 ==> ((#[trigger] ds[k]).block_index < ds[k + 1].block_index
                    || (ds[k].block_index == ds[k + 1].block_index
                    && ds[k].record_start_in_de_block < ds[k + 1].record_start_in_de_block))
        }),
{
    lemma_drain_tiling(entries, blocks, 0, 0, 0, 0);
}

/// Partition: within any one block the rows tile its decompressed image,
/// each row ending exactly where the next begins; the row that closes a
/// block ends at the block's size; and every row that opens a block — other
/// than the very first row of the table — starts at offset zero. So a block
/// with at least one row is covered by its rows without gap or overlap from
/// its first row's start to its decompressed size.
pub proof fn lemma_offsets_partition(entries: Seq<EntrySpec>, blocks: Seq<RecordBlockSize>)
    requires
        record_offsets_spec(entries, blocks) is Some,
    ensures
        ({
            let ds = record_offsets_spec(entries, blocks)->Some_0;
            &&& forall|k: int|
                0 <= k < ds.len() - 1 ==> {
                    &&& ((#[trigger] ds[k]).block_index == ds[k + 1].block_index ==> ds[
                        k
                    ].record_end_in_de_block == ds[k + 1].record_start_in_de_block)
                    &&& (ds[k].block_index != ds[k + 1].block_index ==> ds[
                        k
                    ].record_end_in_de_block == ds[k].block_dsize && ds[k
                        + 1].record_start_in_de_block == 0)
                }
            &&& (ds.len() > 0 ==> ds.last().record_end_in_de_block == ds.last().block_dsize)
            &&& (entries.len() > 0 && entries[0].start == 0 ==> ds[0].record_start_in_de_block
                == 0)
        }),
{
    lemma_drain_tiling(entries, blocks, 0, 0, 0, 0);
    lemma_drain_rows(entries, blocks, 0, 0, 0, 0);
}

/// Decoding the same record twice yields the same text: what `items` and
/// `find_definition` return is a function of the retained buffer, the
/// coordinate row and the encoding alone, so repeated decodes agree.
pub proof fn lemma_decode_deterministic(
    buf: Seq<u8>,
    rs: RecordOffset,
    enc: TextEncoding,
    r1: Seq<char>,
    r2: Seq<char>,
)
    requires
        definition_of(buf, rs, enc) == Ok::<Seq<char>, MdxError>(r1),
        definition_of(buf, rs, enc) == Ok::<Seq<char>, MdxError>(r2),
    ensures
        r1 == r2,
{
}

} // verus!
