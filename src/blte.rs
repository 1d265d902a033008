//! The chunked block-table container ("BLTE") and its decompression.
use std::io::Read;
use vstd::prelude::*;

use crate::error::{DecodeError, FormatError};
use crate::hash::Md5Hash;
use crate::wire::{be16, be32, copy_range, read_hash, read_u16_be, read_u32_be};

verus! {

/// The chunk count and flags that follow the header size.
#[derive(Debug, Clone, Copy, PartialEq, Eq, Structural)]
pub struct ChunkInfo {
    pub flags: u8,
    pub flag_ext: u8,
    pub chunk_count: u16,
}

/// The declared sizes and checksum of one chunk.
#[derive(Debug, Clone, Copy)]
pub struct ChunkInfoEntry {
    pub compressed_size: u32,
    pub decompressed_size: u32,
    pub checksum: Md5Hash,
}

/// How the payload of a chunk is encoded.
#[derive(Debug, Clone, Copy, PartialEq, Eq, Structural)]
pub enum EncodingMode {
    /// Tag `N`: the payload is the data itself.
    PlainData,
    /// Tag `Z`: the payload is a zlib stream.
    Zlib,
    /// Tag `F`: the payload is a nested block table.
    Recursive,
    /// Tag `E`: the payload is encrypted.
    Encrypted,
}

/// The mode tag and payload of one chunk.
#[derive(Debug, Clone)]
pub struct DataChunk {
    pub encoding_mode: EncodingMode,
    pub data: Vec<u8>,
}

/// One parsed container: the header, the chunk table and the chunks, the
/// `i`-th chunk belonging to the `i`-th entry of the chunk table.
#[derive(Debug, Clone)]
pub struct BlockTable {
    pub header_size: u32,
    pub chunk_info: ChunkInfo,
    pub chunk_info_entries: Vec<ChunkInfoEntry>,
    pub chunk_data: Vec<DataChunk>,
}

#[verifier::external_type_specification]
#[verifier::external_body]
pub struct ExIoError(std::io::Error);

/// What a zlib decoder yields for a stream: `None` where the stream is
/// malformed.
pub uninterp spec fn zlib_inflate(data: Seq<u8>) -> Option<Seq<u8>>;

/// Relies on flate2::bufread::ZlibDecoder read to the end: an error for a
/// malformed stream, else the inflated bytes, both fixed by the input alone.
#[verifier::external_body]
fn inflate(data: &Vec<u8>) -> (r: Result<Vec<u8>, std::io::Error>)
    ensures
        match r {
            Ok(v) => zlib_inflate(data@) == Some(v@),
            Err(_) => zlib_inflate(data@) is None,
        },
{
    let mut decoder = flate2::bufread::ZlibDecoder::new(std::io::Cursor::new(data));
    let mut out = Vec::new();
    decoder.read_to_end(&mut out).map(|_| out)
}

/// What chunk `i` contributes to the output: a plain payload as it is, a
/// zlib payload inflated, each only if it has the declared decompressed size.
pub open spec fn chunk_output(e: ChunkInfoEntry, c: DataChunk, i: int) -> Result<
    Seq<u8>,
    DecodeError,
> {
    match c.encoding_mode {
        EncodingMode::PlainData => {
            if c.data@.len() == e.decompressed_size {
                Ok(c.data@)
            } else {
                Err(DecodeError::SizeMismatch(i as usize))
            }
        },
        EncodingMode::Zlib => {
            match zlib_inflate(c.data@) {
                None => Err(DecodeError::Inflate(i as usize)),
                Some(out) => {
                    if out.len() == e.decompressed_size {
                        Ok(out)
                    } else {
                        Err(DecodeError::SizeMismatch(i as usize))
                    }
                },
            }
        },
        EncodingMode::Recursive => Err(DecodeError::Unsupported(EncodingMode::Recursive)),
        EncodingMode::Encrypted => Err(DecodeError::Unsupported(EncodingMode::Encrypted)),
    }
}

/// The outputs of the first `n` chunks concatenated in chunk order, or the
/// error of the first chunk that fails.
pub open spec fn decompress_prefix(
    entries: Seq<ChunkInfoEntry>,
    chunks: Seq<DataChunk>,
    n: nat,
) -> Result<Seq<u8>, DecodeError>
    decreases n,
{
    if n == 0 {
        Ok(Seq::empty())
    } else {
        match decompress_prefix(entries, chunks, (n - 1) as nat) {
            Err(e) => Err(e),
            Ok(acc) => match chunk_output(entries[n - 1], chunks[n - 1], n - 1) {
                Err(e) => Err(e),
                Ok(out) => Ok(acc + out),
            },
        }
    }
}

/// The sum of the declared decompressed sizes of the first `n` entries.
pub open spec fn declared_size(entries: Seq<ChunkInfoEntry>, n: nat) -> int
    decreases n,
{
    if n == 0 {
        0
    } else {
        declared_size(entries, (n - 1) as nat) + entries[n - 1].decompressed_size
    }
}

/// Whether no chunk among the first `n` is nested or encrypted.
pub open spec fn only_plain_or_zlib(chunks: Seq<DataChunk>, n: nat) -> bool {
    forall|i: int|
        0 <= i < n ==> (#[trigger] chunks[i]).encoding_mode == EncodingMode::PlainData
            || chunks[i].encoding_mode == EncodingMode::Zlib
}

/// A table of plain and zlib chunks that decompresses yields exactly as many
/// bytes as its entries declare in sum.
pub proof fn lemma_decompressed_length(t: BlockTable)
    requires
        t.wf(),
        only_plain_or_zlib(t.chunk_data@, t.chunk_data@.len()),
    ensures
        decompress_prefix(t.chunk_info_entries@, t.chunk_data@, t.chunk_data@.len()) matches Ok(
            out,
        ) ==> out.len() == declared_size(t.chunk_info_entries@, t.chunk_data@.len()),
{
    lemma_prefix_length(t.chunk_info_entries@, t.chunk_data@, t.chunk_data@.len());
}

proof fn lemma_prefix_length(entries: Seq<ChunkInfoEntry>, chunks: Seq<DataChunk>, n: nat)
    ensures
        decompress_prefix(entries, chunks, n) matches Ok(out) ==> out.len() == declared_size(
            entries,
            n,
        ),
    decreases n,
{
    if n > 0 {
        lemma_prefix_length(entries, chunks, (n - 1) as nat);
    }
}

/// Once a prefix of the chunks fails, every longer prefix fails the same way.
proof fn lemma_error_persists(
    entries: Seq<ChunkInfoEntry>,
    chunks: Seq<DataChunk>,
    k: nat,
    m: nat,
)
    requires
        k <= m,
        decompress_prefix(entries, chunks, k) is Err,
    ensures
        decompress_prefix(entries, chunks, m) == decompress_prefix(entries, chunks, k),
    decreases m - k,
{
    if k < m {
        lemma_error_persists(entries, chunks, k, (m - 1) as nat);
    }
}

/// Every chunk of a parsed table has a payload one byte shorter than its
/// declared compressed size; a table whose bytes cannot supply that is refused.
pub proof fn lemma_payload_lengths(b: Seq<u8>, t: BlockTable)
    requires
        t.parsed_from(b),
        t.wf(),
    ensures
        forall|i: int|
            0 <= i < t.chunk_data@.len() ==> (#[trigger] t.chunk_data@[i]).data@.len()
                == t.chunk_info_entries@[i].compressed_size - 1,
        forall|i: int|
            0 <= i < t.chunk_data@.len() ==> chunk_start(b, i as nat) + (
            #[trigger] t.chunk_info_entries@[i]).compressed_size <= b.len(),
{
    assert forall|i: int| 0 <= i < t.chunk_data@.len() implies chunk_start(b, i as nat) + (
    #[trigger] t.chunk_info_entries@[i]).compressed_size <= b.len() by {
        assert(t.entry_from(b, i));
        assert(t.chunk_from(b, i));
    }
}

/// The encoding mode that a tag byte names.
pub open spec fn mode_of(tag: u8) -> Option<EncodingMode> {
    if tag == 0x4e {
        Some(EncodingMode::PlainData)
    } else if tag == 0x5a {
        Some(EncodingMode::Zlib)
    } else if tag == 0x46 {
        Some(EncodingMode::Recursive)
    } else if tag == 0x45 {
        Some(EncodingMode::Encrypted)
    } else {
        None
    }
}

fn decode_mode(tag: u8) -> (r: Option<EncodingMode>)
    ensures
        r == mode_of(tag),
{
    if tag == 0x4e {
        Some(EncodingMode::PlainData)
    } else if tag == 0x5a {
        Some(EncodingMode::Zlib)
    } else if tag == 0x46 {
        Some(EncodingMode::Recursive)
    } else if tag == 0x45 {
        Some(EncodingMode::Encrypted)
    } else {
        None
    }
}

/// Whether the bytes start with the tag `BLTE`.
pub open spec fn has_blte_magic(b: Seq<u8>) -> bool {
    b[0] == 0x42 && b[1] == 0x4c && b[2] == 0x54 && b[3] == 0x45
}

/// The declared number of chunks.
pub open spec fn declared_chunks(b: Seq<u8>) -> int {
    be16(b, 10)
}

/// Where the chunk table entry `i` starts.
pub open spec fn entry_start(i: int) -> int {
    12 + 24 * i
}

/// Where the first chunk starts, just after the chunk table.
pub open spec fn chunk_table_end(b: Seq<u8>) -> int {
    entry_start(declared_chunks(b))
}

/// The compressed size that entry `i` declares.
pub open spec fn compressed_size_at(b: Seq<u8>, i: int) -> int {
    be32(b, entry_start(i))
}

/// Where chunk `i` starts: the chunks follow each other, each taking the
/// compressed size its entry declares.
pub open spec fn chunk_start(b: Seq<u8>, i: nat) -> int
    decreases i,
{
    if i == 0 {
        chunk_table_end(b)
    } else {
        chunk_start(b, (i - 1) as nat) + compressed_size_at(b, i - 1)
    }
}

/// What is wrong with chunk `i`, if anything: a compressed size of zero leaves
/// no room for the mode tag, an unknown tag is malformed, and a chunk must fit.
pub open spec fn chunk_error(b: Seq<u8>, i: nat) -> Option<FormatError> {
    let cs = compressed_size_at(b, i as int);
    let p = chunk_start(b, i);
    if cs == 0 {
        Some(FormatError::Malformed)
    } else if p >= b.len() {
        Some(FormatError::Truncated)
    } else if mode_of(b[p]) is None {
        Some(FormatError::Malformed)
    } else if p + cs > b.len() {
        Some(FormatError::Truncated)
    } else {
        None
    }
}

/// The error of the first faulty chunk from `i` on.
pub open spec fn first_chunk_error(b: Seq<u8>, i: nat) -> Option<FormatError>
    decreases declared_chunks(b) - i,
{
    if i >= declared_chunks(b) {
        None
    } else if chunk_error(b, i) is Some {
        chunk_error(b, i)
    } else {
        first_chunk_error(b, i + 1)
    }
}

/// Why the bytes are not a block table, or `None` when they are one.
pub open spec fn block_table_error(b: Seq<u8>) -> Option<FormatError> {
    if b.len() < 4 {
        Some(FormatError::Truncated)
    } else if !has_blte_magic(b) {
        Some(FormatError::BadMagic)
    } else if b.len() < 12 || b.len() < chunk_table_end(b) {
        Some(FormatError::Truncated)
    } else {
        first_chunk_error(b, 0)
    }
}

impl BlockTable {
    /// The chunk table and the chunks pair up, and each payload is one byte
    /// shorter than its compressed size, that byte being the mode tag.
    pub open spec fn wf(&self) -> bool {
        &&& self.chunk_info_entries@.len() == self.chunk_info.chunk_count
        &&& self.chunk_data@.len() == self.chunk_info.chunk_count
        &&& forall|i: int|
            0 <= i < self.chunk_data@.len() ==> self.chunk_info_entries@[i].compressed_size >= 1
                && #[trigger] self.chunk_data@[i].data@.len()
                == self.chunk_info_entries@[i].compressed_size - 1
    }

    /// Entry `i` holds the fields stored in the chunk table of `b`.
    pub open spec fn entry_from(&self, b: Seq<u8>, i: int) -> bool {
        let e = self.chunk_info_entries@[i];
        &&& e.compressed_size == be32(b, entry_start(i))
        &&& e.decompressed_size == be32(b, entry_start(i) + 4)
        &&& e.checksum@ == b.subrange(entry_start(i) + 8, entry_start(i) + 24)
    }

    /// Chunk `i` holds the tag and payload stored at its place in `b`.
    pub open spec fn chunk_from(&self, b: Seq<u8>, i: int) -> bool {
        let p = chunk_start(b, i as nat);
        let c = self.chunk_data@[i];
        &&& p + compressed_size_at(b, i) <= b.len()
        &&& mode_of(b[p]) == Some(c.encoding_mode)
        &&& c.data@ == b.subrange(p + 1, p + compressed_size_at(b, i))
    }

    /// Every field of the table is the one stored in `b`.
    pub open spec fn parsed_from(&self, b: Seq<u8>) -> bool {
        &&& self.header_size == be32(b, 4)
        &&& self.chunk_info.flags == b[8]
        &&& self.chunk_info.flag_ext == b[9]
        &&& self.chunk_info.chunk_count == declared_chunks(b)
        &&& self.chunk_info_entries@.len() == declared_chunks(b)
        &&& self.chunk_data@.len() == declared_chunks(b)
        &&& forall|i: int| 0 <= i < declared_chunks(b) ==> #[trigger] self.entry_from(b, i)
        &&& forall|i: int| 0 <= i < declared_chunks(b) ==> #[trigger] self.chunk_from(b, i)
    }

    /// Parses a block table: the tag `BLTE`, the header size, the chunk count
    /// and flags, one 24-byte entry per chunk, then each chunk as a mode tag
    /// followed by the rest of its compressed size. All fields are big-endian.
    #[verifier::rlimit(20)]
    pub fn parse(b: &[u8]) -> (r: Result<BlockTable, FormatError>)
        ensures
            match r {
                Ok(t) => block_table_error(b@) is None && t.parsed_from(b@) && t.wf(),
                Err(e) => block_table_error(b@) == Some(e),
            },
    {
        if b.len() < 4 {
            return Err(FormatError::Truncated);
        }
        if !(b[0] == 0x42 && b[1] == 0x4c && b[2] == 0x54 && b[3] == 0x45) {
            return Err(FormatError::BadMagic);
        }
        if b.len() < 12 {
            return Err(FormatError::Truncated);
        }
        let header_size = read_u32_be(b, 4);
        let chunk_count = read_u16_be(b, 10);
        let chunk_info = ChunkInfo { flags: b[8], flag_ext: b[9], chunk_count };
        let n = chunk_count as usize;
        let table_end = 12 + 24 * n;
        if b.len() < table_end {
            return Err(FormatError::Truncated);
        }
        let mut entries: Vec<ChunkInfoEntry> = Vec::with_capacity(n);
        let mut i: usize = 0;
        while i < n
            invariant
                n == declared_chunks(b@),
                table_end == chunk_table_end(b@),
                table_end <= b@.len(),
                block_table_error(b@) == first_chunk_error(b@, 0),
                i <= n,
                entries@.len() == i,
                forall|k: int|
                    0 <= k < i ==> {
                        let e = #[trigger] entries@[k];
                        &&& e.compressed_size == be32(b@, entry_start(k))
                        &&& e.decompressed_size == be32(b@, entry_start(k) + 4)
                        &&& e.checksum@ == b@.subrange(entry_start(k) + 8, entry_start(k) + 24)
                    },
            decreases n - i,
        {
            let p = 12 + 24 * i;
            let entry = ChunkInfoEntry {
                compressed_size: read_u32_be(b, p),
                decompressed_size: read_u32_be(b, p + 4),
                checksum: read_hash(b, p + 8),
            };
            entries.push(entry);
            i = i + 1;
        }
        let mut chunks: Vec<DataChunk> = Vec::with_capacity(n);
        let mut pos: usize = table_end;
        let mut i: usize = 0;
        while i < n
            invariant
                n == declared_chunks(b@),
                table_end == chunk_table_end(b@),
                entries@.len() == n,
                forall|k: int|
                    0 <= k < n ==> (#[trigger] entries@[k]).compressed_size == be32(
                        b@,
                        entry_start(k),
                    ),
                i <= n,
                pos == chunk_start(b@, i as nat),
                block_table_error(b@) == first_chunk_error(b@, 0),
                pos <= b@.len(),
                chunks@.len() == i,
                first_chunk_error(b@, 0) == first_chunk_error(b@, i as nat),
                forall|k: int|
                    0 <= k < i ==> {
                        let p = chunk_start(b@, k as nat);
                        let c = #[trigger] chunks@[k];
                        &&& mode_of(b@[p]) == Some(c.encoding_mode)
                        &&& c.data@ == b@.subrange(p + 1, p + compressed_size_at(b@, k))
                        &&& compressed_size_at(b@, k) >= 1
                        &&& 0 <= p < b@.len()
                        &&& p + compressed_size_at(b@, k) <= b@.len()
                        &&& c.data@.len() == compressed_size_at(b@, k) - 1
                    },
            decreases n - i,
        {
            let cs = entries[i].compressed_size as usize;
            assert(cs == compressed_size_at(b@, i as int));
            if cs == 0 {
                return Err(FormatError::Malformed);
            }
            if pos >= b.len() {
                return Err(FormatError::Truncated);
            }
            let mode = match decode_mode(b[pos]) {
                Some(m) => m,
                None => {
                    return Err(FormatError::Malformed);
                },
            };
            if cs > b.len() - pos {
                return Err(FormatError::Truncated);
            }
            let data = copy_range(b, pos + 1, pos + cs);
            chunks.push(DataChunk { encoding_mode: mode, data });
            pos = pos + cs;
            i = i + 1;
        }
        assert(first_chunk_error(b@, n as nat) is None);
        let t = BlockTable {
            header_size,
            chunk_info,
            chunk_info_entries: entries,
            chunk_data: chunks,
        };
        assert forall|k: int| 0 <= k < declared_chunks(b@) implies #[trigger] t.entry_from(
            b@,
            k,
        ) by {
            assert(t.chunk_info_entries@[k] == entries@[k]);
        }
        assert forall|k: int| 0 <= k < declared_chunks(b@) implies #[trigger] t.chunk_from(
            b@,
            k,
        ) by {
            assert(t.chunk_data@[k] == chunks@[k]);
        }
        assert forall|k: int| 0 <= k < t.chunk_data@.len() implies t.chunk_info_entries@[k].compressed_size >= 1
            && #[trigger] t.chunk_data@[k].data@.len() == t.chunk_info_entries@[k].compressed_size - 1 by {
            assert(t.chunk_data@[k] == chunks@[k]);
            assert(t.chunk_info_entries@[k] == entries@[k]);
        }
        Ok(t)
    }

    /// Concatenates the decoded chunks in chunk order. Nested and encrypted
    /// chunks are reported as unsupported; a chunk whose output differs from
    /// its declared decompressed size is reported as a mismatch.
    pub fn decompress(&self) -> (r: Result<Vec<u8>, DecodeError>)
        requires
            self.wf(),
        ensures
            match r {
                Ok(v) => decompress_prefix(
                    self.chunk_info_entries@,
                    self.chunk_data@,
                    self.chunk_data@.len(),
                ) == Ok::<Seq<u8>, DecodeError>(v@),
                Err(e) => decompress_prefix(
                    self.chunk_info_entries@,
                    self.chunk_data@,
                    self.chunk_data@.len(),
                ) == Err::<Seq<u8>, DecodeError>(e),
            },
    {
        let mut full: Vec<u8> = Vec::new();
        let n = self.chunk_data.len();
        let mut i: usize = 0;
        while i < n
            invariant
                self.wf(),
                n == self.chunk_data@.len(),
                i <= n,
                decompress_prefix(self.chunk_info_entries@, self.chunk_data@, i as nat) == Ok::<
                    Seq<u8>,
                    DecodeError,
                >(full@),
            decreases n - i,
        {
            let chunk = &self.chunk_data[i];
            let expected = self.chunk_info_entries[i].decompressed_size as usize;
            match chunk.encoding_mode {
                EncodingMode::PlainData => {
                    if chunk.data.len() != expected {
                        proof {
                            lemma_error_persists(self.chunk_info_entries@, self.chunk_data@, i as nat + 1, n as nat);
                        }
                        return Err(DecodeError::SizeMismatch(i));
                    }
                    let mut out = chunk.data.clone();
                    assert(out@ == chunk.data@);
                    full.append(&mut out);
                },
                EncodingMode::Zlib => {
                    match inflate(&chunk.data) {
                        Err(_) => {
                            proof {
                                lemma_error_persists(self.chunk_info_entries@, self.chunk_data@, i as nat + 1, n as nat);
                            }
                            return Err(DecodeError::Inflate(i));
                        },
                        Ok(mut out) => {
                            if out.len() != expected {
                                proof {
                                    lemma_error_persists(self.chunk_info_entries@, self.chunk_data@, i as nat + 1, n as nat);
                                }
                                return Err(DecodeError::SizeMismatch(i));
                            }
                            full.append(&mut out);
                        },
                    }
                },
                EncodingMode::Recursive => {
                    proof {
                        lemma_error_persists(self.chunk_info_entries@, self.chunk_data@, i as nat + 1, n as nat);
                    }
                    return Err(DecodeError::Unsupported(EncodingMode::Recursive));
                },
                EncodingMode::Encrypted => {
                    proof {
                        lemma_error_persists(self.chunk_info_entries@, self.chunk_data@, i as nat + 1, n as nat);
                    }
                    return Err(DecodeError::Unsupported(EncodingMode::Encrypted));
                },
            }
            i = i + 1;
        }
        Ok(full)
    }
}

} // verus!
