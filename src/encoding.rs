//! The encoding manifest: a header, an opaque metadata block, a page index
//! and a paged table from content keys to encoding keys.
use vstd::prelude::*;

use crate::error::FormatError;
use crate::hash::Md5Hash;
use crate::scan::{
    records_at, scan_locations, scan_pages, table_locations, PageRecord, ScanPolicy,
};
use crate::wire::{be16, be32, copy_range, read_hash, read_u16_be, read_u32_be};

verus! {

/// The first key and the checksum of one page of the content-key table.
#[derive(Debug, Clone, Copy)]
pub struct CeKeyTableIndex {
    pub first_key: Md5Hash,
    pub md5: Md5Hash,
}

/// One entry of the content-key table: a content key, the size of the file,
/// and the encoding keys under which its encoded bytes are stored.
#[derive(Debug, Clone)]
pub struct CeKeyPageEntry {
    pub key_count: u8,
    pub file_size: [u8; 5],
    pub c_key: Md5Hash,
    pub e_keys: Vec<Md5Hash>,
}

/// The bytes that an entry takes in a page when its count byte is `kc`.
pub open spec fn ce_entry_size(kc: int) -> int {
    22 + 16 * kc
}

/// The bytes of an entry: the count, the five size bytes, the content key and
/// then each encoding key.
pub open spec fn ce_entry_bytes(
    key_count: u8,
    file_size: Seq<u8>,
    c_key: Seq<u8>,
    e_keys: Seq<Seq<u8>>,
) -> Seq<u8> {
    seq![key_count] + file_size + c_key + e_keys.flatten()
}

impl CeKeyPageEntry {
    /// The encoding keys as byte sequences.
    pub open spec fn key_bytes(&self) -> Seq<Seq<u8>> {
        self.e_keys@.map_values(|k: Md5Hash| k@)
    }
}

pub(crate) fn read_file_size(b: &[u8], p: usize) -> (r: [u8; 5])
    requires
        p + 5 <= b@.len(),
    ensures
        r@ == b@.subrange(p as int, p + 5),
{
    let len = b.len();
    let mut a = [0u8; 5];
    let mut i: usize = 0;
    while i < 5
        invariant
            0 <= i <= 5,
            p + 5 <= b@.len(),
            len == b@.len(),
            forall|j: int| 0 <= j < i ==> #[trigger] a@[j] == b@[p + j],
        decreases 5 - i,
    {
        a[i] = b[p + i];
        i = i + 1;
    }
    assert(a@ =~= b@.subrange(p as int, p + 5));
    a
}

impl PageRecord for CeKeyPageEntry {
    open spec fn spec_size_at(page: Seq<u8>, pos: int) -> Option<nat> {
        if 0 <= pos && pos + 22 <= page.len() && pos + ce_entry_size(page[pos] as int)
            <= page.len() {
            Some(ce_entry_size(page[pos] as int) as nat)
        } else {
            None
        }
    }

    open spec fn spec_decoded(&self, page: Seq<u8>, pos: int) -> bool {
        &&& self.key_count == page[pos]
        &&& self.file_size@ == page.subrange(pos + 1, pos + 6)
        &&& self.c_key@ == page.subrange(pos + 6, pos + 22)
        &&& self.e_keys@.len() == self.key_count
        &&& forall|j: int|
            0 <= j < self.key_count ==> (#[trigger] self.e_keys@[j])@ == page.subrange(
                pos + 22 + 16 * j,
                pos + 38 + 16 * j,
            )
    }

    open spec fn spec_end_at(page: Seq<u8>, pos: int) -> bool {
        false
    }

    fn decode_at(page: &[u8], pos: usize) -> (r: Option<(CeKeyPageEntry, usize)>) {
        if page.len() - pos < 22 {
            return None;
        }
        let key_count = page[pos];
        let kc = key_count as usize;
        if (page.len() - pos - 22) / 16 < kc {
            return None;
        }
        let file_size = read_file_size(page, pos + 1);
        let c_key = read_hash(page, pos + 6);
        let len = page.len();
        let mut e_keys: Vec<Md5Hash> = Vec::with_capacity(kc);
        let mut j: usize = 0;
        while j < kc
            invariant
                len == page@.len(),
                j <= kc,
                kc == key_count,
                pos + 22 + 16 * kc <= page@.len(),
                e_keys@.len() == j,
                forall|i: int|
                    0 <= i < j ==> (#[trigger] e_keys@[i])@ == page@.subrange(
                        pos + 22 + 16 * i,
                        pos + 38 + 16 * i,
                    ),
            decreases kc - j,
        {
            let k = read_hash(page, pos + 22 + 16 * j);
            e_keys.push(k);
            j = j + 1;
        }
        let entry = CeKeyPageEntry { key_count, file_size, c_key, e_keys };
        Some((entry, pos + 22 + 16 * kc))
    }

    fn end_at(page: &[u8], pos: usize) -> (b: bool) {
        false
    }
}

/// An entry written out and followed by any bytes is read back with the same
/// count, file size, content key and encoding keys, in the same order.
pub proof fn lemma_ce_entry_round_trip(
    key_count: u8,
    file_size: Seq<u8>,
    c_key: Seq<u8>,
    e_keys: Seq<Seq<u8>>,
    rest: Seq<u8>,
    rec: CeKeyPageEntry,
)
    requires
        file_size.len() == 5,
        c_key.len() == 16,
        e_keys.len() == key_count,
        forall|j: int| 0 <= j < e_keys.len() ==> (#[trigger] e_keys[j]).len() == 16,
        rec.spec_decoded(ce_entry_bytes(key_count, file_size, c_key, e_keys) + rest, 0),
    ensures
        CeKeyPageEntry::spec_size_at(ce_entry_bytes(key_count, file_size, c_key, e_keys) + rest, 0)
            == Some(ce_entry_bytes(key_count, file_size, c_key, e_keys).len()),
        rec.key_count == key_count,
        rec.file_size@ == file_size,
        rec.c_key@ == c_key,
        rec.key_bytes() == e_keys,
{
    let body = ce_entry_bytes(key_count, file_size, c_key, e_keys);
    let page = body + rest;
    lemma_keys_flatten(e_keys);
    assert(body.len() == ce_entry_size(key_count as int));
    assert(page[0] == key_count);
    assert(page.subrange(1, 6) =~= file_size);
    assert(page.subrange(6, 22) =~= c_key);
    assert forall|j: int| 0 <= j < e_keys.len() implies #[trigger] rec.key_bytes()[j] == e_keys[j] by {
        assert(rec.e_keys@[j]@ == page.subrange(22 + 16 * j, 38 + 16 * j));
        assert forall|t: int| 0 <= t < 16 implies page.subrange(22 + 16 * j, 38 + 16 * j)[t]
            == e_keys[j][t] by {
            assert(page[22 + 16 * j + t] == e_keys.flatten()[16 * j + t]);
        }
        assert(page.subrange(22 + 16 * j, 38 + 16 * j) =~= e_keys[j]);
    }
    assert(rec.key_bytes() =~= e_keys);
}

proof fn lemma_keys_flatten(keys: Seq<Seq<u8>>)
    requires
        forall|j: int| 0 <= j < keys.len() ==> (#[trigger] keys[j]).len() == 16,
    ensures
        keys.flatten().len() == 16 * keys.len(),
        forall|j: int, t: int|
            0 <= j < keys.len() && 0 <= t < 16 ==> keys.flatten()[16 * j + t] == #[trigger] keys[j][t],
    decreases keys.len(),
{
    if keys.len() > 0 {
        let tail = keys.drop_first();
        assert forall|j: int| 0 <= j < tail.len() implies (#[trigger] tail[j]).len() == 16 by {
            assert(tail[j] == keys[j + 1]);
        }
        lemma_keys_flatten(tail);
        assert(keys.flatten() == keys[0] + tail.flatten());
        assert forall|j: int, t: int| 0 <= j < keys.len() && 0 <= t < 16 implies keys.flatten()[16 * j
            + t] == #[trigger] keys[j][t] by {
            if j > 0 {
                assert(keys[j] == tail[j - 1]);
                assert(tail.flatten()[16 * (j - 1) + t] == tail[j - 1][t]);
            }
        }
    }
}

/// A parsed encoding manifest.
#[derive(Debug, Clone)]
pub struct EncodingManifest {
    pub version: u8,
    pub ckey_hash_size: u8,
    pub ekey_hash_size: u8,
    pub ce_page_size_kb: u16,
    pub e_page_size_kb: u16,
    pub ce_key_table_page_count: u32,
    pub e_key_table_count: u32,
    pub unknown: u8,
    pub espec_block_size: u32,
    pub espec_block: Vec<u8>,
    pub ce_key_table_index: Vec<CeKeyTableIndex>,
    pub ce_key_table_entries: Vec<CeKeyPageEntry>,
}

/// Where the metadata block starts.
pub open spec fn espec_start() -> int {
    22
}

/// Where the page index starts, after the metadata block.
pub open spec fn page_index_start(b: Seq<u8>) -> int {
    22 + be32(b, 18)
}

/// The declared number of pages of the content-key table.
pub open spec fn ce_page_count(b: Seq<u8>) -> int {
    be32(b, 9)
}

/// The declared page size of the content-key table, in bytes.
pub open spec fn ce_page_size(b: Seq<u8>) -> int {
    be16(b, 5) * 1024
}

/// Where the first page of the content-key table starts.
pub open spec fn ce_pages_start(b: Seq<u8>) -> int {
    page_index_start(b) + 32 * ce_page_count(b)
}

/// Why the bytes are not an encoding manifest, or `None` when they are one.
pub open spec fn encoding_manifest_error(b: Seq<u8>) -> Option<FormatError> {
    if b.len() < 2 {
        Some(FormatError::Truncated)
    } else if !(b[0] == 0x45 && b[1] == 0x4e) {
        Some(FormatError::BadMagic)
    } else if b.len() < 22 || b.len() < page_index_start(b) || b.len() < ce_pages_start(b) {
        Some(FormatError::Truncated)
    } else {
        match scan_locations::<CeKeyPageEntry>(
            b,
            ce_pages_start(b),
            ce_page_size(b),
            ScanPolicy::ExactPages(ce_page_count(b) as u32),
        ) {
            Err(e) => Some(e),
            Ok(_) => None,
        }
    }
}

/// A manifest whose bytes end before the last declared page is complete is
/// refused as truncated, whatever precedes it.
pub proof fn lemma_manifest_short_final_page(b: Seq<u8>)
    requires
        b.len() >= 22,
        b[0] == 0x45 && b[1] == 0x4e,
        b.len() >= ce_pages_start(b),
        b.len() < ce_pages_start(b) + ce_page_count(b) * ce_page_size(b),
    ensures
        encoding_manifest_error(b) == Some(FormatError::Truncated),
{
    assert(page_index_start(b) <= ce_pages_start(b));
}

/// Entry `i` is the first whose content key is `key`.
pub open spec fn first_match(entries: Seq<CeKeyPageEntry>, key: Seq<u8>, i: int) -> bool {
    &&& 0 <= i < entries.len()
    &&& entries[i].c_key@ == key
    &&& forall|j: int| 0 <= j < i ==> (#[trigger] entries[j]).c_key@ != key
}

/// Whether some entry has the content key `key`.
pub open spec fn has_content_key(entries: Seq<CeKeyPageEntry>, key: Seq<u8>) -> bool {
    exists|i: int| 0 <= i < entries.len() && (#[trigger] entries[i]).c_key@ == key
}

impl EncodingManifest {
    /// Every field of the manifest is the one stored in `b`, and the entries
    /// are those of every page of the content-key table, in order.
    pub open spec fn parsed_from(&self, b: Seq<u8>) -> bool {
        &&& self.version == b[2]
        &&& self.ckey_hash_size == b[3]
        &&& self.ekey_hash_size == b[4]
        &&& self.ce_page_size_kb == be16(b, 5)
        &&& self.e_page_size_kb == be16(b, 7)
        &&& self.ce_key_table_page_count == ce_page_count(b)
        &&& self.e_key_table_count == be32(b, 13)
        &&& self.unknown == b[17]
        &&& self.espec_block_size == be32(b, 18)
        &&& self.espec_block@ == b.subrange(22, page_index_start(b))
        &&& self.ce_key_table_index@.len() == ce_page_count(b)
        &&& forall|i: int|
            0 <= i < ce_page_count(b) ==> {
                let x = #[trigger] self.ce_key_table_index@[i];
                let p = page_index_start(b) + 32 * i;
                &&& x.first_key@ == b.subrange(p, p + 16)
                &&& x.md5@ == b.subrange(p + 16, p + 32)
            }
        &&& records_at::<CeKeyPageEntry>(
            b,
            ce_pages_start(b),
            ce_page_size(b),
            table_locations::<CeKeyPageEntry>(
                b,
                ce_pages_start(b),
                ce_page_size(b),
                ce_page_count(b) as nat,
            ),
            self.ce_key_table_entries@,
        )
    }

    /// Parses an encoding manifest: the tag `EN`, the fixed header, the
    /// metadata block, one 32-byte index record per page, then the declared
    /// number of whole pages of content-key entries. All fields are big-endian.
    pub fn parse(b: &[u8]) -> (r: Result<EncodingManifest, FormatError>)
        ensures
            match r {
                Ok(m) => encoding_manifest_error(b@) is None && m.parsed_from(b@),
                Err(e) => encoding_manifest_error(b@) == Some(e),
            },
    {
        if b.len() < 2 {
            return Err(FormatError::Truncated);
        }
        if !(b[0] == 0x45 && b[1] == 0x4e) {
            return Err(FormatError::BadMagic);
        }
        if b.len() < 22 {
            return Err(FormatError::Truncated);
        }
        let espec_block_size = read_u32_be(b, 18);
        if b.len() - 22 < espec_block_size as usize {
            return Err(FormatError::Truncated);
        }
        let index_start = 22 + espec_block_size as usize;
        let count = read_u32_be(b, 9);
        if (b.len() - index_start) / 32 < count as usize {
            return Err(FormatError::Truncated);
        }
        let pages_start = index_start + 32 * count as usize;
        let ce_page_size_kb = read_u16_be(b, 5);
        let page_size = ce_page_size_kb as usize * 1024;
        let entries = match scan_pages::<CeKeyPageEntry>(
            b,
            pages_start,
            page_size,
            ScanPolicy::ExactPages(count),
        ) {
            Ok(v) => v,
            Err(e) => {
                return Err(e);
            },
        };
        let espec_block = copy_range(b, 22, index_start);
        let blen = b.len();
        let mut index: Vec<CeKeyTableIndex> = Vec::with_capacity(count as usize);
        let mut i: usize = 0;
        while i < count as usize
            invariant
                blen == b@.len(),
                i <= count,
                index_start == page_index_start(b@),
                count == ce_page_count(b@),
                index_start + 32 * count <= b@.len(),
                index@.len() == i,
                forall|k: int|
                    0 <= k < i ==> {
                        let x = #[trigger] index@[k];
                        let p = index_start + 32 * k;
                        &&& x.first_key@ == b@.subrange(p, p + 16)
                        &&& x.md5@ == b@.subrange(p + 16, p + 32)
                    },
            decreases count - i,
        {
            let p = index_start + 32 * i;
            index.push(CeKeyTableIndex { first_key: read_hash(b, p), md5: read_hash(b, p + 16) });
            i = i + 1;
        }
        let m = EncodingManifest {
            version: b[2],
            ckey_hash_size: b[3],
            ekey_hash_size: b[4],
            ce_page_size_kb,
            e_page_size_kb: read_u16_be(b, 7),
            ce_key_table_page_count: count,
            e_key_table_count: read_u32_be(b, 13),
            unknown: b[17],
            espec_block_size,
            espec_block,
            ce_key_table_index: index,
            ce_key_table_entries: entries,
        };
        Ok(m)
    }

    /// The first entry, in page order, whose content key is `key`.
    pub fn find_by_content_key(&self, key: &Md5Hash) -> (r: Option<&CeKeyPageEntry>)
        ensures
            match r {
                None => !has_content_key(self.ce_key_table_entries@, key@),
                Some(e) => exists|i: int|
                    first_match(self.ce_key_table_entries@, key@, i)
                        && #[trigger] self.ce_key_table_entries@[i] == *e,
            },
    {
        let n = self.ce_key_table_entries.len();
        let mut i: usize = 0;
        while i < n
            invariant
                n == self.ce_key_table_entries@.len(),
                i <= n,
                forall|j: int|
                    0 <= j < i ==> (#[trigger] self.ce_key_table_entries@[j]).c_key@ != key@,
            decreases n - i,
        {
            let e = &self.ce_key_table_entries[i];
            if e.c_key == *key {
                assert(first_match(self.ce_key_table_entries@, key@, i as int));
                return Some(e);
            }
            i = i + 1;
        }
        None
    }
}

} // verus!
