//! The local index file: 4096-byte pages of encoding key, size and offset.
use vstd::prelude::*;

use crate::error::FormatError;
use crate::hash::Md5Hash;
use crate::scan::{
    first_true, lemma_first_true_bounds, lemma_locations_agree, page_of, records_at, scan_locations, scan_pages, table_locations, table_marks,
    whole_pages, PageRecord, ScanPolicy,
};
use crate::wire::{be32, read_hash, read_u32_be};

verus! {

/// The size of a page of the index file.
pub const INDEX_PAGE_SIZE: usize = 4096;

/// Where the encoded bytes stored under an encoding key lie.
#[derive(Debug, Clone, Copy)]
pub struct IndexEntry {
    pub e_key: Md5Hash,
    pub size: u32,
    pub offset: u32,
}

/// The entries of an index file, in file order.
#[derive(Debug, Clone)]
pub struct IndexFile {
    pub index_entries: Vec<IndexEntry>,
}

/// Whether the 16 bytes at `pos` are all zero.
pub open spec fn null_key_at(page: Seq<u8>, pos: int) -> bool {
    forall|i: int| pos <= i < pos + 16 ==> #[trigger] page[i] == 0
}

impl PageRecord for IndexEntry {
    open spec fn spec_size_at(page: Seq<u8>, pos: int) -> Option<nat> {
        if 0 <= pos && pos + 24 <= page.len() {
            Some(24)
        } else {
            None
        }
    }

    open spec fn spec_decoded(&self, page: Seq<u8>, pos: int) -> bool {
        &&& self.e_key@ == page.subrange(pos, pos + 16)
        &&& self.size == be32(page, pos + 16)
        &&& self.offset == be32(page, pos + 20)
    }

    open spec fn spec_end_at(page: Seq<u8>, pos: int) -> bool {
        null_key_at(page, pos)
    }

    fn decode_at(page: &[u8], pos: usize) -> (r: Option<(IndexEntry, usize)>) {
        if page.len() - pos < 24 {
            return None;
        }
        let entry = IndexEntry {
            e_key: read_hash(page, pos),
            size: read_u32_be(page, pos + 16),
            offset: read_u32_be(page, pos + 20),
        };
        Some((entry, pos + 24))
    }

    fn end_at(page: &[u8], pos: usize) -> (b: bool) {
        let key = read_hash(page, pos);
        let b = key.is_null();
        assert(b == null_key_at(page@, pos as int)) by {
            if b {
                assert forall|i: int| pos <= i < pos + 16 implies #[trigger] page@[i] == 0 by {
                    assert(key.0@[i - pos] == page@[i]);
                }
            } else {
                let j = choose|j: int| 0 <= j < 16 && key.0[j] != 0;
                assert(page@[pos + j] == key.0@[j]);
            }
        }
        b
    }
}

/// The entries that parsing `data` as an index file returns: those of every
/// whole page, up to the first entry whose key is all zero.
pub open spec fn index_locations(data: Seq<u8>) -> Seq<(int, int)> {
    scan_locations::<IndexEntry>(data, 0, 4096, ScanPolicy::UntilShortPageOrEnd)->Ok_0
}

impl IndexFile {
    /// Parses an index file. Reading stops, without error, at the first page
    /// that is cut short or at the first entry whose key is all zero.
    pub fn parse(b: &[u8]) -> (r: Result<IndexFile, FormatError>)
        ensures
            r matches Ok(f) && records_at::<IndexEntry>(
                b@,
                0,
                4096,
                index_locations(b@),
                f.index_entries@,
            ),
    {
        match scan_pages::<IndexEntry>(b, 0, INDEX_PAGE_SIZE, ScanPolicy::UntilShortPageOrEnd) {
            Ok(index_entries) => Ok(IndexFile { index_entries }),
            Err(e) => Err(e),
        }
    }
}

proof fn lemma_whole_pages_with_tail(pages: nat, tail: int)
    requires
        0 <= tail < 4096,
    ensures
        whole_pages(pages * 4096 + tail, 4096) == pages,
    decreases pages,
{
    if pages > 0 {
        assert(pages * 4096 + tail - 4096 == (pages - 1) * 4096 + tail);
        lemma_whole_pages_with_tail((pages - 1) as nat, tail);
    }
}

/// Bytes after the last whole page, fewer than a page, change nothing: the
/// parse still succeeds and returns the entries of the whole pages before.
pub proof fn lemma_index_short_final_page(pages: nat, data: Seq<u8>, tail: Seq<u8>)
    requires
        data.len() == pages * 4096,
        tail.len() < 4096,
    ensures
        index_locations(data + tail) == index_locations(data),
{
    let full = data + tail;
    lemma_whole_pages_with_tail(pages, tail.len() as int);
    lemma_whole_pages_with_tail(pages, 0);
    assert forall|p: int| 0 <= p < pages implies #[trigger] page_of(full, 0, 4096, p) == page_of(
        data,
        0,
        4096,
        p,
    ) by {
        assert((p + 1) * 4096 <= pages * 4096) by (nonlinear_arith)
            requires
                p + 1 <= pages,
        ;
        assert(page_of(full, 0, 4096, p) =~= page_of(data, 0, 4096, p));
    }
    lemma_locations_agree::<IndexEntry>(full, data, 0, 4096, pages);
}

/// Parsing stops at the first entry whose key is all zero: no returned entry
/// has such a key, and no entry at or after one is returned.
pub proof fn lemma_index_stops_at_null_key(data: Seq<u8>)
    ensures
        ({
            let all = table_locations::<IndexEntry>(data, 0, 4096, whole_pages(data.len() as int, 4096));
            let marks = table_marks::<IndexEntry>(data, 0, 4096, all);
            &&& index_locations(data) == all.take(index_locations(data).len() as int)
            &&& forall|i: int|
                0 <= i < index_locations(data).len() ==> !null_key_at(
                    page_of(data, 0, 4096, #[trigger] index_locations(data)[i].0),
                    index_locations(data)[i].1,
                )
            &&& forall|j: int|
                0 <= j < all.len() && null_key_at(page_of(data, 0, 4096, all[j].0), all[j].1)
                    ==> index_locations(data).len() <= j
        }),
{
    let all = table_locations::<IndexEntry>(data, 0, 4096, whole_pages(data.len() as int, 4096));
    let marks = table_marks::<IndexEntry>(data, 0, 4096, all);
    lemma_first_true_bounds(marks);
    let kept = index_locations(data);
    assert(kept == all.take(first_true(marks) as int));
    assert forall|i: int| 0 <= i < kept.len() implies !null_key_at(
        page_of(data, 0, 4096, #[trigger] kept[i].0),
        kept[i].1,
    ) by {
        assert(kept[i] == all[i]);
        assert(!marks[i]);
    }
    assert forall|j: int|
        0 <= j < all.len() && null_key_at(page_of(data, 0, 4096, all[j].0), all[j].1) implies kept.len()
        <= j by {
        assert(marks[j]);
    }
}

} // verus!
