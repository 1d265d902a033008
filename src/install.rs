//! The install and download manifests: a header, tags with one membership
//! bit per entry, and the entries.
use vstd::prelude::*;

use crate::error::FormatError;
use crate::hash::Md5Hash;
use crate::wire::{be16, be32, copy_range, read_hash, read_u16_be, read_u32_be};

verus! {

/// A named tag; bit `i` of `mask` says whether entry `i` carries it.
#[derive(Debug, Clone)]
pub struct ManifestTag {
    pub name: Vec<u8>,
    pub tag_type: u16,
    pub mask: Vec<u8>,
}

/// A file installed by the install manifest.
#[derive(Debug, Clone)]
pub struct InstallManifestEntry {
    pub name: Vec<u8>,
    pub hash: Md5Hash,
    pub size: u32,
}

/// The install manifest.
#[derive(Debug, Clone)]
pub struct InstallManifest {
    pub version: u8,
    pub encoding_hash_size: u8,
    pub num_tags: u16,
    pub num_entries: u32,
    pub tags: Vec<ManifestTag>,
    pub entries: Vec<InstallManifestEntry>,
}

/// A file listed by the download manifest.
#[derive(Debug, Clone, Copy)]
pub struct DownloadManifestEntry {
    pub hash: Md5Hash,
    pub file_size: [u8; 5],
    pub priority: u8,
}

/// The download manifest.
#[derive(Debug, Clone)]
pub struct DownloadManifest {
    pub version: u8,
    pub encoding_key_size: u8,
    pub include_checksum: u8,
    pub num_entries: u32,
    pub num_tags: u16,
    pub entries: Vec<DownloadManifestEntry>,
    pub tags: Vec<ManifestTag>,
}

/// The first zero byte at or after `pos`.
pub open spec fn nul_at(b: Seq<u8>, pos: int) -> Option<int>
    decreases b.len() - pos,
{
    if pos < 0 || pos >= b.len() {
        None
    } else if b[pos] == 0 {
        Some(pos)
    } else {
        nul_at(b, pos + 1)
    }
}

/// The number of mask bytes for `n` entries: one bit per entry.
pub open spec fn mask_len(n: int) -> int {
    (n + 7) / 8
}

/// The size of the record at `pos`: a zero-terminated name followed by
/// `fixed` bytes.
pub open spec fn named_size(b: Seq<u8>, pos: int, fixed: int) -> Option<int> {
    match nul_at(b, pos) {
        None => None,
        Some(z) => if z + 1 + fixed <= b.len() {
            Some(z + 1 + fixed - pos)
        } else {
            None
        },
    }
}

/// The starts of `n` consecutive records from `pos` on, each a name and
/// `fixed` bytes, with the position after the last; `None` if they do not fit.
pub open spec fn named_run(b: Seq<u8>, pos: int, n: nat, fixed: int) -> Option<(Seq<int>, int)>
    decreases n,
{
    if n == 0 {
        Some((Seq::empty(), pos))
    } else {
        match named_size(b, pos, fixed) {
            None => None,
            Some(k) => match named_run(b, pos + k, (n - 1) as nat, fixed) {
                None => None,
                Some((s, e)) => Some((seq![pos] + s, e)),
            },
        }
    }
}

/// `run` with `done` in front of its starts.
pub open spec fn after(done: Seq<int>, run: Option<(Seq<int>, int)>) -> Option<(Seq<int>, int)> {
    match run {
        None => None,
        Some((s, e)) => Some((done + s, e)),
    }
}

/// Whether the tag holds the fields stored at `pos`.
pub open spec fn tag_from(t: ManifestTag, b: Seq<u8>, pos: int, ml: int) -> bool {
    let z = nul_at(b, pos)->Some_0;
    &&& t.name@ == b.subrange(pos, z)
    &&& t.tag_type == be16(b, z + 1)
    &&& t.mask@ == b.subrange(z + 3, z + 3 + ml)
}

/// Reads a zero-terminated name at `pos`, with the position after the zero.
fn read_name(b: &[u8], pos: usize) -> (r: Option<(Vec<u8>, usize)>)
    requires
        pos <= b@.len(),
    ensures
        match r {
            None => nul_at(b@, pos as int) is None,
            Some((name, next)) => nul_at(b@, pos as int) == Some(next - 1) && name@ == b@.subrange(
                pos as int,
                next - 1,
            ) && pos < next <= b@.len(),
        },
{
    let mut z = pos;
    while z < b.len() && b[z] != 0
        invariant
            pos <= z <= b@.len(),
            nul_at(b@, pos as int) == nul_at(b@, z as int),
        decreases b@.len() - z,
    {
        z = z + 1;
    }
    if z == b.len() {
        return None;
    }
    Some((copy_range(b, pos, z), z + 1))
}

/// Reads `n` tags with masks of `ml` bytes from `pos` on.
fn read_tags(b: &[u8], pos: usize, n: u16, ml: usize) -> (r: Option<(Vec<ManifestTag>, usize)>)
    requires
        pos <= b@.len(),
    ensures
        match r {
            None => named_run(b@, pos as int, n as nat, 2 + ml) is None,
            Some((tags, end)) => named_run(b@, pos as int, n as nat, 2 + ml) matches Some((s, e))
                && e == end && end <= b@.len() && tags@.len() == n && forall|i: int|
                0 <= i < n ==> tag_from(#[trigger] tags@[i], b@, s[i], ml as int),
        },
{
    let mut tags: Vec<ManifestTag> = Vec::new();
    let mut p = pos;
    let mut i: u16 = 0;
    let ghost mut done: Seq<int> = Seq::empty();
    while i < n
        invariant
            p <= b@.len(),
            i <= n,
            done.len() == i,
            tags@.len() == i,
            named_run(b@, pos as int, n as nat, 2 + ml) == after(
                done,
                named_run(b@, p as int, (n - i) as nat, 2 + ml),
            ),
            forall|k: int| 0 <= k < i ==> tag_from(#[trigger] tags@[k], b@, done[k], ml as int),
        decreases n - i,
    {
        let (name, next) = match read_name(b, p) {
            Some(x) => x,
            None => {
                return None;
            },
        };
        if b.len() - next < 2 || b.len() - next - 2 < ml {
            return None;
        }
        let tag_type = read_u16_be(b, next);
        let mask = copy_range(b, next + 2, next + 2 + ml);
        let ghost before = tags@;
        tags.push(ManifestTag { name, tag_type, mask });
        proof {
            let rest = named_run(b@, (next + 2 + ml) as int, (n - i - 1) as nat, 2 + ml);
            assert(after(done, named_run(b@, p as int, (n - i) as nat, 2 + ml)) == after(
                done.push(p as int),
                rest,
            )) by {
                match rest {
                    None => {},
                    Some((s, e)) => {
                        assert(done + (seq![p as int] + s) =~= done.push(p as int) + s);
                    },
                }
            }
            assert forall|k: int| 0 <= k < i + 1 implies tag_from(
                #[trigger] tags@[k],
                b@,
                done.push(p as int)[k],
                ml as int,
            ) by {
                if k < i {
                    assert(tags@[k] == before[k]);
                }
            }
            done = done.push(p as int);
        }
        p = next + 2 + ml;
        i = i + 1;
    }
    assert(done + Seq::<int>::empty() =~= done);
    Some((tags, p))
}

/// Whether the entry holds the fields stored at `pos`.
pub open spec fn install_entry_from(e: InstallManifestEntry, b: Seq<u8>, pos: int) -> bool {
    let z = nul_at(b, pos)->Some_0;
    &&& e.name@ == b.subrange(pos, z)
    &&& e.hash@ == b.subrange(z + 1, z + 17)
    &&& e.size == be32(b, z + 17)
}

/// Reads `n` install entries from `pos` on.
fn read_install_entries(b: &[u8], pos: usize, n: u32) -> (r: Option<Vec<InstallManifestEntry>>)
    requires
        pos <= b@.len(),
    ensures
        match r {
            None => named_run(b@, pos as int, n as nat, 20) is None,
            Some(entries) => named_run(b@, pos as int, n as nat, 20) matches Some((s, e))
                && entries@.len() == n && forall|i: int|
                0 <= i < n ==> install_entry_from(#[trigger] entries@[i], b@, s[i]),
        },
{
    let mut entries: Vec<InstallManifestEntry> = Vec::new();
    let mut p = pos;
    let mut i: u32 = 0;
    let ghost mut done: Seq<int> = Seq::empty();
    while i < n
        invariant
            p <= b@.len(),
            i <= n,
            done.len() == i,
            entries@.len() == i,
            named_run(b@, pos as int, n as nat, 20) == after(
                done,
                named_run(b@, p as int, (n - i) as nat, 20),
            ),
            forall|k: int| 0 <= k < i ==> install_entry_from(#[trigger] entries@[k], b@, done[k]),
        decreases n - i,
    {
        let (name, next) = match read_name(b, p) {
            Some(x) => x,
            None => {
                return None;
            },
        };
        if b.len() - next < 20 {
            return None;
        }
        let hash = read_hash(b, next);
        let size = read_u32_be(b, next + 16);
        let ghost before = entries@;
        entries.push(InstallManifestEntry { name, hash, size });
        proof {
            let rest = named_run(b@, (next + 20) as int, (n - i - 1) as nat, 20);
            assert(after(done, named_run(b@, p as int, (n - i) as nat, 20)) == after(
                done.push(p as int),
                rest,
            )) by {
                match rest {
                    None => {},
                    Some((s, e)) => {
                        assert(done + (seq![p as int] + s) =~= done.push(p as int) + s);
                    },
                }
            }
            assert forall|k: int| 0 <= k < i + 1 implies install_entry_from(
                #[trigger] entries@[k],
                b@,
                done.push(p as int)[k],
            ) by {
                if k < i {
                    assert(entries@[k] == before[k]);
                }
            }
            done = done.push(p as int);
        }
        p = next + 20;
        i = i + 1;
    }
    assert(done + Seq::<int>::empty() =~= done);
    Some(entries)
}

/// The mask length for `n` entries, as computed without overflow.
pub open spec fn mask_bytes(n: int) -> int {
    n / 8 + if n % 8 == 0 {
        0int
    } else {
        1int
    }
}

fn mask_bytes_of(n: u32) -> (r: usize)
    ensures
        r == mask_bytes(n as int),
        r == mask_len(n as int),
{
    (n / 8) as usize + if n % 8 == 0 {
        0
    } else {
        1
    }
}

/// Why the bytes are not an install manifest, or `None` when they are one.
pub open spec fn install_manifest_error(b: Seq<u8>) -> Option<FormatError> {
    if b.len() < 2 {
        Some(FormatError::Truncated)
    } else if !(b[0] == 0x49 && b[1] == 0x4e) {
        Some(FormatError::BadMagic)
    } else if b.len() < 10 {
        Some(FormatError::Truncated)
    } else {
        match named_run(b, 10, be16(b, 4) as nat, 2 + mask_len(be32(b, 6))) {
            None => Some(FormatError::Truncated),
            Some((_, end)) => if named_run(b, end, be32(b, 6) as nat, 20) is None {
                Some(FormatError::Truncated)
            } else {
                None
            },
        }
    }
}

impl InstallManifest {
    /// Every field is the one stored in `b`.
    pub open spec fn parsed_from(&self, b: Seq<u8>) -> bool {
        let ml = mask_len(be32(b, 6));
        let (tag_starts, end) = named_run(b, 10, be16(b, 4) as nat, 2 + ml)->Some_0;
        let entry_starts = named_run(b, end, be32(b, 6) as nat, 20)->Some_0.0;
        &&& self.version == b[2]
        &&& self.encoding_hash_size == b[3]
        &&& self.num_tags == be16(b, 4)
        &&& self.num_entries == be32(b, 6)
        &&& self.tags@.len() == self.num_tags
        &&& forall|i: int|
            0 <= i < self.num_tags ==> tag_from(#[trigger] self.tags@[i], b, tag_starts[i], ml)
        &&& self.entries@.len() == self.num_entries
        &&& forall|i: int|
            0 <= i < self.num_entries ==> install_entry_from(
                #[trigger] self.entries@[i],
                b,
                entry_starts[i],
            )
    }

    /// Parses an install manifest: the tag `IN`, the header, the tags, each
    /// with one mask bit per entry, then the entries.
    pub fn parse(b: &[u8]) -> (r: Result<InstallManifest, FormatError>)
        ensures
            match r {
                Ok(m) => install_manifest_error(b@) is None && m.parsed_from(b@),
                Err(e) => install_manifest_error(b@) == Some(e),
            },
    {
        if b.len() < 2 {
            return Err(FormatError::Truncated);
        }
        if !(b[0] == 0x49 && b[1] == 0x4e) {
            return Err(FormatError::BadMagic);
        }
        if b.len() < 10 {
            return Err(FormatError::Truncated);
        }
        let num_tags = read_u16_be(b, 4);
        let num_entries = read_u32_be(b, 6);
        let ml = mask_bytes_of(num_entries);
        let (tags, end) = match read_tags(b, 10, num_tags, ml) {
            Some(x) => x,
            None => {
                return Err(FormatError::Truncated);
            },
        };
        let entries = match read_install_entries(b, end, num_entries) {
            Some(x) => x,
            None => {
                return Err(FormatError::Truncated);
            },
        };
        Ok(
            InstallManifest {
                version: b[2],
                encoding_hash_size: b[3],
                num_tags,
                num_entries,
                tags,
                entries,
            },
        )
    }
}

/// Why the bytes are not a download manifest, or `None` when they are one.
pub open spec fn download_manifest_error(b: Seq<u8>) -> Option<FormatError> {
    if b.len() < 2 {
        Some(FormatError::Truncated)
    } else if !(b[0] == 0x44 && b[1] == 0x4c) {
        Some(FormatError::BadMagic)
    } else if b.len() < 11 || b.len() < 11 + 22 * be32(b, 5) {
        Some(FormatError::Truncated)
    } else if named_run(b, 11 + 22 * be32(b, 5), be16(b, 9) as nat, 2 + mask_len(be32(b, 5)))
        is None {
        Some(FormatError::Truncated)
    } else {
        None
    }
}

impl DownloadManifest {
    /// Every field is the one stored in `b`.
    pub open spec fn parsed_from(&self, b: Seq<u8>) -> bool {
        let n = be32(b, 5);
        let tag_starts = named_run(b, 11 + 22 * n, be16(b, 9) as nat, 2 + mask_len(n))->Some_0.0;
        &&& self.version == b[2]
        &&& self.encoding_key_size == b[3]
        &&& self.include_checksum == b[4]
        &&& self.num_entries == n
        &&& self.num_tags == be16(b, 9)
        &&& self.entries@.len() == n
        &&& forall|i: int|
            0 <= i < n ==> {
                let e = #[trigger] self.entries@[i];
                &&& e.hash@ == b.subrange(11 + 22 * i, 27 + 22 * i)
                &&& e.file_size@ == b.subrange(27 + 22 * i, 32 + 22 * i)
                &&& e.priority == b[32 + 22 * i]
            }
        &&& self.tags@.len() == self.num_tags
        &&& forall|i: int|
            0 <= i < self.num_tags ==> tag_from(
                #[trigger] self.tags@[i],
                b,
                tag_starts[i],
                mask_len(n),
            )
    }

    /// Parses a download manifest: the tag `DL`, the header, the 22-byte
    /// entries, then the tags, each with one mask bit per entry.
    pub fn parse(b: &[u8]) -> (r: Result<DownloadManifest, FormatError>)
        ensures
            match r {
                Ok(m) => download_manifest_error(b@) is None && m.parsed_from(b@),
                Err(e) => download_manifest_error(b@) == Some(e),
            },
    {
        if b.len() < 2 {
            return Err(FormatError::Truncated);
        }
        if !(b[0] == 0x44 && b[1] == 0x4c) {
            return Err(FormatError::BadMagic);
        }
        if b.len() < 11 {
            return Err(FormatError::Truncated);
        }
        let num_entries = read_u32_be(b, 5);
        let num_tags = read_u16_be(b, 9);
        if (b.len() - 11) / 22 < num_entries as usize {
            return Err(FormatError::Truncated);
        }
        let n = num_entries as usize;
        let blen = b.len();
        let mut entries: Vec<DownloadManifestEntry> = Vec::with_capacity(n);
        let mut i: usize = 0;
        while i < n
            invariant
                blen == b@.len(),
                n == be32(b@, 5),
                11 + 22 * n <= b@.len(),
                i <= n,
                entries@.len() == i,
                forall|k: int|
                    0 <= k < i ==> {
                        let e = #[trigger] entries@[k];
                        &&& e.hash@ == b@.subrange(11 + 22 * k, 27 + 22 * k)
                        &&& e.file_size@ == b@.subrange(27 + 22 * k, 32 + 22 * k)
                        &&& e.priority == b@[32 + 22 * k]
                    },
            decreases n - i,
        {
            let p = 11 + 22 * i;
            let hash = read_hash(b, p);
            let file_size = crate::encoding::read_file_size(b, p + 16);
            entries.push(DownloadManifestEntry { hash, file_size, priority: b[p + 21] });
            i = i + 1;
        }
        let ml = mask_bytes_of(num_entries);
        let (tags, _) = match read_tags(b, 11 + 22 * n, num_tags, ml) {
            Some(x) => x,
            None => {
                return Err(FormatError::Truncated);
            },
        };
        Ok(
            DownloadManifest {
                version: b[2],
                encoding_key_size: b[3],
                include_checksum: b[4],
                num_entries,
                num_tags,
                entries,
                tags,
            },
        )
    }
}

} // verus!
