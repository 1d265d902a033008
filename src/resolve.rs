//! Resolution of a content key: the encoding key to fetch, and the decoding
//! of the fetched container into the content's bytes.
use vstd::prelude::*;

use crate::blte::{block_table_error, decompress_prefix, BlockTable};
use crate::encoding::{first_match, has_content_key, EncodingManifest};
use crate::error::ResolutionError;
use crate::hash::Md5Hash;

verus! {

/// The encoding key under which the content `c_key` is stored: the first
/// encoding key of the first entry, in page order, with that content key.
pub fn encoding_key_for(manifest: &EncodingManifest, c_key: &Md5Hash) -> (r: Result<
    Md5Hash,
    ResolutionError,
>)
    ensures
        ({
            let entries = manifest.ce_key_table_entries@;
            match r {
                Ok(k) => exists|i: int|
                    #![trigger entries[i]]
                    first_match(entries, c_key@, i) && entries[i].e_keys@.len() > 0 && k@
                        == entries[i].e_keys@[0]@,
                Err(ResolutionError::NoEncodingKey) => exists|i: int|
                    #![trigger entries[i]]
                    first_match(entries, c_key@, i) && entries[i].e_keys@.len() == 0,
                Err(ResolutionError::ContentKeyNotFound) => !has_content_key(entries, c_key@),
                Err(_) => false,
            }
        }),
{
    match manifest.find_by_content_key(c_key) {
        None => Err(ResolutionError::ContentKeyNotFound),
        Some(entry) => {
            if entry.e_keys.len() == 0 {
                Err(ResolutionError::NoEncodingKey)
            } else {
                Ok(entry.e_keys[0])
            }
        },
    }
}

/// Parses fetched bytes as a block table and decompresses it.
pub fn decode_content(b: &[u8]) -> (r: Result<Vec<u8>, ResolutionError>)
    ensures
        match r {
            Err(ResolutionError::Format(e)) => block_table_error(b@) == Some(e),
            Err(ResolutionError::Decode(e)) => block_table_error(b@) is None && exists|
                t: BlockTable,
            |
                t.parsed_from(b@) && t.wf() && #[trigger] decompress_prefix(
                    t.chunk_info_entries@,
                    t.chunk_data@,
                    t.chunk_data@.len(),
                ) == Err::<Seq<u8>, crate::error::DecodeError>(e),
            Ok(v) => block_table_error(b@) is None && exists|t: BlockTable|
                t.parsed_from(b@) && t.wf() && #[trigger] decompress_prefix(
                    t.chunk_info_entries@,
                    t.chunk_data@,
                    t.chunk_data@.len(),
                ) == Ok::<Seq<u8>, crate::error::DecodeError>(v@),
            Err(_) => false,
        },
{
    match BlockTable::parse(b) {
        Err(e) => Err(ResolutionError::Format(e)),
        Ok(t) => match t.decompress() {
            Ok(v) => Ok(v),
            Err(e) => Err(ResolutionError::Decode(e)),
        },
    }
}

} // verus!
