use std::io::Write;

use blizztools::blte::{BlockTable, EncodingMode};
use blizztools::resolve::decode_content;
use blizztools::{DecodeError, FormatError, ResolutionError};

struct Chunk {
    tag: u8,
    payload: Vec<u8>,
    decompressed_size: u32,
}

fn container(chunks: &[Chunk]) -> Vec<u8> {
    let mut b = b"BLTE".to_vec();
    b.extend_from_slice(&(12 + 24 * chunks.len() as u32).to_be_bytes());
    b.push(0x0f);
    b.push(0);
    b.extend_from_slice(&(chunks.len() as u16).to_be_bytes());
    for c in chunks {
        b.extend_from_slice(&(c.payload.len() as u32 + 1).to_be_bytes());
        b.extend_from_slice(&c.decompressed_size.to_be_bytes());
        b.extend_from_slice(&[0xab; 16]);
    }
    for c in chunks {
        b.push(c.tag);
        b.extend_from_slice(&c.payload);
    }
    b
}

fn zlib(data: &[u8]) -> Vec<u8> {
    let mut e = flate2::write::ZlibEncoder::new(Vec::new(), flate2::Compression::default());
    e.write_all(data).unwrap();
    e.finish().unwrap()
}

#[test]
fn plain_hello_decompresses_to_hello() {
    let bytes = container(&[Chunk { tag: b'N', payload: b"hello".to_vec(), decompressed_size: 5 }]);
    let t = BlockTable::parse(&bytes).unwrap();
    assert_eq!(t.chunk_info.chunk_count, 1);
    assert_eq!(t.chunk_info_entries[0].compressed_size, 6);
    assert_eq!(t.chunk_data[0].encoding_mode, EncodingMode::PlainData);
    assert_eq!(t.chunk_data[0].data, b"hello".to_vec());
    assert_eq!(t.decompress().unwrap(), b"hello".to_vec());
}

#[test]
fn header_fields_are_read_big_endian() {
    let bytes = container(&[Chunk { tag: b'N', payload: b"ab".to_vec(), decompressed_size: 2 }]);
    let t = BlockTable::parse(&bytes).unwrap();
    assert_eq!(t.header_size, 36);
    assert_eq!(t.chunk_info.flags, 0x0f);
    assert_eq!(t.chunk_info.flag_ext, 0);
    assert_eq!(t.chunk_info_entries[0].decompressed_size, 2);
    assert_eq!(t.chunk_info_entries[0].checksum.0, [0xab; 16]);
}

#[test]
fn zlib_and_plain_chunks_concatenate_in_order() {
    let text = b"the quick brown fox jumps over the lazy dog";
    let bytes = container(&[
        Chunk { tag: b'Z', payload: zlib(text), decompressed_size: text.len() as u32 },
        Chunk { tag: b'N', payload: b"!!".to_vec(), decompressed_size: 2 },
        Chunk { tag: b'Z', payload: zlib(b"end"), decompressed_size: 3 },
    ]);
    let out = decode_content(&bytes).unwrap();
    let mut expected = text.to_vec();
    expected.extend_from_slice(b"!!end");
    assert_eq!(out, expected);
    assert_eq!(out.len(), text.len() + 2 + 3);
}

#[test]
fn inflated_chunk_differs_from_its_payload() {
    let payload = zlib(b"aaaaaaaaaaaaaaaaaaaaaaaaaaaaaaaa");
    let bytes = container(&[Chunk { tag: b'Z', payload: payload.clone(), decompressed_size: 32 }]);
    let out = BlockTable::parse(&bytes).unwrap().decompress().unwrap();
    assert_ne!(out, payload);
    assert_eq!(out, vec![b'a'; 32]);
}

#[test]
fn malformed_zlib_is_an_inflate_error() {
    let bytes = container(&[
        Chunk { tag: b'N', payload: b"ok".to_vec(), decompressed_size: 2 },
        Chunk { tag: b'Z', payload: vec![1, 2, 3, 4, 5], decompressed_size: 5 },
    ]);
    let t = BlockTable::parse(&bytes).unwrap();
    assert_eq!(t.decompress(), Err(DecodeError::Inflate(1)));
}

#[test]
fn recursive_and_encrypted_chunks_are_unsupported() {
    let bytes = container(&[Chunk { tag: b'F', payload: b"x".to_vec(), decompressed_size: 1 }]);
    let t = BlockTable::parse(&bytes).unwrap();
    assert_eq!(t.decompress(), Err(DecodeError::Unsupported(EncodingMode::Recursive)));
    let bytes = container(&[Chunk { tag: b'E', payload: b"x".to_vec(), decompressed_size: 1 }]);
    let t = BlockTable::parse(&bytes).unwrap();
    assert_eq!(t.decompress(), Err(DecodeError::Unsupported(EncodingMode::Encrypted)));
    assert_eq!(
        decode_content(&bytes),
        Err(ResolutionError::Decode(DecodeError::Unsupported(EncodingMode::Encrypted)))
    );
}

#[test]
fn declared_size_mismatch_is_reported() {
    let bytes = container(&[Chunk { tag: b'N', payload: b"hello".to_vec(), decompressed_size: 4 }]);
    let t = BlockTable::parse(&bytes).unwrap();
    assert_eq!(t.decompress(), Err(DecodeError::SizeMismatch(0)));
    let bytes = container(&[Chunk { tag: b'Z', payload: zlib(b"abc"), decompressed_size: 9 }]);
    let t = BlockTable::parse(&bytes).unwrap();
    assert_eq!(t.decompress(), Err(DecodeError::SizeMismatch(0)));
}

#[test]
fn wrong_magic_is_rejected() {
    let mut bytes = container(&[Chunk { tag: b'N', payload: b"hi".to_vec(), decompressed_size: 2 }]);
    bytes[0] = b'X';
    assert_eq!(BlockTable::parse(&bytes).unwrap_err(), FormatError::BadMagic);
    assert_eq!(decode_content(&bytes), Err(ResolutionError::Format(FormatError::BadMagic)));
}

#[test]
fn short_inputs_are_truncated() {
    assert_eq!(BlockTable::parse(b"BL").unwrap_err(), FormatError::Truncated);
    assert_eq!(BlockTable::parse(b"BLTE\0\0\0").unwrap_err(), FormatError::Truncated);
    let bytes = container(&[Chunk { tag: b'N', payload: b"hello".to_vec(), decompressed_size: 5 }]);
    assert_eq!(BlockTable::parse(&bytes[..20]).unwrap_err(), FormatError::Truncated);
}

#[test]
fn payload_shorter_than_declared_fails_parse() {
    let bytes = container(&[Chunk { tag: b'N', payload: b"hello".to_vec(), decompressed_size: 5 }]);
    let cut = &bytes[..bytes.len() - 1];
    assert_eq!(BlockTable::parse(cut).unwrap_err(), FormatError::Truncated);
}

#[test]
fn payload_length_is_compressed_size_minus_one() {
    let mut bytes = container(&[
        Chunk { tag: b'N', payload: b"abc".to_vec(), decompressed_size: 3 },
        Chunk { tag: b'N', payload: b"defgh".to_vec(), decompressed_size: 5 },
    ]);
    bytes.extend_from_slice(b"trailing");
    let t = BlockTable::parse(&bytes).unwrap();
    for (e, c) in t.chunk_info_entries.iter().zip(t.chunk_data.iter()) {
        assert_eq!(c.data.len() as u32, e.compressed_size - 1);
    }
    assert_eq!(t.chunk_data[1].data, b"defgh".to_vec());
}

#[test]
fn unknown_mode_and_zero_size_are_malformed() {
    let bytes = container(&[Chunk { tag: b'Q', payload: b"x".to_vec(), decompressed_size: 1 }]);
    assert_eq!(BlockTable::parse(&bytes).unwrap_err(), FormatError::Malformed);
    let mut bytes = container(&[Chunk { tag: b'N', payload: b"x".to_vec(), decompressed_size: 1 }]);
    bytes[12..16].copy_from_slice(&0u32.to_be_bytes());
    assert_eq!(BlockTable::parse(&bytes).unwrap_err(), FormatError::Malformed);
}

#[test]
fn empty_table_decompresses_to_nothing() {
    let bytes = container(&[]);
    let t = BlockTable::parse(&bytes).unwrap();
    assert_eq!(t.decompress().unwrap(), Vec::<u8>::new());
}
