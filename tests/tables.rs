use blizztools::resolve::encoding_key_for;
use blizztools::{EncodingManifest, FormatError, IndexFile, Md5Hash, ResolutionError};

fn key(b: u8) -> [u8; 16] {
    let mut k = [0u8; 16];
    k[0] = b;
    k[15] = b.wrapping_add(1);
    k
}

fn ce_entry(c_key: [u8; 16], size: u8, e_keys: &[[u8; 16]]) -> Vec<u8> {
    let mut b = vec![e_keys.len() as u8];
    b.extend_from_slice(&[0, 0, 0, 0, size]);
    b.extend_from_slice(&c_key);
    for k in e_keys {
        b.extend_from_slice(k);
    }
    b
}

fn pad(mut page: Vec<u8>, len: usize) -> Vec<u8> {
    page.resize(len, 0);
    page
}

fn manifest(page_kb: u16, pages: &[Vec<u8>], espec: &[u8]) -> Vec<u8> {
    let mut b = b"EN".to_vec();
    b.push(1);
    b.push(16);
    b.push(16);
    b.extend_from_slice(&page_kb.to_be_bytes());
    b.extend_from_slice(&4u16.to_be_bytes());
    b.extend_from_slice(&(pages.len() as u32).to_be_bytes());
    b.extend_from_slice(&0u32.to_be_bytes());
    b.push(0);
    b.extend_from_slice(&(espec.len() as u32).to_be_bytes());
    b.extend_from_slice(espec);
    for (i, _) in pages.iter().enumerate() {
        b.extend_from_slice(&key(100 + i as u8));
        b.extend_from_slice(&[0xcd; 16]);
    }
    for p in pages {
        b.extend_from_slice(p);
    }
    b
}

#[test]
fn single_page_manifest_finds_its_entry() {
    let page = pad(ce_entry(key(1), 9, &[key(2)]), 1024);
    let bytes = manifest(1, &[page], b"");
    let m = EncodingManifest::parse(&bytes).unwrap();
    assert_eq!(m.ce_key_table_page_count, 1);
    assert_eq!(m.ce_page_size_kb, 1);
    let e = m.find_by_content_key(&Md5Hash(key(1))).unwrap();
    assert_eq!(e.key_count, 1);
    assert_eq!(e.file_size, [0, 0, 0, 0, 9]);
    assert_eq!(e.e_keys.len(), 1);
    assert_eq!(e.e_keys[0].0, key(2));
    assert!(m.find_by_content_key(&Md5Hash(key(7))).is_none());
    assert!(m.find_by_content_key(&Md5Hash(key(2))).is_none());
}

#[test]
fn header_and_metadata_are_kept() {
    let page = pad(ce_entry(key(1), 9, &[key(2)]), 1024);
    let bytes = manifest(1, &[page], b"z:{4096=n}");
    let m = EncodingManifest::parse(&bytes).unwrap();
    assert_eq!(m.version, 1);
    assert_eq!(m.ckey_hash_size, 16);
    assert_eq!(m.ekey_hash_size, 16);
    assert_eq!(m.e_page_size_kb, 4);
    assert_eq!(m.espec_block_size, 10);
    assert_eq!(m.espec_block, b"z:{4096=n}".to_vec());
    assert_eq!(m.ce_key_table_index.len(), 1);
    assert_eq!(m.ce_key_table_index[0].first_key.0, key(100));
    assert_eq!(m.ce_key_table_index[0].md5.0, [0xcd; 16]);
}

#[test]
fn entry_round_trip_keeps_keys_in_order() {
    let e_keys = [key(10), key(20), key(30)];
    let page = pad(ce_entry(key(5), 77, &e_keys), 1024);
    let m = EncodingManifest::parse(&manifest(1, &[page], b"")).unwrap();
    let e = &m.ce_key_table_entries[0];
    assert_eq!(e.key_count, 3);
    assert_eq!(e.c_key.0, key(5));
    assert_eq!(e.file_size, [0, 0, 0, 0, 77]);
    let got: Vec<[u8; 16]> = e.e_keys.iter().map(|k| k.0).collect();
    assert_eq!(got, e_keys.to_vec());
}

#[test]
fn short_final_manifest_page_is_truncated() {
    let page1 = pad(ce_entry(key(1), 1, &[key(2)]), 1024);
    let page2 = pad(ce_entry(key(3), 1, &[key(4)]), 1000);
    let bytes = manifest(1, &[page1, page2], b"");
    assert_eq!(EncodingManifest::parse(&bytes).unwrap_err(), FormatError::Truncated);
}

#[test]
fn manifest_magic_is_checked() {
    let page = pad(ce_entry(key(1), 1, &[key(2)]), 1024);
    let mut bytes = manifest(1, &[page], b"");
    bytes[1] = b'X';
    assert_eq!(EncodingManifest::parse(&bytes).unwrap_err(), FormatError::BadMagic);
    assert_eq!(EncodingManifest::parse(b"E").unwrap_err(), FormatError::Truncated);
}

#[test]
fn duplicate_content_key_resolves_to_first_page() {
    let page1 = pad(ce_entry(key(1), 1, &[key(2)]), 1024);
    let mut page2 = ce_entry(key(8), 1, &[key(9)]);
    page2.extend(ce_entry(key(1), 1, &[key(3)]));
    let bytes = manifest(1, &[page1, pad(page2, 1024)], b"");
    let m = EncodingManifest::parse(&bytes).unwrap();
    let e = m.find_by_content_key(&Md5Hash(key(1))).unwrap();
    assert_eq!(e.e_keys[0].0, key(2));
    let e = m.find_by_content_key(&Md5Hash(key(8))).unwrap();
    assert_eq!(e.e_keys[0].0, key(9));
    assert_eq!(encoding_key_for(&m, &Md5Hash(key(1))).unwrap().0, key(2));
}

#[test]
fn first_encoding_key_wins() {
    let page = pad(ce_entry(key(1), 1, &[key(2), key(3)]), 1024);
    let m = EncodingManifest::parse(&manifest(1, &[page], b"")).unwrap();
    assert_eq!(encoding_key_for(&m, &Md5Hash(key(1))).unwrap().0, key(2));
}

#[test]
fn entry_without_encoding_keys_resolves_to_no_encoding_key() {
    let page = pad(ce_entry(key(1), 1, &[]), 1024);
    let m = EncodingManifest::parse(&manifest(1, &[page], b"")).unwrap();
    assert_eq!(encoding_key_for(&m, &Md5Hash(key(1))), Err(ResolutionError::NoEncodingKey));
}

#[test]
fn absent_content_key_is_not_found() {
    let page = pad(ce_entry(key(1), 1, &[key(2)]), 1024);
    let m = EncodingManifest::parse(&manifest(1, &[page], b"")).unwrap();
    assert_eq!(encoding_key_for(&m, &Md5Hash(key(42))), Err(ResolutionError::ContentKeyNotFound));
}

fn index_record(k: [u8; 16], size: u32, offset: u32) -> Vec<u8> {
    let mut b = k.to_vec();
    b.extend_from_slice(&size.to_be_bytes());
    b.extend_from_slice(&offset.to_be_bytes());
    b
}

fn full_index_page(first: u8) -> Vec<u8> {
    let mut page = Vec::new();
    for i in 0..170u32 {
        page.extend(index_record(key(first.wrapping_add(i as u8)), i, 1000 + i));
    }
    pad(page, 4096)
}

#[test]
fn index_short_final_page_ends_without_error() {
    let mut bytes = full_index_page(1);
    let mut tail = index_record(key(200), 5, 6);
    tail.resize(2000, 7);
    bytes.extend(tail);
    let f = IndexFile::parse(&bytes).unwrap();
    assert_eq!(f.index_entries.len(), 170);
    assert_eq!(f.index_entries[0].e_key.0, key(1));
    assert_eq!(f.index_entries[169].size, 169);
    assert_eq!(f.index_entries[169].offset, 1169);
}

#[test]
fn index_reads_past_page_padding_into_next_page() {
    let mut bytes = full_index_page(1);
    bytes.extend(full_index_page(50));
    let f = IndexFile::parse(&bytes).unwrap();
    assert_eq!(f.index_entries.len(), 340);
    assert_eq!(f.index_entries[170].e_key.0, key(50));
}

#[test]
fn index_stops_at_null_key() {
    let mut page = index_record(key(1), 10, 20);
    page.extend(index_record(key(2), 11, 21));
    page.extend(index_record([0; 16], 12, 22));
    page.extend(index_record(key(3), 13, 23));
    let mut bytes = pad(page, 4096);
    bytes.extend(full_index_page(60));
    let f = IndexFile::parse(&bytes).unwrap();
    assert_eq!(f.index_entries.len(), 2);
    assert_eq!(f.index_entries[1].e_key.0, key(2));
    assert_eq!(f.index_entries[1].size, 11);
    assert_eq!(f.index_entries[1].offset, 21);
}

#[test]
fn index_shorter_than_a_page_is_empty() {
    let f = IndexFile::parse(&[1u8; 100]).unwrap();
    assert!(f.index_entries.is_empty());
}
