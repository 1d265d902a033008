use blizztools::{DownloadManifest, FormatError, InstallManifest};

fn tag(name: &[u8], tag_type: u16, mask: &[u8]) -> Vec<u8> {
    let mut b = name.to_vec();
    b.push(0);
    b.extend_from_slice(&tag_type.to_be_bytes());
    b.extend_from_slice(mask);
    b
}

#[test]
fn install_manifest_reads_tags_and_entries() {
    let mut b = b"IN".to_vec();
    b.push(1);
    b.push(16);
    b.extend_from_slice(&2u16.to_be_bytes());
    b.extend_from_slice(&9u32.to_be_bytes());
    b.extend(tag(b"Windows", 1, &[0xff, 0x80]));
    b.extend(tag(b"enUS", 3, &[0x01, 0x00]));
    for i in 0..9u8 {
        b.extend_from_slice(format!("file{}.dat", i).as_bytes());
        b.push(0);
        b.extend_from_slice(&[i; 16]);
        b.extend_from_slice(&(100 + i as u32).to_be_bytes());
    }
    let m = InstallManifest::parse(&b).unwrap();
    assert_eq!(m.num_tags, 2);
    assert_eq!(m.tags[0].name, b"Windows".to_vec());
    assert_eq!(m.tags[0].mask, vec![0xff, 0x80]);
    assert_eq!(m.tags[1].tag_type, 3);
    assert_eq!(m.entries.len(), 9);
    assert_eq!(m.entries[8].name, b"file8.dat".to_vec());
    assert_eq!(m.entries[8].hash.0, [8; 16]);
    assert_eq!(m.entries[8].size, 108);
    assert_eq!(InstallManifest::parse(&b[..b.len() - 1]).unwrap_err(), FormatError::Truncated);
    assert_eq!(InstallManifest::parse(b"DL\0").unwrap_err(), FormatError::BadMagic);
}

#[test]
fn download_manifest_reads_entries_then_tags() {
    let mut b = b"DL".to_vec();
    b.extend_from_slice(&[1, 16, 0]);
    b.extend_from_slice(&3u32.to_be_bytes());
    b.extend_from_slice(&1u16.to_be_bytes());
    for i in 0..3u8 {
        b.extend_from_slice(&[i + 1; 16]);
        b.extend_from_slice(&[0, 0, 0, 1, i]);
        b.push(i);
    }
    b.extend(tag(b"x86_64", 2, &[0xa0]));
    let m = DownloadManifest::parse(&b).unwrap();
    assert_eq!(m.num_entries, 3);
    assert_eq!(m.entries[2].hash.0, [3; 16]);
    assert_eq!(m.entries[2].file_size, [0, 0, 0, 1, 2]);
    assert_eq!(m.entries[2].priority, 2);
    assert_eq!(m.tags.len(), 1);
    assert_eq!(m.tags[0].name, b"x86_64".to_vec());
    assert_eq!(m.tags[0].mask, vec![0xa0]);
    assert_eq!(DownloadManifest::parse(&b[..30]).unwrap_err(), FormatError::Truncated);
}
