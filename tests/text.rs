use blizztools::cdn::parse_build_config;
use blizztools::parse::{parse_named_attribute, parse_named_attribute_pair, ParserError};
use blizztools::product::{object_path, ObjectKind, Product};
use blizztools::tact::{parse_cdn_table, parse_version_table, parse_version_table_entry};
use blizztools::text::TextLines;
use blizztools::Md5Hash;

const BUILD_CONFIG: &str = "# Build Configuration\n\nroot = 74260639df2c36f256dec1dc99007dee\ninstall = cb771e4587a2e7d3df2aa0a0802a1fc9 5707c55346b2bdffdc12587673ca6e78\ninstall-size = 17491 16957\ndownload = 742820d6e2a8e08c657b2f6402f5beb3 0ee936e6e1c5eda32dad6e133eb24b02\ndownload-size = 9391314 8189832\nsize = 04b685919f85d762322f635a207d85d2 1a98c149a20d884fe4a6d6ec507b0dcd\nsize-size = 6043993 5280643\nencoding = 81d6b3444dbb7113f69c7625361dbb91 9ea78760c2cfe3c9c3ccd42bf2057f95\nencoding-size = 23840656 23805555\n";

fn hash(s: &str) -> Md5Hash {
    Md5Hash::from_str(s).unwrap()
}

#[test]
fn hash_round_trips_through_hex() {
    let h = hash("74260639DF2c36f256dec1dc99007dee");
    assert_eq!(h.0[0], 0x74);
    assert_eq!(h.0[4], 0xdf);
    assert_eq!(h.as_str(), "74260639df2c36f256dec1dc99007dee");
    assert!(!h.is_null());
    assert!(hash("00000000000000000000000000000000").is_null());
    assert!(Md5Hash::from_str("7426").is_err());
    assert!(Md5Hash::from_str("74260639df2c36f256dec1dc99007deg").is_err());
    assert!(h == hash("74260639df2c36f256dec1dc99007dee"));
    assert!(h != hash("74260639df2c36f256dec1dc99007ded"));
}

#[test]
fn build_config_reads_every_pair() {
    let c = parse_build_config(BUILD_CONFIG).unwrap();
    assert_eq!(c.root.as_str(), "74260639df2c36f256dec1dc99007dee");
    assert_eq!(c.install.1.as_str(), "5707c55346b2bdffdc12587673ca6e78");
    assert_eq!(c.install_size, (17491, 16957));
    assert_eq!(c.download.0.as_str(), "742820d6e2a8e08c657b2f6402f5beb3");
    assert_eq!(c.download_size, (9391314, 8189832));
    assert_eq!(c.encoding.1.as_str(), "9ea78760c2cfe3c9c3ccd42bf2057f95");
    assert_eq!(c.encoding_size, (23840656, 23805555));
}

#[test]
fn build_config_accepts_crlf_lines() {
    let c = parse_build_config(&BUILD_CONFIG.replace('\n', "\r\n")).unwrap();
    assert_eq!(c.encoding_size, (23840656, 23805555));
}

#[test]
fn build_config_errors() {
    assert!(matches!(parse_build_config("# Build Configuration"), Err(ParserError::Exhausted)));
    let renamed = BUILD_CONFIG.replace("install-size", "install-bytes");
    match parse_build_config(&renamed) {
        Err(ParserError::AttributeName(want, got)) => {
            assert_eq!(want, "install-size");
            assert_eq!(got, "install-bytes");
        }
        other => panic!("unexpected {:?}", other),
    }
    let bad_size = BUILD_CONFIG.replace("17491", "17x91");
    assert!(matches!(parse_build_config(&bad_size), Err(ParserError::FromStr)));
    let cut = &BUILD_CONFIG[..BUILD_CONFIG.find("encoding =").unwrap()];
    assert!(matches!(parse_build_config(cut), Err(ParserError::Exhausted)));
}

#[test]
fn named_attribute_lines() {
    let mut lines = TextLines::new("root = 74260639df2c36f256dec1dc99007dee\nroot 74260639df2c36f256dec1dc99007dee\nkey = 0011\npair = 74260639df2c36f256dec1dc99007dee");
    assert_eq!(parse_named_attribute("root", &mut lines).unwrap().as_str(), "74260639df2c36f256dec1dc99007dee");
    assert!(matches!(parse_named_attribute("root", &mut lines), Err(ParserError::Exhausted)));
    assert!(matches!(parse_named_attribute("key", &mut lines), Err(ParserError::FromStr)));
    assert!(matches!(parse_named_attribute_pair("pair", &mut lines), Err(ParserError::Exhausted)));
    assert!(matches!(parse_named_attribute("root", &mut lines), Err(ParserError::Exhausted)));
}

#[test]
fn version_table_rows() {
    let data = "Region!STRING:0|BuildConfig!HEX:16|CDNConfig!HEX:16|KeyRing!HEX:16|BuildId!DEC:4|VersionsName!String:0|ProductConfig!HEX:16\n## seqn = 2104552\nus|742820d6e2a8e08c657b2f6402f5beb3|0ee936e6e1c5eda32dad6e133eb24b02||51237|1.0.2.51237|9ea78760c2cfe3c9c3ccd42bf2057f95\n\neu|742820d6e2a8e08c657b2f6402f5beb3|0ee936e6e1c5eda32dad6e133eb24b02|81d6b3444dbb7113f69c7625361dbb91|51237|1.0.2.51237|9ea78760c2cfe3c9c3ccd42bf2057f95\n";
    let v = parse_version_table(data).unwrap();
    assert_eq!(v.len(), 2);
    assert_eq!(v[0].region, "us");
    assert!(v[0].key_ring.is_none());
    assert_eq!(v[1].key_ring.unwrap().as_str(), "81d6b3444dbb7113f69c7625361dbb91");
    assert_eq!(v[1].build_id, "51237");
    assert_eq!(v[1].version_name, "1.0.2.51237");
    assert_eq!(v[1].product_config.as_str(), "9ea78760c2cfe3c9c3ccd42bf2057f95");
    assert_eq!(v[0].build_config.as_str(), "742820d6e2a8e08c657b2f6402f5beb3");
}

#[test]
fn version_table_errors() {
    assert!(matches!(parse_version_table("only one line"), Err(ParserError::Exhausted)));
    assert!(matches!(parse_version_table_entry("us|nothex"), Err(ParserError::Md5Parse(_))));
    assert!(matches!(
        parse_version_table_entry("us|742820d6e2a8e08c657b2f6402f5beb3|0ee936e6e1c5eda32dad6e133eb24b02|"),
        Err(ParserError::Exhausted)
    ));
    assert!(matches!(parse_version_table("a\nb\nus|zz\n"), Err(ParserError::Md5Parse(_))));
}

#[test]
fn cdn_table_rows() {
    let data = "Name!STRING:0|Path!STRING:0|Hosts!STRING:0|Servers!STRING:0|ConfigPath!STRING:0\n## seqn = 1\nus|tpr/wow|level3.blizzard.com  us.cdn.blizzard.com|http://a.example/?maxhosts=4 http://b.example/?fallback=1|tpr/configs/data\n";
    let c = parse_cdn_table(data).unwrap();
    assert_eq!(c.len(), 1);
    assert_eq!(c[0].name, "us");
    assert_eq!(c[0].path, "tpr/wow");
    assert_eq!(c[0].servers, vec!["level3.blizzard.com".to_string(), "us.cdn.blizzard.com".to_string()]);
    assert_eq!(c[0].hosts.len(), 2);
    assert_eq!(c[0].hosts[1], "http://b.example/?fallback=1");
    assert_eq!(c[0].config_path, "tpr/configs/data");
    assert!(matches!(parse_cdn_table("a\nb\nus|path\n"), Err(ParserError::Exhausted)));
}

#[test]
fn product_paths_and_object_paths() {
    assert_eq!(Product::Wow.cdn_path(), "wow");
    assert_eq!(Product::Diablo4.cdn_path(), "fenris");
    assert_eq!(Product::OverwatchTest.cdn_path(), "prot");
    let k = hash("742820d6e2a8e08c657b2f6402f5beb3");
    assert_eq!(object_path(ObjectKind::Data, &k), "data/74/28/742820d6e2a8e08c657b2f6402f5beb3");
    assert_eq!(object_path(ObjectKind::Config, &k), "config/74/28/742820d6e2a8e08c657b2f6402f5beb3");
}

#[test]
fn hashes_order_by_bytes() {
    let a = hash("00000000000000000000000000000001");
    let b = hash("00000000000000000000000000000100");
    assert!(a < b);
    assert_eq!(a.cmp(&a), std::cmp::Ordering::Equal);
}
