use mmdb_writer::network::Network;
use mmdb_writer::value::MmdbValue;
use mmdb_writer::writer::{write_record_pair, MMDBWriter};

const MARKER: &[u8] = b"\xab\xcd\xefMaxMind.com";

/// Decodes the data-section value at `pos`; pointers are offsets into `data`.
fn decode(data: &[u8], pos: usize) -> (MmdbValue, usize) {
    let ctrl = data[pos];
    let mut p = pos + 1;
    let mut t = ctrl >> 5;
    if t == 1 {
        let ss = ((ctrl >> 3) & 3) as usize;
        let v = (ctrl & 7) as usize;
        let b = &data[p..p + ss + 1];
        let target = match ss {
            0 => (v << 8) | b[0] as usize,
            1 => ((v << 16) | (b[0] as usize) << 8 | b[1] as usize) + 2048,
            2 => ((v << 24) | (b[0] as usize) << 16 | (b[1] as usize) << 8 | b[2] as usize) + 526336,
            _ => u32::from_be_bytes([b[0], b[1], b[2], b[3]]) as usize,
        };
        return (decode(data, target).0, p + ss + 1);
    }
    if t == 0 {
        t = data[p] + 7;
        p += 1;
    }
    let mut size = (ctrl & 31) as usize;
    if size == 29 {
        size = 29 + data[p] as usize;
        p += 1;
    } else if size == 30 {
        size = 285 + ((data[p] as usize) << 8 | data[p + 1] as usize);
        p += 2;
    } else if size == 31 {
        size = 65821 + ((data[p] as usize) << 16 | (data[p + 1] as usize) << 8 | data[p + 2] as usize);
        p += 3;
    }
    let be = |bytes: &[u8]| bytes.iter().fold(0u128, |acc, b| acc << 8 | *b as u128);
    match t {
        2 => (MmdbValue::String(String::from_utf8(data[p..p + size].to_vec()).unwrap()), p + size),
        3 => (MmdbValue::Double(be(&data[p..p + 8]) as u64), p + 8),
        4 => (MmdbValue::Bytes(data[p..p + size].to_vec()), p + size),
        5 => (MmdbValue::Uint16(be(&data[p..p + size]) as u16), p + size),
        6 => (MmdbValue::Uint32(be(&data[p..p + size]) as u32), p + size),
        7 => {
            let mut entries = Vec::new();
            for _ in 0..size {
                let (k, np) = decode(data, p);
                let (v, np) = decode(data, np);
                p = np;
                match k {
                    MmdbValue::String(k) => entries.push((k, v)),
                    _ => panic!("map key is not a string"),
                }
            }
            (MmdbValue::Mapping(entries), p)
        },
        8 => (MmdbValue::Int32(be(&data[p..p + size]) as u32 as i32), p + size),
        9 => (MmdbValue::Uint64(be(&data[p..p + size]) as u64), p + size),
        10 => (MmdbValue::Uint128(be(&data[p..p + size])), p + size),
        11 => {
            let mut items = Vec::new();
            for _ in 0..size {
                let (v, np) = decode(data, p);
                p = np;
                items.push(v);
            }
            (MmdbValue::Array(items), p)
        },
        14 => (MmdbValue::Boolean(size != 0), p),
        15 => (MmdbValue::Float(be(&data[p..p + 4]) as u32), p + 4),
        _ => panic!("unknown type {t}"),
    }
}

fn metadata(file: &[u8]) -> Vec<(String, MmdbValue)> {
    let at = file.windows(MARKER.len()).rposition(|w| w == MARKER).expect("no metadata marker");
    match decode(&file[at + MARKER.len()..], 0).0 {
        MmdbValue::Mapping(m) => m,
        _ => panic!("metadata is not a map"),
    }
}

fn meta_uint(meta: &[(String, MmdbValue)], key: &str) -> u128 {
    match &meta.iter().find(|(k, _)| k == key).unwrap().1 {
        MmdbValue::Uint16(v) => *v as u128,
        MmdbValue::Uint32(v) => *v as u128,
        MmdbValue::Uint64(v) => *v as u128,
        other => panic!("{key} is {other:?}"),
    }
}

/// What a reader finds in `file` for the `total`-bit address `ip`.
fn lookup(file: &[u8], ip: u128, total: u32) -> Option<MmdbValue> {
    let meta = metadata(file);
    let nc = meta_uint(&meta, "node_count") as usize;
    let rs = meta_uint(&meta, "record_size") as usize;
    let data = &file[nc * rs / 4 + 16..];
    let mut node = 0usize;
    for i in 0..total {
        if node >= nc {
            return None;
        }
        let bit = ((ip >> (total - 1 - i)) & 1) as usize;
        let rec = match rs {
            24 => {
                let b = &file[node * 6 + bit * 3..];
                (b[0] as usize) << 16 | (b[1] as usize) << 8 | b[2] as usize
            },
            28 => {
                let b = &file[node * 7..];
                if bit == 0 {
                    ((b[3] >> 4) as usize) << 24 | (b[0] as usize) << 16 | (b[1] as usize) << 8 | b[2] as usize
                } else {
                    ((b[3] & 15) as usize) << 24 | (b[4] as usize) << 16 | (b[5] as usize) << 8 | b[6] as usize
                }
            },
            _ => {
                let b = &file[node * 8 + bit * 4..];
                u32::from_be_bytes([b[0], b[1], b[2], b[3]]) as usize
            },
        };
        if rec < nc {
            node = rec;
        } else if rec == nc {
            return None;
        } else {
            return Some(decode(data, rec - nc - 16).0);
        }
    }
    None
}

fn v4(s: &str) -> u128 {
    match Network::parse(s).unwrap() {
        Network::V4 { addr, .. } => addr as u128,
        other => panic!("{other:?} is not IPv4"),
    }
}

fn v6(s: &str) -> u128 {
    match Network::parse(s).unwrap() {
        Network::V6 { addr, .. } => addr,
        other => panic!("{other:?} is not IPv6"),
    }
}

fn text(s: &str) -> MmdbValue {
    MmdbValue::String(s.to_string())
}

fn record(country: &str, isp: &str) -> MmdbValue {
    MmdbValue::Mapping(vec![("country".to_string(), text(country)), ("isp".to_string(), text(isp))])
}

fn writer(ip_version: u8, ipv4_compatible: bool) -> MMDBWriter {
    MMDBWriter::new(ip_version, "GeoIP".to_string(), vec![], vec![], ipv4_compatible)
}

fn net(s: &str) -> Network {
    Network::parse(s).unwrap()
}

#[test]
fn readme_usage() {
    let mut w = writer(4, false);
    w.insert_network(net("1.1.0.0/24"), record("COUNTRY", "ISP")).unwrap();
    w.insert_network(net("1.1.1.0/24"), record("COUNTRY", "ISP")).unwrap();
    let file = w.build(1_700_000_000).unwrap();
    assert_eq!(lookup(&file, v4("1.1.1.1"), 32), Some(record("COUNTRY", "ISP")));
    assert_eq!(lookup(&file, v4("1.1.0.200"), 32), Some(record("COUNTRY", "ISP")));
    assert_eq!(lookup(&file, v4("1.1.2.1"), 32), None);
    assert_eq!(lookup(&file, v4("8.8.8.8"), 32), None);
}

#[test]
fn subnet_inside_supernet() {
    let mut w = writer(4, false);
    w.insert_network(net("10.0.0.0/8"), text("A")).unwrap();
    w.insert_network(net("10.1.0.0/16"), text("B")).unwrap();
    let file = w.build(0).unwrap();
    assert_eq!(lookup(&file, v4("10.1.2.3"), 32), Some(text("B")));
    assert_eq!(lookup(&file, v4("10.2.0.0"), 32), Some(text("A")));
    assert_eq!(lookup(&file, v4("10.255.255.255"), 32), Some(text("A")));
    assert_eq!(lookup(&file, v4("10.0.255.255"), 32), Some(text("A")));
    assert_eq!(lookup(&file, v4("11.0.0.0"), 32), None);
}

#[test]
fn later_supernet_covers_subnet() {
    let mut w = writer(4, false);
    w.insert_network(net("10.1.0.0/16"), text("B")).unwrap();
    w.insert_network(net("10.0.0.0/8"), text("A")).unwrap();
    let file = w.build(0).unwrap();
    assert_eq!(lookup(&file, v4("10.1.2.3"), 32), Some(text("A")));
    assert_eq!(lookup(&file, v4("10.200.0.1"), 32), Some(text("A")));
}

#[test]
fn whole_space_root_split_drops_other_half() {
    let mut w = writer(4, false);
    w.insert_network(net("0.0.0.0/0"), text("ALL")).unwrap();
    w.insert_network(net("1.0.0.0/8"), text("ONE")).unwrap();
    let file = w.build(0).unwrap();
    assert_eq!(lookup(&file, v4("1.2.3.4"), 32), Some(text("ONE")));
    assert_eq!(lookup(&file, v4("2.0.0.0"), 32), Some(text("ALL")));
    // the half of the space away from 1.0.0.0/8 loses the value
    assert_eq!(lookup(&file, v4("200.0.0.0"), 32), None);
}

#[test]
fn ipv6_database() {
    let mut w = writer(6, false);
    w.insert_network(net("2001:db8::/32"), MmdbValue::Uint32(70000)).unwrap();
    let file = w.build(0).unwrap();
    assert_eq!(lookup(&file, v6("2001:db8::1"), 128), Some(MmdbValue::Uint32(70000)));
    assert_eq!(lookup(&file, v6("2001:db9::1"), 128), None);
}

#[test]
fn ipv4_into_ipv6_compatible() {
    let mut w = writer(6, true);
    w.insert_network(net("1.1.1.0/24"), MmdbValue::Boolean(true)).unwrap();
    let file = w.build(0).unwrap();
    // the IPv4 prefix length is kept on the 128-bit mapped address
    assert_eq!(lookup(&file, v6("::ffff:1.1.1.1"), 128), Some(MmdbValue::Boolean(true)));
}

#[test]
fn refused_networks() {
    let mut w = writer(4, false);
    assert_eq!(
        w.insert_network(net("2001:db8::/32"), text("x")),
        Err("Cannot insert IPv6 into IPv4-only database".to_string())
    );
    let mut w6 = writer(6, false);
    assert_eq!(
        w6.insert_network(net("1.1.1.0/24"), text("x")),
        Err("Invalid IP version for IPv4 network".to_string())
    );
    let file = w6.build(0).unwrap();
    assert_eq!(lookup(&file, v6("::1"), 128), None);
}

#[test]
fn metadata_contents() {
    let mut w = MMDBWriter::new(
        4,
        "Test-DB".to_string(),
        vec!["en".to_string(), "zh".to_string()],
        vec![("en".to_string(), "Test database".to_string())],
        false,
    );
    w.insert_network(net("1.0.0.0/24"), text("x")).unwrap();
    let file = w.build(1234).unwrap();
    let meta = metadata(&file);
    let keys: Vec<&str> = meta.iter().map(|(k, _)| k.as_str()).collect();
    assert_eq!(
        keys,
        vec![
            "node_count",
            "record_size",
            "ip_version",
            "database_type",
            "languages",
            "binary_format_major_version",
            "binary_format_minor_version",
            "description",
            "build_epoch"
        ]
    );
    assert_eq!(meta[0].1, MmdbValue::Uint32(24));
    assert_eq!(meta[1].1, MmdbValue::Uint16(24));
    assert_eq!(meta[2].1, MmdbValue::Uint16(4));
    assert_eq!(meta[3].1, text("Test-DB"));
    assert_eq!(meta[4].1, MmdbValue::Array(vec![text("en"), text("zh")]));
    assert_eq!(meta[5].1, MmdbValue::Uint16(2));
    assert_eq!(meta[6].1, MmdbValue::Uint16(0));
    assert_eq!(meta[7].1, MmdbValue::Mapping(vec![("en".to_string(), text("Test database"))]));
    assert_eq!(meta[8].1, MmdbValue::Uint64(1234));
}

#[test]
fn file_layout_bytes() {
    let mut w = writer(4, false);
    w.insert_network(net("128.0.0.0/1"), text("x")).unwrap();
    let file = w.build(0).unwrap();
    // one node: left empty (1), right the leaf at data offset 0 (1 + 16 + 0)
    assert_eq!(&file[..6], &[0, 0, 1, 0, 0, 17]);
    assert_eq!(&file[6..22], &[0u8; 16]);
    assert_eq!(&file[22..24], &[0x41, b'x']);
    assert_eq!(&file[24..38], MARKER);
}

#[test]
fn second_build_numbers_nothing() {
    let mut w = writer(4, false);
    w.insert_network(net("1.0.0.0/8"), text("x")).unwrap();
    let first = w.build(0).unwrap();
    assert_eq!(meta_uint(&metadata(&first), "node_count"), 8);
    let second = w.build(0).unwrap();
    assert_eq!(meta_uint(&metadata(&second), "node_count"), 0);
}

#[test]
fn record_pairs() {
    let mut b = Vec::new();
    assert_eq!(write_record_pair(&mut b, 0x123456, 0xABCDEF, 24), Ok(()));
    assert_eq!(b, vec![0x12, 0x34, 0x56, 0xAB, 0xCD, 0xEF]);
    let mut b = Vec::new();
    assert_eq!(write_record_pair(&mut b, 0x0123_4567, 0x089A_BCDE, 28), Ok(()));
    assert_eq!(b, vec![0x23, 0x45, 0x67, 0x18, 0x9A, 0xBC, 0xDE]);
    let mut b = Vec::new();
    assert_eq!(write_record_pair(&mut b, 0x0102_0304, 0xA0B0_C0D0, 32), Ok(()));
    assert_eq!(b, vec![1, 2, 3, 4, 0xA0, 0xB0, 0xC0, 0xD0]);
    let mut b = vec![7];
    assert_eq!(write_record_pair(&mut b, 1, 2, 20), Err(20));
    assert_eq!(b, vec![7]);
}

#[test]
fn shared_strings_written_once() {
    let mut w = writer(4, false);
    w.insert_network(net("1.0.0.0/24"), record("US", "X")).unwrap();
    w.insert_network(net("2.0.0.0/24"), record("US", "X")).unwrap();
    let file = w.build(0).unwrap();
    let count = file.windows(3).filter(|s| *s == [0x42, b'U', b'S']).count();
    assert_eq!(count, 1);
    assert_eq!(lookup(&file, v4("2.0.0.9"), 32), Some(record("US", "X")));
}

#[test]
fn every_type_reads_back() {
    let inner = MmdbValue::Mapping(vec![
        ("flag".to_string(), MmdbValue::Boolean(true)),
        ("off".to_string(), MmdbValue::Boolean(false)),
        ("list".to_string(), MmdbValue::Array(vec![text("x"), MmdbValue::Uint16(0), text("x")])),
    ]);
    let content = MmdbValue::Mapping(vec![
        ("name".to_string(), text("Zürich")),
        ("double".to_string(), MmdbValue::Double(1.5f64.to_bits())),
        ("float".to_string(), MmdbValue::Float((-2.25f32).to_bits())),
        ("bytes".to_string(), MmdbValue::Bytes(vec![0, 255, 7])),
        ("u16".to_string(), MmdbValue::Uint16(65535)),
        ("u32".to_string(), MmdbValue::Uint32(70000)),
        ("i32".to_string(), MmdbValue::Int32(-5)),
        ("u64".to_string(), MmdbValue::Uint64(u64::MAX)),
        ("u128".to_string(), MmdbValue::Uint128(u128::MAX)),
        ("long".to_string(), text(&"a".repeat(300))),
        ("nested".to_string(), inner),
        ("empty".to_string(), MmdbValue::Array(vec![])),
    ]);
    let mut w = writer(6, true);
    w.insert_network(net("2001:db8::/32"), content.clone()).unwrap();
    w.insert_network(net("192.0.2.0/24"), text("v4")).unwrap();
    let file = w.build(0).unwrap();
    assert_eq!(lookup(&file, v6("2001:db8::1"), 128), Some(content));
    assert_eq!(lookup(&file, 0xFFFF_0000_0000 + v4("192.0.2.77"), 128), Some(text("v4")));
    assert_eq!(lookup(&file, v6("2001:db9::1"), 128), None);
}

#[test]
fn disjoint_inserts_commute() {
    let nets = [("1.0.0.0/8", "US"), ("2.0.0.0/8", "DE")];
    let mut forward = writer(4, false);
    forward.insert_network(net(nets[0].0), text(nets[0].1)).unwrap();
    forward.insert_network(net(nets[1].0), text(nets[1].1)).unwrap();
    let mut backward = writer(4, false);
    backward.insert_network(net(nets[1].0), text(nets[1].1)).unwrap();
    backward.insert_network(net(nets[0].0), text(nets[0].1)).unwrap();
    let (f, b) = (forward.build(0).unwrap(), backward.build(0).unwrap());
    for ip in ["1.2.3.4", "2.0.0.1", "2.200.0.1", "3.0.0.0", "0.255.255.255"] {
        assert_eq!(lookup(&f, v4(ip), 32), lookup(&b, v4(ip), 32), "{ip}");
    }
    assert_eq!(lookup(&f, v4("1.2.3.4"), 32), Some(text("US")));
    assert_eq!(lookup(&f, v4("2.200.0.1"), 32), Some(text("DE")));
}

#[test]
fn nodes_numbered_in_preorder() {
    let mut w = writer(4, false);
    w.insert_network(net("0.0.0.0/2"), text("a")).unwrap();
    w.insert_network(net("128.0.0.0/2"), text("b")).unwrap();
    let file = w.build(0).unwrap();
    // root 0; its left child 1 (bit 0), then its right child 2 (bit 1);
    // 3 nodes, so a leaf at data offset o is 3 + 16 + o
    assert_eq!(&file[..6], &[0, 0, 1, 0, 0, 2]);
    assert_eq!(&file[6..12], &[0, 0, 19, 0, 0, 3]);
    assert_eq!(&file[12..18], &[0, 0, 21, 0, 0, 3]);
    assert_eq!(&file[18..34], &[0u8; 16]);
    assert_eq!(&file[34..38], &[0x41, b'a', 0x41, b'b']);
}
