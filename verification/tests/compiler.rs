use geolocate_ip::{
    compile, lookup_ip, parse_addr, parse_ip, Artifact, BlockRecord, CompileError, RegionRecord,
};

fn region(id: u32, country: &str) -> RegionRecord {
    RegionRecord { id, country: country.to_string() }
}

fn block(prefix: &str, primary: &str, secondary: &str) -> BlockRecord {
    BlockRecord {
        prefix: prefix.to_string(),
        primary: primary.to_string(),
        secondary: secondary.to_string(),
    }
}

fn compile_one(prefix: &str) -> Artifact {
    let regions = vec![region(7, "DE")];
    let blocks = vec![block(prefix, "7", "")];
    compile(&regions, &blocks).unwrap()
}

#[test]
fn parse_ip_reads_address_and_length() {
    assert_eq!(parse_ip("1.2.3.4/24"), Ok((0x01020304, 24)));
    assert_eq!(parse_ip("255.255.255.255/32"), Ok((0xFFFFFFFF, 32)));
    assert_eq!(parse_ip("0.0.0.0/0"), Ok((0, 0)));
    assert_eq!(parse_ip("010.001.000.200/08"), Ok((0x0A0100C8, 8)));
}

#[test]
fn parse_ip_ignores_a_second_slash() {
    assert_eq!(parse_ip("1.2.3.4/24/9"), Ok((0x01020304, 24)));
}

#[test]
fn parse_ip_rejects_malformed_prefixes() {
    assert!(parse_ip("8.8.8.8").is_err());
    assert!(parse_ip("1.2.3.4/33").is_err());
    assert!(parse_ip("1.2.3/8").is_err());
    assert!(parse_ip("256.1.1.1/8").is_err());
    assert!(parse_ip("1.2.3.4/").is_err());
    assert!(parse_ip("1.2.3.4/x").is_err());
    assert!(parse_ip("1.2.3.4.5/8").is_err());
    assert!(parse_ip("").is_err());
    assert!(parse_addr("abc").is_err());
    assert!(parse_addr("1.2.3").is_err());
}

#[test]
fn containment_network_and_broadcast() {
    let a = compile_one("10.0.0.0/8");
    assert_eq!(lookup_ip(&a, parse_addr("10.0.0.0").unwrap()), Some("DE".to_string()));
    assert_eq!(lookup_ip(&a, parse_addr("10.255.255.255").unwrap()), Some("DE".to_string()));
    assert_eq!(lookup_ip(&a, parse_addr("10.17.4.200").unwrap()), Some("DE".to_string()));
    assert_eq!(lookup_ip(&a, parse_addr("11.0.0.0").unwrap()), None);
    assert_eq!(lookup_ip(&a, parse_addr("9.255.255.255").unwrap()), None);
}

#[test]
fn zero_length_prefix_covers_everything() {
    let a = compile_one("0.0.0.0/0");
    assert_eq!(lookup_ip(&a, parse_addr("0.0.0.0").unwrap()), Some("DE".to_string()));
    assert_eq!(lookup_ip(&a, parse_addr("255.255.255.255").unwrap()), Some("DE".to_string()));
    assert_eq!(lookup_ip(&a, parse_addr("127.0.0.1").unwrap()), Some("DE".to_string()));
}

#[test]
fn full_length_prefix_covers_one_address() {
    let a = compile_one("192.168.1.7/32");
    assert_eq!(lookup_ip(&a, parse_addr("192.168.1.7").unwrap()), Some("DE".to_string()));
    assert_eq!(lookup_ip(&a, parse_addr("192.168.1.6").unwrap()), None);
    assert_eq!(lookup_ip(&a, parse_addr("192.168.1.8").unwrap()), None);
}

#[test]
fn overlapping_prefixes_fail_compilation() {
    let regions = vec![region(1, "US"), region(2, "GB")];
    let blocks = vec![block("10.0.0.0/8", "1", ""), block("10.1.0.0/16", "2", "")];
    match compile(&regions, &blocks) {
        Err(CompileError::Overlap { block, .. }) => assert_eq!(block, 1),
        other => panic!("expected an overlap error, got {:?}", other.is_ok()),
    }
}

#[test]
fn contained_prefix_fails_compilation_either_order() {
    let regions = vec![region(1, "US"), region(2, "GB")];
    let blocks = vec![block("10.1.0.0/16", "1", ""), block("10.0.0.0/8", "2", "")];
    assert!(compile(&regions, &blocks).is_err());
}

#[test]
fn duplicate_prefix_fails_compilation() {
    let regions = vec![region(1, "US")];
    let blocks = vec![block("10.0.0.0/8", "1", ""), block("10.0.0.0/8", "1", "")];
    assert!(compile(&regions, &blocks).is_err());
}

#[test]
fn disjoint_prefixes_compile() {
    let regions = vec![region(1, "US"), region(2, "GB")];
    let blocks = vec![block("10.0.0.0/8", "1", ""), block("11.0.0.0/8", "2", "")];
    let a = compile(&regions, &blocks).unwrap();
    assert_eq!(lookup_ip(&a, parse_addr("10.9.9.9").unwrap()), Some("US".to_string()));
    assert_eq!(lookup_ip(&a, parse_addr("11.9.9.9").unwrap()), Some("GB".to_string()));
    assert_eq!(lookup_ip(&a, parse_addr("12.9.9.9").unwrap()), None);
}

#[test]
fn bad_prefix_fails_compilation_with_its_block() {
    let regions = vec![region(1, "US")];
    let blocks = vec![block("10.0.0.0/8", "1", ""), block("not-a-prefix", "1", "")];
    match compile(&regions, &blocks) {
        Err(e) => assert_eq!(e, CompileError::BadPrefix { block: 1 }),
        Ok(_) => panic!("expected a bad-prefix error"),
    }
}

#[test]
fn compilation_is_deterministic() {
    let regions = vec![region(1, "US"), region(2, "GB"), region(3, "FR")];
    let blocks = vec![
        block("8.8.8.0/24", "1", ""),
        block("81.2.69.0/24", "2", ""),
        block("92.103.0.0/16", "3", ""),
        block("4.0.0.0/8", "9999", ""),
    ];
    let a1 = compile(&regions, &blocks).unwrap();
    let a2 = compile(&regions, &blocks).unwrap();
    assert_eq!(a1.node_count(), a2.node_count());
    for i in 0..a1.node_count() {
        assert_eq!(a1.node_at(i), a2.node_at(i));
    }
    assert_eq!(a1.country_count(), a2.country_count());
    for i in 0..a1.country_count() {
        assert_eq!(a1.country_at(i), a2.country_at(i));
    }
    assert_eq!(a1.root_index(), a2.root_index());
}

#[test]
fn region_id_falls_back_to_secondary_then_zero() {
    let regions = vec![region(0, "AQ"), region(5, "SE")];
    let blocks = vec![
        block("10.0.0.0/8", "", "5"),
        block("11.0.0.0/8", "junk", ""),
    ];
    let a = compile(&regions, &blocks).unwrap();
    assert_eq!(lookup_ip(&a, parse_addr("10.1.1.1").unwrap()), Some("SE".to_string()));
    assert_eq!(lookup_ip(&a, parse_addr("11.1.1.1").unwrap()), Some("AQ".to_string()));
}

#[test]
fn later_region_record_wins_for_a_repeated_id() {
    let regions = vec![region(5, "SE"), region(5, "NO")];
    let blocks = vec![block("10.0.0.0/8", "5", "")];
    let a = compile(&regions, &blocks).unwrap();
    assert_eq!(lookup_ip(&a, parse_addr("10.1.1.1").unwrap()), Some("NO".to_string()));
    assert_eq!(a.country_count(), 2);
    assert_eq!(a.country_at(0), Some("SE".to_string()));
}

#[test]
fn unknown_region_id_resolves_to_no_result() {
    let regions = vec![region(1, "US")];
    let blocks = vec![block("10.0.0.0/8", "424242", "")];
    let a = compile(&regions, &blocks).unwrap();
    assert_eq!(lookup_ip(&a, parse_addr("10.1.1.1").unwrap()), None);
    assert_eq!(lookup_ip(&a, parse_addr("9.1.1.1").unwrap()), None);
}

#[test]
fn empty_dataset_maps_everything_to_no_result() {
    let a = compile(&vec![], &vec![]).unwrap();
    assert_eq!(a.node_count(), 1);
    assert_eq!(a.root_index(), 0);
    assert_eq!(lookup_ip(&a, parse_addr("1.2.3.4").unwrap()), None);
}
