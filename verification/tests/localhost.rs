use geolocate_ip::{compile, lookup_ip, parse_addr, Artifact, BlockRecord, RegionRecord};

fn sample_artifact() -> Artifact {
    let regions = vec![
        RegionRecord { id: 6252001, country: "US".to_string() },
        RegionRecord { id: 2635167, country: "GB".to_string() },
    ];
    let blocks = vec![
        BlockRecord {
            prefix: "8.8.8.0/24".to_string(),
            primary: "6252001".to_string(),
            secondary: "".to_string(),
        },
        BlockRecord {
            prefix: "81.2.69.0/24".to_string(),
            primary: "".to_string(),
            secondary: "2635167".to_string(),
        },
    ];
    compile(&regions, &blocks).unwrap()
}

#[test]
fn localhost_returns_none() {
    let localhost = parse_addr("127.0.0.1").unwrap();

    assert_eq!(lookup_ip(&sample_artifact(), localhost), None);
}

#[test]
fn null_returns_none() {
    let addr = parse_addr("0.0.0.0").unwrap();

    assert_eq!(lookup_ip(&sample_artifact(), addr), None);
}

#[test]
fn mask_returns_none() {
    let addr = parse_addr("255.255.255.255").unwrap();

    assert_eq!(lookup_ip(&sample_artifact(), addr), None);
}

#[test]
fn google_in_america() {
    let addr = parse_addr("8.8.8.8").unwrap();

    assert_eq!(lookup_ip(&sample_artifact(), addr), Some("US".to_string()));
}
