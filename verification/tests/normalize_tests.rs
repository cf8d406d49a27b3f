//! Normalization of raw catalog entries into canonical records.

use wg_config::mapper::City;
use wg_config::mapper::Country;
use wg_config::mapper::Group;
use wg_config::mapper::Location;
use wg_config::mapper::Metadata;
use wg_config::mapper::Technology;
use wg_config::NormalizationError;
use wg_config::ServerIntermediate;
use wg_config::normalize;
use wg_config::normalize_catalog;

fn raw_entry(station: &str, hostname: &str) -> ServerIntermediate {
    ServerIntermediate {
        id: 42,
        name: String::from("Seoul #123"),
        station: String::from(station),
        hostname: String::from(hostname),
        load: 17,
        status: String::from("online"),
        locations: vec![Location {
            country: Country {
                name: String::from("South Korea"),
                code: String::from("KR"),
                city: City { name: String::from("Seoul") },
            },
        }],
        technologies: vec![
            Technology {
                identifier: String::from("openvpn_udp"),
                metadata: vec![],
            },
            Technology {
                identifier: String::from("wireguard_udp"),
                metadata: vec![
                    Metadata {
                        name: String::from("comment"),
                        value: String::from("unrelated"),
                    },
                    Metadata {
                        name: String::from("public_key"),
                        value: String::from("abc123key="),
                    },
                ],
            },
        ],
        groups: vec![
            Group { identifier: String::from("standard") },
            Group { identifier: String::from("legacy_p2p") },
        ],
    }
}

#[test]
fn test_normalize_full_entry() {
    let server = normalize(&raw_entry("192.168.0.1", "kr123.nordvpn.com")).unwrap();
    assert_eq!(server.id, 42);
    assert_eq!(server.hostname, "kr123.nordvpn.com");
    assert_eq!(server.station.text(), "192.168.0.1");
    assert_eq!(server.load, 17);
    assert!(server.online);
    assert_eq!(server.country, "South Korea");
    assert_eq!(server.country_code, "KR");
    assert_eq!(server.city, "Seoul");
    assert_eq!(server.public_key, "abc123key=");
    assert!(server.supports_protocol);
    assert!(server.p2p);
    assert_eq!(server.identifier, "kr123");
}

#[test]
fn test_normalize_invalid_address() {
    assert_eq!(
        normalize(&raw_entry("not-an-ip", "kr123.nordvpn.com")).unwrap_err(),
        NormalizationError::InvalidAddress,
    );
    assert_eq!(
        normalize(&raw_entry("1.2.3", "kr123.nordvpn.com")).unwrap_err(),
        NormalizationError::InvalidAddress,
    );
    assert_eq!(
        normalize(&raw_entry("1.2.3.4.5", "kr123.nordvpn.com")).unwrap_err(),
        NormalizationError::InvalidAddress,
    );
    assert_eq!(
        normalize(&raw_entry("01.2.3.4", "kr123.nordvpn.com")).unwrap_err(),
        NormalizationError::InvalidAddress,
    );
    assert_eq!(
        normalize(&raw_entry("256.2.3.4", "kr123.nordvpn.com")).unwrap_err(),
        NormalizationError::InvalidAddress,
    );
    assert_eq!(
        normalize(&raw_entry("", "kr123.nordvpn.com")).unwrap_err(),
        NormalizationError::InvalidAddress,
    );
}

#[test]
fn test_normalize_empty_hostname() {
    assert_eq!(
        normalize(&raw_entry("10.0.0.1", "")).unwrap_err(),
        NormalizationError::MalformedHostname,
    );
}

#[test]
fn test_normalize_empty_locations() {
    let mut raw = raw_entry("10.0.0.1", "kr123.nordvpn.com");
    raw.locations = vec![];
    let server = normalize(&raw).unwrap();
    assert_eq!(server.country, "");
    assert_eq!(server.country_code, "");
    assert_eq!(server.city, "");
    assert_eq!(server.identifier, "kr123");
}

#[test]
fn test_normalize_without_protocol_entry() {
    let mut raw = raw_entry("10.0.0.1", "kr123.nordvpn.com");
    raw.technologies = vec![Technology {
        identifier: String::from("openvpn_udp"),
        metadata: vec![Metadata {
            name: String::from("public_key"),
            value: String::from("wrong-entry"),
        }],
    }];
    raw.groups = vec![Group { identifier: String::from("standard") }];
    let server = normalize(&raw).unwrap();
    assert!(!server.supports_protocol);
    assert_eq!(server.public_key, "");
    assert!(!server.p2p);
}

#[test]
fn test_normalize_load_clamped() {
    let mut raw = raw_entry("10.0.0.1", "kr123.nordvpn.com");
    raw.load = 7000;
    assert_eq!(normalize(&raw).unwrap().load, 100);
    raw.load = -3;
    assert_eq!(normalize(&raw).unwrap().load, 0);
}

#[test]
fn test_normalize_offline_status() {
    let mut raw = raw_entry("10.0.0.1", "kr123.nordvpn.com");
    raw.status = String::from("maintenance");
    assert!(!normalize(&raw).unwrap().online);
}

#[test]
fn test_normalize_hostname_without_dot() {
    let raw = raw_entry("10.0.0.1", "bare-host");
    assert_eq!(normalize(&raw).unwrap().identifier, "bare-host");
}

#[test]
fn test_normalize_catalog_drops_bad_entries() {
    let catalog = vec![
        raw_entry("10.0.0.1", "kr123.nordvpn.com"),
        raw_entry("bogus", "kr124.nordvpn.com"),
        raw_entry("10.0.0.3", "kr125.nordvpn.com"),
    ];
    let servers = normalize_catalog(&catalog);
    assert_eq!(servers.len(), 2);
    assert_eq!(servers[0].identifier, "kr123");
    assert_eq!(servers[1].identifier, "kr125");
}
