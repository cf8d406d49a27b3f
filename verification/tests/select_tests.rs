//! Filtering and stable ranking of canonical records.

use wg_config::Ipv4Address;
use wg_config::Server;
use wg_config::ServerFilterParam;
use wg_config::filter_servers;

fn server(id: i64, city: &str, code: &str, load: u8) -> Server {
    Server {
        id,
        hostname: format!("{}{}.nordvpn.com", code.to_lowercase(), id),
        station: Ipv4Address { o0: 10, o1: 8, o2: 0, o3: 1 },
        load,
        online: true,
        country: String::from("Somewhere"),
        country_code: String::from(code),
        city: String::from(city),
        public_key: String::from("key="),
        supports_protocol: true,
        p2p: true,
        identifier: format!("{}{}", code.to_lowercase(), id),
    }
}

#[test]
fn test_filter_drops_non_candidates() {
    let mut offline = server(1, "Seoul", "KR", 10);
    offline.online = false;
    let mut no_proto = server(2, "Seoul", "KR", 11);
    no_proto.supports_protocol = false;
    let mut not_p2p = server(3, "Seoul", "KR", 12);
    not_p2p.p2p = false;
    let good = server(4, "Seoul", "KR", 13);
    let catalog = vec![offline, no_proto, not_p2p, good];
    let params = ServerFilterParam { query: String::new(), p2p: true };
    let picked = filter_servers(&params, &catalog);
    assert_eq!(picked.len(), 1);
    assert_eq!(picked[0].id, 4);
}

#[test]
fn test_filter_query_case_insensitive() {
    let catalog = vec![
        server(1, "Seoul", "KR", 10),
        server(2, "Tokyo", "JP", 5),
        server(3, "Berlin", "DE", 7),
    ];
    let params = ServerFilterParam { query: String::from("SEO"), p2p: true };
    let picked = filter_servers(&params, &catalog);
    assert_eq!(picked.len(), 1);
    assert_eq!(picked[0].city, "Seoul");

    // a hit on the country code field alone
    let params = ServerFilterParam { query: String::from("jp"), p2p: true };
    let picked = filter_servers(&params, &catalog);
    assert_eq!(picked.len(), 1);
    assert_eq!(picked[0].city, "Tokyo");
}

#[test]
fn test_filter_empty_query_matches_all() {
    let catalog = vec![server(1, "Seoul", "KR", 10), server(2, "Tokyo", "JP", 5)];
    let params = ServerFilterParam { query: String::new(), p2p: true };
    assert_eq!(filter_servers(&params, &catalog).len(), 2);
}

#[test]
fn test_filter_p2p_flag_must_match() {
    let mut plain = server(1, "Seoul", "KR", 10);
    plain.p2p = false;
    let catalog = vec![plain, server(2, "Tokyo", "JP", 5)];
    let params = ServerFilterParam { query: String::new(), p2p: false };
    let picked = filter_servers(&params, &catalog);
    assert_eq!(picked.len(), 1);
    assert_eq!(picked[0].id, 1);
}

#[test]
fn test_filter_no_match_yields_empty() {
    let mut a = server(1, "Seoul", "KR", 10);
    a.p2p = false;
    let mut b = server(2, "Tokyo", "JP", 5);
    b.p2p = false;
    let catalog = vec![a, b];
    let params = ServerFilterParam { query: String::new(), p2p: true };
    assert!(filter_servers(&params, &catalog).is_empty());
}

#[test]
fn test_rank_sorted_by_load() {
    let catalog = vec![
        server(1, "Seoul", "KR", 62),
        server(2, "Tokyo", "JP", 4),
        server(3, "Berlin", "DE", 31),
    ];
    let params = ServerFilterParam { query: String::new(), p2p: true };
    let picked = filter_servers(&params, &catalog);
    let loads: Vec<u8> = picked.iter().map(|s| s.load).collect();
    assert_eq!(loads, vec![4, 31, 62]);
}

#[test]
fn test_rank_stable_on_equal_loads() {
    let catalog = vec![
        server(1, "Seoul", "KR", 30),
        server(2, "Tokyo", "JP", 10),
        server(3, "Berlin", "DE", 30),
        server(4, "Sydney", "AU", 10),
    ];
    let params = ServerFilterParam { query: String::new(), p2p: true };
    let picked = filter_servers(&params, &catalog);
    let ids: Vec<i64> = picked.iter().map(|s| s.id).collect();
    assert_eq!(ids, vec![2, 4, 1, 3]);
}
