//! Document synthesis, the flag helper, and the end-to-end pipeline.

use wg_config::Ipv4Address;
use wg_config::Server;
use wg_config::ServerFilterParam;
use wg_config::UserConfig;
use wg_config::filter_servers;
use wg_config::generate_config;
use wg_config::get_flag_emoji;
use wg_config::make_qrcode;

fn sample_server(city: &str, load: u8) -> Server {
    Server {
        id: 9,
        hostname: String::from("kr123.nordvpn.com"),
        station: Ipv4Address { o0: 10, o1: 8, o2: 0, o3: 1 },
        load,
        online: true,
        country: String::from("South Korea"),
        country_code: String::from("KR"),
        city: String::from(city),
        public_key: String::from("SERVERPUBKEY="),
        supports_protocol: true,
        p2p: true,
        identifier: String::from("kr123"),
    }
}

fn sample_prefs() -> UserConfig {
    UserConfig {
        private_key: String::from("USERPRIVKEY="),
        dns: String::from("103.86.96.100"),
        mtu: String::from("1420"),
    }
}

#[test]
fn test_generate_config_exact_text() {
    let doc = generate_config(&sample_prefs(), &sample_server("Seoul", 10));
    let expected = "# Configuration for kr123.nordvpn.com (10.8.0.1) - Seoul, South Korea\n\
                    [Interface]\n\
                    Address = 10.5.0.2/32\n\
                    PrivateKey = USERPRIVKEY=\n\
                    DNS = 103.86.96.100\n\
                    MTU = 1420\n\
                    \n\
                    [Peer]\n\
                    PublicKey = SERVERPUBKEY=\n\
                    AllowedIPs = 0.0.0.0/0, ::/0\n\
                    Endpoint = kr123.nordvpn.com:51820";
    assert_eq!(doc, expected);
}

#[test]
fn test_generate_config_deterministic_with_sections_in_order() {
    let prefs = sample_prefs();
    let server = sample_server("Seoul", 10);
    let first = generate_config(&prefs, &server);
    let second = generate_config(&prefs, &server);
    assert_eq!(first.as_bytes(), second.as_bytes());
    assert_eq!(first.matches("[Interface]").count(), 1);
    assert_eq!(first.matches("[Peer]").count(), 1);
    let interface_at = first.find("[Interface]").unwrap();
    let peer_at = first.find("[Peer]").unwrap();
    assert!(interface_at < peer_at);
}

#[test]
fn test_end_to_end_selection_and_synthesis() {
    let catalog = vec![sample_server("Seoul", 10), sample_server("Tokyo", 5)];
    let params = ServerFilterParam { query: String::new(), p2p: true };
    let picked = filter_servers(&params, &catalog);
    assert_eq!(picked.len(), 2);
    assert_eq!(picked[0].city, "Tokyo");
    assert_eq!(picked[0].load, 5);
    assert_eq!(picked[1].city, "Seoul");
    assert_eq!(picked[1].load, 10);

    let doc = generate_config(&sample_prefs(), &picked[0]);
    let endpoint_line = doc.lines().last().unwrap();
    assert!(endpoint_line.starts_with("Endpoint = "));
    assert!(endpoint_line.ends_with(":51820"));
    assert!(make_qrcode(&doc).is_ok());
}

#[test]
fn test_get_flag_emoji() {
    assert_eq!(get_flag_emoji("KR"), Some(String::from("\u{1F1F0}\u{1F1F7}")));
    assert_eq!(get_flag_emoji("US"), Some(String::from("\u{1F1FA}\u{1F1F8}")));
    assert_eq!(get_flag_emoji("JP"), Some(String::from("\u{1F1EF}\u{1F1F5}")));
    assert_eq!(get_flag_emoji("DE"), Some(String::from("\u{1F1E9}\u{1F1EA}")));
    assert_eq!(get_flag_emoji("AU"), Some(String::from("\u{1F1E6}\u{1F1FA}")));
}

#[test]
fn test_get_flag_emoji_raises_case() {
    assert_eq!(get_flag_emoji("kr"), Some(String::from("\u{1F1F0}\u{1F1F7}")));
}
