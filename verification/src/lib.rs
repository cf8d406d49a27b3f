//! Server selection and connection-profile synthesis for a VPN relay catalog.
//!
//! The pipeline has four stages, each a pure function: normalizing raw
//! directory records into canonical [`Server`] records, filtering and ranking
//! them against user criteria, rendering a plaintext connection profile for
//! one chosen record, and encoding that profile as a grayscale PNG barcode.

pub mod config;
pub mod filter;
pub mod flag;
pub mod ip;
pub mod mapper;
pub mod qr;
pub mod text;

pub use config::UserConfig;
pub use config::generate_config;
pub use filter::ServerFilterParam;
pub use filter::filter_servers;
pub use flag::get_flag_emoji;
pub use ip::Ipv4Address;
pub use mapper::NormalizationError;
pub use mapper::Server;
pub use mapper::ServerIntermediate;
pub use mapper::normalize;
pub use mapper::normalize_catalog;
pub use qr::EncodingError;
pub use qr::make_qrcode;
