use vstd::prelude::*;

verus! {

/// Largest number of requests signed together in one batch.
pub const DEFAULT_BATCH_SIZE: u8 = 64;

/// Seconds between status reports.
pub const DEFAULT_STATUS_INTERVAL_SECS: u64 = 600;

/// How the long-term key's seed is protected.
#[derive(Debug)]
pub enum KmsProtection {
    /// The seed is held in the clear.
    Plaintext,
    /// The seed is a blob encrypted under the key with this identifier.
    KmsKeyId(String),
}

/// The settings a Roughtime server is built from, whatever supplied them.
#[derive(Debug)]
pub struct ServerConfig {
    /// Address to listen on.
    pub interface: String,
    /// UDP port to listen on.
    pub port: u16,
    /// Seed of the long-term key, or its encrypted blob.
    pub seed: Vec<u8>,
    /// Most requests signed together in one batch.
    pub batch_size: u8,
    /// Seconds between status reports.
    pub status_interval_secs: u64,
    /// How `seed` is protected.
    pub kms_protection: KmsProtection,
    /// TCP port of the health-check responder, if one is wanted.
    pub health_check_port: Option<u16>,
}

/// Whether `interface:port` reads as a socket address (an IP address and a port).
pub uninterp spec fn is_socket_addr(interface: Seq<char>, port: u16) -> bool;

/// Relies on the `FromStr` parse of `core::net::SocketAddr` (the type std
/// re-exports as `std::net::SocketAddr`): whether the text `interface:port`
/// is a socket address. The parse reads only the text.
#[verifier::external_body]
fn parses_as_socket_addr(interface: &str, port: u16) -> (r: bool)
    ensures
        r == is_socket_addr(interface@, port),
{
    format!("{}:{}", interface, port).parse::<core::net::SocketAddr>().is_ok()
}

/// The settings pass every check the server needs before it starts,
/// the last being that `interface:port` is a socket address.
pub open spec fn valid_config(cfg: ServerConfig) -> bool {
    &&& cfg.port != 0
    &&& cfg.interface@.len() > 0
    &&& cfg.seed@.len() > 0
    &&& (cfg.kms_protection is Plaintext ==> cfg.seed@.len() == 32)
    &&& (cfg.kms_protection is KmsKeyId ==> cfg.seed@.len() > 32)
    &&& 1 <= cfg.batch_size <= 64
    &&& is_socket_addr(cfg.interface@, cfg.port)
}

/// Whether `cfg` passes every check on its values.
pub fn is_valid_config(cfg: &ServerConfig) -> (r: bool)
    ensures
        r == valid_config(*cfg),
{
    let mut is_valid = true;
    if cfg.port == 0 {
        is_valid = false;
    }
    if cfg.interface.as_str().is_empty() {
        is_valid = false;
    }
    if cfg.seed.len() == 0 {
        is_valid = false;
    }
    match &cfg.kms_protection {
        KmsProtection::Plaintext => {
            if cfg.seed.len() != 32 {
                is_valid = false;
            }
        },
        KmsProtection::KmsKeyId(_) => {
            if cfg.seed.len() <= 32 {
                is_valid = false;
            }
        },
    }
    if cfg.batch_size < 1 || cfg.batch_size > 64 {
        is_valid = false;
    }
    if is_valid && !parses_as_socket_addr(cfg.interface.as_str(), cfg.port) {
        is_valid = false;
    }
    is_valid
}

} // verus!
