//! TLS configuration.
use vstd::prelude::*;
use crate::text::string_of;

verus! {

/// TLS configuration for the HTTP client.
pub struct TlsConfig {
    /// Whether to verify server certificates.
    pub verify_certificates: bool,
    /// Whether to prefer HTTP/2 via ALPN.
    pub prefer_h2: bool,
    /// Custom User-Agent (emulation presets set their own).
    pub user_agent: String,
}

/// The default User-Agent.
pub open spec fn default_user_agent() -> Seq<char> {
    seq!['M', 'i', 'n', 'i', 'B', 'r', 'o', 'w', 's', 'e', 'r', '/', '0', '.', '1']
}

impl Default for TlsConfig {
    fn default() -> (r: Self)
        ensures
            r.verify_certificates,
            r.prefer_h2,
            r.user_agent@ == default_user_agent(),
    {
        let ua = string_of(&['M', 'i', 'n', 'i', 'B', 'r', 'o', 'w', 's', 'e', 'r', '/', '0', '.', '1']);
        assert(ua@ =~= default_user_agent());
        TlsConfig { verify_certificates: true, prefer_h2: true, user_agent: ua }
    }
}

} // verus!
