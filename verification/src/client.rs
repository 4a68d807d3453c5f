//! HTTP client configuration.
use vstd::prelude::*;
use std::time::Duration;
use crate::tls::{TlsConfig, default_user_agent};
use crate::text::{chars_of, starts_with};

verus! {

/// Proxy configuration.
pub enum ProxyConfig {
    /// No proxy.
    Direct,
    /// HTTP proxy at the given URL (e.g. `http://127.0.0.1:7890`).
    Http(String),
    /// SOCKS5 proxy at the given URL (e.g. `socks5://127.0.0.1:1080`).
    Socks5(String),
}

/// The proxy kind a proxy URL selects: SOCKS5 for `socks5://` and `socks5h://`,
/// HTTP otherwise.
pub open spec fn is_socks5_url(url: Seq<char>) -> bool {
    seq!['s', 'o', 'c', 'k', 's', '5', ':', '/', '/'].is_prefix_of(url) || seq![
        's',
        'o',
        'c',
        'k',
        's',
        '5',
        'h',
        ':',
        '/',
        '/',
    ].is_prefix_of(url)
}

impl ProxyConfig {
    /// The proxy configuration for a proxy URL.
    pub fn from_url(url: &str) -> (r: ProxyConfig)
        ensures
            is_socks5_url(url@) ==> (r matches ProxyConfig::Socks5(u) && u@ == url@),
            !is_socks5_url(url@) ==> (r matches ProxyConfig::Http(u) && u@ == url@),
    {
        let cs = chars_of(url);
        let a = ['s', 'o', 'c', 'k', 's', '5', ':', '/', '/'];
        let b = ['s', 'o', 'c', 'k', 's', '5', 'h', ':', '/', '/'];
        assert(a@ =~= seq!['s', 'o', 'c', 'k', 's', '5', ':', '/', '/']);
        assert(b@ =~= seq!['s', 'o', 'c', 'k', 's', '5', 'h', ':', '/', '/']);
        if starts_with(&cs, &a) || starts_with(&cs, &b) {
            ProxyConfig::Socks5(url.to_owned())
        } else {
            ProxyConfig::Http(url.to_owned())
        }
    }
}

/// TLS fingerprint emulation preset.
#[derive(Debug, Clone, Copy, PartialEq, Eq, Structural)]
pub enum EmulationPreset {
    Chrome136,
    Chrome120,
    Firefox136,
    Safari18,
}

impl Default for EmulationPreset {
    fn default() -> (r: Self)
        ensures
            r == EmulationPreset::Chrome136,
    {
        EmulationPreset::Chrome136
    }
}

/// `Duration::from_secs`; the result is named by [`secs_duration`].
#[verifier::external_body]
fn duration_from_secs(secs: u64) -> (r: Duration)
    ensures
        r == secs_duration(secs),
{
    Duration::from_secs(secs)
}

/// The duration of `secs` whole seconds.
pub uninterp spec fn secs_duration(secs: u64) -> Duration;

/// Configuration for the HTTP client.
pub struct ClientConfig {
    /// Connection timeout.
    pub connect_timeout: Duration,
    /// Total request timeout.
    pub request_timeout: Duration,
    /// Maximum idle connections per host.
    pub pool_max_idle_per_host: usize,
    /// Idle connection timeout.
    pub pool_idle_timeout: Duration,
    /// TLS configuration.
    pub tls: TlsConfig,
    /// Proxy configuration.
    pub proxy: ProxyConfig,
    /// Whether to support HTTP/2.
    pub http2: bool,
    /// TLS fingerprint emulation preset.
    pub emulation: EmulationPreset,
}

/// The default configuration: 10 s to connect, 30 s per request, 32 idle
/// connections per host kept 90 s, default TLS, no proxy, HTTP/2, Chrome 136.
pub open spec fn is_default_config(c: ClientConfig) -> bool {
    &&& c.connect_timeout == secs_duration(10)
    &&& c.request_timeout == secs_duration(30)
    &&& c.pool_max_idle_per_host == 32
    &&& c.pool_idle_timeout == secs_duration(90)
    &&& c.tls.verify_certificates
    &&& c.tls.prefer_h2
    &&& c.tls.user_agent@ == default_user_agent()
    &&& c.proxy is Direct
    &&& c.http2
    &&& c.emulation == EmulationPreset::Chrome136
}

impl Default for ClientConfig {
    fn default() -> (r: Self)
        ensures
            is_default_config(r),
    {
        ClientConfig {
            connect_timeout: duration_from_secs(10),
            request_timeout: duration_from_secs(30),
            pool_max_idle_per_host: 32,
            pool_idle_timeout: duration_from_secs(90),
            tls: TlsConfig::default(),
            proxy: ProxyConfig::Direct,
            http2: true,
            emulation: EmulationPreset::default(),
        }
    }
}

/// Builder for [`ClientConfig`].
pub struct ClientConfigBuilder {
    config: ClientConfig,
}

impl ClientConfigBuilder {
    /// The configuration built so far.
    pub closed spec fn config_v(&self) -> ClientConfig {
        self.config
    }

    pub fn new() -> (r: Self)
        ensures
            is_default_config(r.config_v()),
    {
        ClientConfigBuilder { config: ClientConfig::default() }
    }

    pub fn connect_timeout(self, timeout: Duration) -> (r: Self)
        ensures
            r.config_v() == (ClientConfig { connect_timeout: timeout, ..self.config_v() }),
    {
        let mut s = self;
        s.config.connect_timeout = timeout;
        s
    }

    pub fn request_timeout(self, timeout: Duration) -> (r: Self)
        ensures
            r.config_v() == (ClientConfig { request_timeout: timeout, ..self.config_v() }),
    {
        let mut s = self;
        s.config.request_timeout = timeout;
        s
    }

    pub fn pool_max_idle_per_host(self, max: usize) -> (r: Self)
        ensures
            r.config_v() == (ClientConfig { pool_max_idle_per_host: max, ..self.config_v() }),
    {
        let mut s = self;
        s.config.pool_max_idle_per_host = max;
        s
    }

    pub fn pool_idle_timeout(self, timeout: Duration) -> (r: Self)
        ensures
            r.config_v() == (ClientConfig { pool_idle_timeout: timeout, ..self.config_v() }),
    {
        let mut s = self;
        s.config.pool_idle_timeout = timeout;
        s
    }

    pub fn tls(self, tls: TlsConfig) -> (r: Self)
        ensures
            r.config_v() == (ClientConfig { tls: tls, ..self.config_v() }),
    {
        let mut s = self;
        s.config.tls = tls;
        s
    }

    pub fn proxy(self, proxy: ProxyConfig) -> (r: Self)
        ensures
            r.config_v() == (ClientConfig { proxy: proxy, ..self.config_v() }),
    {
        let mut s = self;
        s.config.proxy = proxy;
        s
    }

    pub fn http2(self, enable: bool) -> (r: Self)
        ensures
            r.config_v() == (ClientConfig { http2: enable, ..self.config_v() }),
    {
        let mut s = self;
        s.config.http2 = enable;
        s
    }

    pub fn emulation(self, preset: EmulationPreset) -> (r: Self)
        ensures
            r.config_v() == (ClientConfig { emulation: preset, ..self.config_v() }),
    {
        let mut s = self;
        s.config.emulation = preset;
        s
    }

    pub fn build(self) -> (r: ClientConfig)
        ensures
            r == self.config_v(),
    {
        self.config
    }
}

impl Default for ClientConfigBuilder {
    fn default() -> (r: Self)
        ensures
            is_default_config(r.config_v()),
    {
        ClientConfigBuilder::new()
    }
}

} // verus!
