//! Server configuration: defaults, authentication and TLS settings, and
//! command-line overrides.

use vstd::prelude::*;

use crate::text::{decimal, decimal_chars, push_chars, push_str_chars, string_of, str_eq};

verus! {

/// `none`: the authentication type that turns authentication off.
pub open spec fn none_text() -> Seq<char> {
    seq!['n', 'o', 'n', 'e']
}

/// Authentication settings.
#[derive(Debug)]
pub struct AuthConfig {
    pub auth_type: String,
    pub token: Option<String>,
    pub users: Vec<UserConfig>,
}

/// A user for username and password authentication.
#[derive(Debug)]
pub struct UserConfig {
    pub username: String,
    pub password: String,
    pub permissions: PermissionsConfig,
}

/// Subject patterns a user may publish to and subscribe to.
#[derive(Debug)]
pub struct PermissionsConfig {
    pub publish: Vec<String>,
    pub subscribe: Vec<String>,
}

/// TLS certificate and key files.
#[derive(Debug)]
pub struct TlsConfig {
    pub cert_file: Option<String>,
    pub key_file: Option<String>,
}

impl Default for AuthConfig {
    /// Authentication off.
    fn default() -> (r: Self)
        ensures
            r.auth_type@ == none_text(),
            r.token is None,
            r.users@.len() == 0,
    {
        let auth_type = "none".to_owned();
        proof {
            reveal_strlit("none");
            assert(auth_type@ =~= none_text());
        }
        AuthConfig { auth_type, token: None, users: Vec::new() }
    }
}

impl AuthConfig {
    /// Whether authentication is on: its type is anything but `none`.
    pub fn is_enabled(&self) -> (r: bool)
        ensures
            r == (self.auth_type@ != none_text()),
    {
        let off = str_eq(self.auth_type.as_str(), "none");
        proof {
            reveal_strlit("none");
            assert("none"@ =~= none_text());
        }
        !off
    }
}

impl Default for PermissionsConfig {
    /// No patterns.
    fn default() -> (r: Self)
        ensures
            r.publish@.len() == 0,
            r.subscribe@.len() == 0,
    {
        PermissionsConfig { publish: Vec::new(), subscribe: Vec::new() }
    }
}

impl Default for TlsConfig {
    /// No files.
    fn default() -> (r: Self)
        ensures
            r.cert_file is None,
            r.key_file is None,
    {
        TlsConfig { cert_file: None, key_file: None }
    }
}

impl TlsConfig {
    /// Whether TLS is on: both files are given.
    pub fn is_enabled(&self) -> (r: bool)
        ensures
            r == (self.cert_file is Some && self.key_file is Some),
    {
        self.cert_file.is_some() && self.key_file.is_some()
    }
}

/// The server's settings.
#[derive(Debug)]
pub struct ServerConfig {
    pub host: String,
    pub port: u16,
    pub max_connections: usize,
    pub max_payload_bytes: usize,
    pub connection_output_buffer: usize,
    pub max_frame_size: usize,
    pub worker_threads: usize,
    pub log_level: String,
    pub heartbeat_interval_secs: u64,
    pub heartbeat_timeout_secs: u64,
    pub admin_port: u16,
    pub drain_timeout_secs: u64,
    pub max_subscriptions_per_connection: usize,
    pub auth: AuthConfig,
    pub tls: TlsConfig,
}

/// `127.0.0.1`.
pub open spec fn default_host_text() -> Seq<char> {
    seq!['1', '2', '7', '.', '0', '.', '0', '.', '1']
}

/// `info`.
pub open spec fn default_log_level_text() -> Seq<char> {
    seq!['i', 'n', 'f', 'o']
}

impl Default for ServerConfig {
    /// Listen on 127.0.0.1:4222 with admin on 8222; 10000 connections, 1 MiB
    /// payloads, 64 KiB output buffers, 2 MiB frames, automatic worker
    /// threads, log level `info`, heartbeats every 30 s with a 60 s timeout,
    /// a 5 s drain, 1024 subscriptions per connection, no authentication
    /// and no TLS.
    fn default() -> (r: Self)
        ensures
            r.host@ == default_host_text(),
            r.port == 4222,
            r.max_connections == 10000,
            r.max_payload_bytes == 1048576,
            r.connection_output_buffer == 65536,
            r.max_frame_size == 2097152,
            r.worker_threads == 0,
            r.log_level@ == default_log_level_text(),
            r.heartbeat_interval_secs == 30,
            r.heartbeat_timeout_secs == 60,
            r.admin_port == 8222,
            r.drain_timeout_secs == 5,
            r.max_subscriptions_per_connection == 1024,
            r.auth.auth_type@ == none_text(),
            r.auth.token is None,
            r.auth.users@.len() == 0,
            r.tls.cert_file is None,
            r.tls.key_file is None,
    {
        let host = "127.0.0.1".to_owned();
        let log_level = "info".to_owned();
        proof {
            reveal_strlit("127.0.0.1");
            reveal_strlit("info");
            assert(host@ =~= default_host_text());
            assert(log_level@ =~= default_log_level_text());
        }
        ServerConfig {
            host,
            port: 4222,
            max_connections: 10000,
            max_payload_bytes: 1048576,
            connection_output_buffer: 65536,
            max_frame_size: 2097152,
            worker_threads: 0,
            log_level,
            heartbeat_interval_secs: 30,
            heartbeat_timeout_secs: 60,
            admin_port: 8222,
            drain_timeout_secs: 5,
            max_subscriptions_per_connection: 1024,
            auth: AuthConfig::default(),
            tls: TlsConfig::default(),
        }
    }
}

impl ServerConfig {
    /// The listen address: host, a colon, and the port.
    pub fn addr(&self) -> (r: String)
        ensures
            r@ == self.host@ + seq![':'] + decimal(self.port as nat),
    {
        let mut out: Vec<char> = Vec::new();
        push_str_chars(&mut out, self.host.as_str());
        out.push(':');
        let d = decimal_chars(self.port as u64);
        push_chars(&mut out, d.as_slice());
        string_of(out.as_slice())
    }
}

/// Settings given on the command line.
#[derive(Debug)]
pub struct Cli {
    pub config_file: Option<String>,
    pub host: Option<String>,
    pub port: Option<u16>,
    pub log_level: Option<String>,
    pub worker_threads: Option<usize>,
}

impl Cli {
    /// The configuration with the command-line settings that were given
    /// put over it.
    pub fn apply_overrides(self, config: ServerConfig) -> (r: ServerConfig)
        ensures
            r.host == (match self.host {
                Some(h) => h,
                None => config.host,
            }),
            r.port == (match self.port {
                Some(p) => p,
                None => config.port,
            }),
            r.log_level == (match self.log_level {
                Some(l) => l,
                None => config.log_level,
            }),
            r.worker_threads == (match self.worker_threads {
                Some(w) => w,
                None => config.worker_threads,
            }),
            r.max_connections == config.max_connections,
            r.max_payload_bytes == config.max_payload_bytes,
            r.connection_output_buffer == config.connection_output_buffer,
            r.max_frame_size == config.max_frame_size,
            r.heartbeat_interval_secs == config.heartbeat_interval_secs,
            r.heartbeat_timeout_secs == config.heartbeat_timeout_secs,
            r.admin_port == config.admin_port,
            r.drain_timeout_secs == config.drain_timeout_secs,
            r.max_subscriptions_per_connection == config.max_subscriptions_per_connection,
            r.auth == config.auth,
            r.tls == config.tls,
    {
        let mut config = config;
        match self.host {
            Some(h) => {
                config.host = h;
            },
            None => {},
        }
        match self.port {
            Some(p) => {
                config.port = p;
            },
            None => {},
        }
        match self.log_level {
            Some(l) => {
                config.log_level = l;
            },
            None => {},
        }
        match self.worker_threads {
            Some(w) => {
                config.worker_threads = w;
            },
            None => {},
        }
        config
    }
}

} // verus!
