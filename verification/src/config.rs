//! Configuration.
//!
//! Validated once and passed down as a typed struct; nothing reads configuration again at
//! runtime, and there are no globals.
use crate::clock::{milliseconds, seconds};
use crate::conn::{Credentials, SecurityMode, ServerEndpoint, SubscriptionParams};
use crate::mqtt;
use crate::proxy;
use crate::text::{
    self, ascii_lowercase, is_blank, same_ignoring_case, starts_with, trimmed,
};
use crate::topic::{self, sanitized};
use std::time::Duration;
use vstd::prelude::*;

verus! {

/// Prefix of the environment variables that set the configuration.
pub const ENV_PREFIX: &'static str = "OPCUA_GW__";

/// Subdirectory of [`MappingsConfig::dir`] holding one TOML file per OPC UA server.
pub const SERVERS_SUBDIR: &'static str = "servers";

#[derive(Debug)]
pub struct Config {
    pub runtime: RuntimeConfig,
    pub mqtt: MqttConfig,
    pub proxy: ProxyConfig,
    pub subscription: SubscriptionConfig,
    pub mappings: MappingsConfig,
    pub gateway: GatewayConfig,
    pub servers: Vec<ServerConfig>,
}

/// The Cumulocity gateway device.
///
/// With this enabled the gateway registers one more child device of the thin-edge main
/// device, typed `c8y_OPCUA_Device_Agent`, and parents every OPC UA server below it. That is
/// the shape the existing OPC UA user interface recognises, so servers can be created there
/// and the gateway picks them up — a third server source alongside inline `[[servers]]` and
/// pushed server files.
///
/// It changes nothing about the data path: telemetry still goes out on `te/` topics.
#[derive(Debug)]
pub struct GatewayConfig {
    /// Disable to run purely thin-edge-native: no gateway device, servers registered directly
    /// below the main device, and no Cumulocity server objects. Required behind a
    /// non-Cumulocity bridge.
    pub enabled: bool,
    /// Topic-id segment of the gateway child device, and half of its external id. Stable
    /// across restarts by definition — it decides the gateway's identity in the cloud.
    pub id: String,
    /// Display name, which becomes the managed object name.
    pub name: String,
    /// thin-edge device id, the other half of every external id this gateway derives. Empty
    /// means read it from `tedge config get device.id`.
    pub device_id: String,
    /// How often the gateway's own child devices are read back to find servers created in the
    /// user interface.
    pub server_poll_interval_secs: u64,
    /// Reported as `c8y_SupportedOperations` on the gateway device. The user interface uses
    /// this to decide the device is an OPC UA gateway. Operations that arrive and are not
    /// implemented are failed with a reason rather than left pending.
    pub supported_operations: Vec<String>,
}

#[derive(Debug)]
pub struct RuntimeConfig {
    /// Worker threads. Low by default: this workload is I/O bound and runs on edge hardware.
    pub worker_threads: usize,
    /// How long to wait for an OPC UA session to activate.
    pub connect_timeout_secs: u64,
    /// Backoff cap for reconnect attempts and for device-type retries.
    pub max_backoff_secs: u64,
}

#[derive(Debug)]
pub struct MqttConfig {
    pub host: String,
    pub port: u16,
    pub client_id: String,
    /// Service name of the gateway on the thin-edge main device.
    pub service_name: String,
    pub capacity: usize,
    pub keep_alive_secs: u64,
}

#[derive(Debug)]
pub struct ProxyConfig {
    /// The pull mapping source. Disable it to run purely on pushed mapping files.
    pub enabled: bool,
    pub base_url: String,
    /// Device-type poll interval.
    pub poll_interval_secs: u64,
    pub timeout_secs: u64,
    /// Restrict the fetch to these managed object ids. Empty means every
    /// `c8y_OpcuaDeviceType`.
    pub device_type_ids: Vec<String>,
    /// Paths of the mTLS material, for a thin-edge deployment whose local endpoints require a
    /// client certificate (`tedge config get c8y.proxy.cert_path` and friends).
    pub client_cert: Option<String>,
    pub client_key: Option<String>,
    pub ca_cert: Option<String>,
}

#[derive(Debug)]
pub struct SubscriptionConfig {
    /// Publishing interval of the server's subscription.
    pub publishing_interval_ms: u64,
    pub lifetime_count: u32,
    pub max_keep_alive_count: u32,
    pub max_notifications_per_publish: u32,
    pub priority: u8,
    /// Monitored item queue size when a device type does not specify one.
    pub default_queue_size: u32,
    /// Bound on undelivered notifications. On overflow they are dropped with a rate-limited
    /// warning; there is no unbounded queue and no offline buffer anywhere in this gateway.
    pub channel_capacity: usize,
    /// Batched measurements are flushed at least this often.
    pub flush_interval_ms: u64,
    /// …and immediately once this many series are waiting.
    pub flush_max_series: usize,
}

#[derive(Debug)]
pub struct MappingsConfig {
    /// The pushed-configuration directory thin-edge configuration management writes into, and
    /// which this gateway only ever reads. Mapping files sit at its root; server definitions
    /// sit in the `servers/` subdirectory (see [`SERVERS_SUBDIR`]).
    pub dir: String,
}

#[derive(Debug, PartialEq, Eq)]
pub struct ServerConfig {
    /// Free-form local identifier for this server.
    ///
    /// This is *not* a Cumulocity managed object id: servers are configured on the device and
    /// need no `c8y_OpcuaServer` object. It is what `applyConstraints.matchesServerIds` is
    /// compared against, and it appears in every log line for this server.
    pub id: String,
    /// thin-edge child device topic id and display name for this server.
    pub name: String,
    pub url: String,
    pub security_policy: String,
    pub user: Option<String>,
    pub password: Option<String>,
    /// Device type ids allowed on this server; empty accepts every applicable device type.
    ///
    /// This is how a device type is scoped to a server: `matchesServerIds` cannot name a local
    /// server id, so the decision is made here, next to the server definition.
    pub device_types: Vec<String>,
    /// External id to register this server's entity under, set only for a server adopted from
    /// a `c8y_OpcuaServer` managed object. `None` lets thin-edge derive it from the topic path,
    /// which is what a device-configured server wants.
    ///
    /// Not configurable: it is derived from the managed object, and inventing one by hand would
    /// point telemetry at the wrong object.
    pub external_id: Option<String>,
    /// Topic-id segment override, again only for an adopted server, where the managed object id
    /// is the stable identity and the name is not.
    pub topic_id: Option<String>,
}

// Defaults ---------------------------------------------------------------------------

impl Default for RuntimeConfig {
    fn default() -> (r: Self)
        ensures
            r.worker_threads == 2,
            r.connect_timeout_secs == 30,
            r.max_backoff_secs == 60,
    {
        RuntimeConfig { worker_threads: 2, connect_timeout_secs: 30, max_backoff_secs: 60 }
    }
}

impl Default for MqttConfig {
    fn default() -> (r: Self)
        ensures
            r.host@ == "127.0.0.1"@,
            r.port == 1883,
            r.client_id@ == "c8y-opcua-gateway"@,
            r.service_name@ == "opcua-gateway"@,
            r.capacity == 1024,
            r.keep_alive_secs == 60,
    {
        MqttConfig {
            host: "127.0.0.1".to_owned(),
            port: 1883,
            client_id: "c8y-opcua-gateway".to_owned(),
            service_name: "opcua-gateway".to_owned(),
            capacity: 1024,
            keep_alive_secs: 60,
        }
    }
}

impl Default for ProxyConfig {
    fn default() -> (r: Self)
        ensures
            r.enabled,
            r.base_url@ == "http://127.0.0.1:8001/c8y"@,
            r.poll_interval_secs == 60,
            r.timeout_secs == 30,
            r.device_type_ids@.len() == 0,
            r.client_cert is None,
            r.client_key is None,
            r.ca_cert is None,
    {
        ProxyConfig {
            enabled: true,
            base_url: proxy::DEFAULT_BASE_URL.to_owned(),
            poll_interval_secs: 60,
            timeout_secs: 30,
            device_type_ids: Vec::new(),
            client_cert: None,
            client_key: None,
            ca_cert: None,
        }
    }
}

impl Default for SubscriptionConfig {
    fn default() -> (r: Self)
        ensures
            r.publishing_interval_ms == 100,
            r.lifetime_count == 600,
            r.max_keep_alive_count == 200,
            r.max_notifications_per_publish == 500,
            r.priority == 0,
            r.default_queue_size == 10,
            r.channel_capacity == 4096,
            r.flush_interval_ms == 1_000,
            r.flush_max_series == 200,
    {
        SubscriptionConfig {
            publishing_interval_ms: 100,
            lifetime_count: 600,
            max_keep_alive_count: 200,
            max_notifications_per_publish: 500,
            priority: 0,
            default_queue_size: 10,
            channel_capacity: 4096,
            flush_interval_ms: 1_000,
            flush_max_series: 200,
        }
    }
}

impl Default for MappingsConfig {
    fn default() -> (r: Self)
        ensures
            r.dir@ == "/etc/tedge/opcua"@,
    {
        MappingsConfig { dir: "/etc/tedge/opcua".to_owned() }
    }
}

impl Default for GatewayConfig {
    fn default() -> (r: Self)
        ensures
            r.enabled,
            r.id@ == "opcua-gateway"@,
            r.name@ == "OPC UA Gateway"@,
            r.device_id@.len() == 0,
            r.server_poll_interval_secs == 60,
            r.supported_operations.deep_view() == seq!["c8y_OpcuaConfiguration"@],
    {
        let mut supported_operations: Vec<String> = Vec::new();
        supported_operations.push("c8y_OpcuaConfiguration".to_owned());
        proof {
            assert(supported_operations.deep_view() =~= seq!["c8y_OpcuaConfiguration"@]);
        }
        GatewayConfig {
            enabled: true,
            id: "opcua-gateway".to_owned(),
            name: "OPC UA Gateway".to_owned(),
            device_id: String::new(),
            server_poll_interval_secs: 60,
            supported_operations,
        }
    }
}

impl Default for Config {
    fn default() -> (r: Self)
        ensures
            call_ensures(RuntimeConfig::default, (), r.runtime),
            call_ensures(MqttConfig::default, (), r.mqtt),
            call_ensures(ProxyConfig::default, (), r.proxy),
            call_ensures(SubscriptionConfig::default, (), r.subscription),
            call_ensures(MappingsConfig::default, (), r.mappings),
            call_ensures(GatewayConfig::default, (), r.gateway),
            r.servers@.len() == 0,
    {
        Config {
            runtime: RuntimeConfig::default(),
            mqtt: MqttConfig::default(),
            proxy: ProxyConfig::default(),
            subscription: SubscriptionConfig::default(),
            mappings: MappingsConfig::default(),
            gateway: GatewayConfig::default(),
            servers: Vec::new(),
        }
    }
}

// The gateway device -----------------------------------------------------------------

/// External id of the gateway device.
pub open spec fn gateway_external_id(gateway: GatewayConfig) -> Seq<char> {
    gateway.device_id@ + ":device:"@ + gateway.id@
}

/// External id of a server object below the gateway device.
pub open spec fn adopted_external_id(gateway: GatewayConfig, mo_id: Seq<char>) -> Seq<char> {
    gateway_external_id(gateway) + ":device:"@ + mo_id
}

impl GatewayConfig {
    /// External id of the gateway device, in thin-edge's own `<device>:device:<child>` shape.
    pub fn external_id(&self) -> (r: String)
        ensures
            r@ == gateway_external_id(*self),
    {
        let mut out: String = text::concat(self.device_id.as_str(), ":device:");
        out.append(self.id.as_str());
        out
    }

    /// External id for a `c8y_OpcuaServer` managed object adopted below this gateway.
    ///
    /// Keyed by managed object id, not by name: the object is the identity, and a name can be
    /// edited in the user interface at any time.
    pub fn server_external_id(&self, mo_id: &str) -> (r: String)
        ensures
            r@ == adopted_external_id(*self, mo_id@),
    {
        let mut out: String = self.external_id();
        out.append(":device:");
        out.append(mo_id);
        out
    }
}

// Servers ----------------------------------------------------------------------------

pub struct ServerView {
    pub id: Seq<char>,
    pub name: Seq<char>,
    pub url: Seq<char>,
    pub security_policy: Seq<char>,
    pub user: Option<Seq<char>>,
    pub password: Option<Seq<char>>,
    pub device_types: Seq<Seq<char>>,
    pub external_id: Option<Seq<char>>,
    pub topic_id: Option<Seq<char>>,
}

impl DeepView for ServerConfig {
    type V = ServerView;

    open spec fn deep_view(&self) -> ServerView {
        ServerView {
            id: self.id@,
            name: self.name@,
            url: self.url@,
            security_policy: self.security_policy@,
            user: self.user.deep_view(),
            password: self.password.deep_view(),
            device_types: self.device_types.deep_view(),
            external_id: self.external_id.deep_view(),
            topic_id: self.topic_id.deep_view(),
        }
    }
}

impl Clone for ServerConfig {
    fn clone(&self) -> (r: Self)
        ensures
            r.deep_view() == self.deep_view(),
    {
        ServerConfig {
            id: self.id.clone(),
            name: self.name.clone(),
            url: self.url.clone(),
            security_policy: self.security_policy.clone(),
            user: text::copy_text_option(&self.user),
            password: text::copy_text_option(&self.password),
            device_types: text::copy_texts(&self.device_types),
            external_id: text::copy_text_option(&self.external_id),
            topic_id: text::copy_text_option(&self.topic_id),
        }
    }
}

/// The topic-id segment of a server's entity.
pub open spec fn server_topic_id(server: ServerView) -> Seq<char> {
    sanitized(
        match server.topic_id {
            Some(id) => id,
            None => server.name,
        },
    )
}

/// Whether a server takes a device type: it takes all, or its list names it.
pub open spec fn server_accepts(server: ServerView, device_type_id: Seq<char>) -> bool {
    ||| server.device_types.len() == 0
    ||| exists|i: int|
        0 <= i < server.device_types.len() && trimmed(#[trigger] server.device_types[i])
            == device_type_id
}

/// How a server is reached.
pub open spec fn endpoint_mode(server: ServerView) -> SecurityMode {
    if same_ignoring_case(server.security_policy, "None"@) {
        SecurityMode::Unsecured
    } else {
        SecurityMode::SignAndEncrypt
    }
}

impl ServerConfig {
    /// Topic-id segment of this server's thin-edge entity.
    pub fn topic_id(&self) -> (r: String)
        ensures
            r@ == server_topic_id(self.deep_view()),
    {
        match &self.topic_id {
            Some(id) => topic::sanitize_id(id.as_str()),
            None => topic::sanitize_id(self.name.as_str()),
        }
    }

    /// Whether this server came from a Cumulocity `c8y_OpcuaServer` object rather than from
    /// configuration on the device.
    pub fn is_adopted(&self) -> (r: bool)
        ensures
            r == self.external_id is Some,
    {
        self.external_id.is_some()
    }

    /// Whether this server accepts the given device type.
    pub fn accepts_device_type(&self, device_type_id: &str) -> (r: bool)
        ensures
            r == server_accepts(self.deep_view(), device_type_id@),
    {
        let ghost list = self.device_types.deep_view();
        proof {
            assert(list.len() == self.device_types@.len());
        }
        if self.device_types.len() == 0 {
            return true;
        }
        let mut i: usize = 0;
        while i < self.device_types.len()
            invariant
                i <= self.device_types@.len(),
                list == self.device_types.deep_view(),
                list.len() == self.device_types@.len(),
                list.len() > 0,
                forall|j: int| 0 <= j < i ==> trimmed(#[trigger] list[j]) != device_type_id@,
            decreases self.device_types@.len() - i,
        {
            proof {
                assert(list[i as int] == self.device_types@[i as int]@);
            }
            if text::same(text::trim(self.device_types[i].as_str()), device_type_id) {
                return true;
            }
            i = i + 1;
        }
        false
    }

    /// How to reach and authenticate against this server. Credentials are used only when both
    /// halves are there.
    pub fn endpoint(&self) -> (r: ServerEndpoint)
        ensures
            r.id@ == self.id@,
            r.url@ == self.url@,
            r.security_policy@ == self.security_policy@,
            r.message_security_mode == endpoint_mode(self.deep_view()),
            r.user is Some == (self.user is Some && self.password is Some),
            r.user matches Some(c) ==> Some(c.user@) == self.user.deep_view() && Some(c.password@)
                == self.password.deep_view(),
    {
        let message_security_mode: SecurityMode = if text::eq_ignore_ascii_case(
            self.security_policy.as_str(),
            "None",
        ) {
            SecurityMode::Unsecured
        } else {
            SecurityMode::SignAndEncrypt
        };
        let user: Option<Credentials> = match (&self.user, &self.password) {
            (Some(user), Some(password)) => Some(
                Credentials { user: user.clone(), password: password.clone() },
            ),
            _ => None,
        };
        ServerEndpoint {
            id: self.id.clone(),
            url: self.url.clone(),
            security_policy: self.security_policy.clone(),
            message_security_mode,
            user,
        }
    }

    /// Whether both are configured the same.
    pub fn same(&self, other: &ServerConfig) -> (r: bool)
        ensures
            r == (self.deep_view() == other.deep_view()),
    {
        text::same(self.id.as_str(), other.id.as_str()) && text::same(
            self.name.as_str(),
            other.name.as_str(),
        ) && text::same(self.url.as_str(), other.url.as_str()) && text::same(
            self.security_policy.as_str(),
            other.security_policy.as_str(),
        ) && text::same_option(&self.user, &other.user) && text::same_option(
            &self.password,
            &other.password,
        ) && text::same_texts(&self.device_types, &other.device_types) && text::same_option(
            &self.external_id,
            &other.external_id,
        ) && text::same_option(&self.topic_id, &other.topic_id)
    }
}

// Validation -------------------------------------------------------------------------

/// Why a configuration cannot be used.
#[derive(Debug, PartialEq, Eq)]
pub enum ConfigError {
    NoServers { dir: String },
    EmptyGatewayId,
    EmptyDeviceId,
    ZeroPollInterval,
    NoWorkerThreads,
    ZeroChannelCapacity,
    ZeroPublishingInterval,
    ZeroFlushInterval,
    EmptyServerId,
    DuplicateServerId { id: String },
    UnsupportedUrl { id: String, url: String },
    EmptyServerName { id: String },
    UnsupportedSecurityPolicy { id: String, policy: String },
    NoMappingSource { dir: String },
}

pub enum ConfigErrorView {
    NoServers { dir: Seq<char> },
    EmptyGatewayId,
    EmptyDeviceId,
    ZeroPollInterval,
    NoWorkerThreads,
    ZeroChannelCapacity,
    ZeroPublishingInterval,
    ZeroFlushInterval,
    EmptyServerId,
    DuplicateServerId { id: Seq<char> },
    UnsupportedUrl { id: Seq<char>, url: Seq<char> },
    EmptyServerName { id: Seq<char> },
    UnsupportedSecurityPolicy { id: Seq<char>, policy: Seq<char> },
    NoMappingSource { dir: Seq<char> },
}

impl DeepView for ConfigError {
    type V = ConfigErrorView;

    open spec fn deep_view(&self) -> ConfigErrorView {
        match self {
            ConfigError::NoServers { dir } => ConfigErrorView::NoServers { dir: dir@ },
            ConfigError::EmptyGatewayId => ConfigErrorView::EmptyGatewayId,
            ConfigError::EmptyDeviceId => ConfigErrorView::EmptyDeviceId,
            ConfigError::ZeroPollInterval => ConfigErrorView::ZeroPollInterval,
            ConfigError::NoWorkerThreads => ConfigErrorView::NoWorkerThreads,
            ConfigError::ZeroChannelCapacity => ConfigErrorView::ZeroChannelCapacity,
            ConfigError::ZeroPublishingInterval => ConfigErrorView::ZeroPublishingInterval,
            ConfigError::ZeroFlushInterval => ConfigErrorView::ZeroFlushInterval,
            ConfigError::EmptyServerId => ConfigErrorView::EmptyServerId,
            ConfigError::DuplicateServerId { id } => ConfigErrorView::DuplicateServerId { id: id@ },
            ConfigError::UnsupportedUrl { id, url } => ConfigErrorView::UnsupportedUrl {
                id: id@,
                url: url@,
            },
            ConfigError::EmptyServerName { id } => ConfigErrorView::EmptyServerName { id: id@ },
            ConfigError::UnsupportedSecurityPolicy {
                id,
                policy,
            } => ConfigErrorView::UnsupportedSecurityPolicy { id: id@, policy: policy@ },
            ConfigError::NoMappingSource { dir } => ConfigErrorView::NoMappingSource { dir: dir@ },
        }
    }
}

/// What is wrong with one server, given those before it.
pub open spec fn server_error(servers: Seq<ServerConfig>, i: int) -> Option<ConfigErrorView> {
    let s = servers[i];
    if is_blank(s.id@) {
        Some(ConfigErrorView::EmptyServerId)
    } else if exists|j: int| 0 <= j < i && (#[trigger] servers[j]).id@ == s.id@ {
        Some(ConfigErrorView::DuplicateServerId { id: s.id@ })
    } else if !starts_with(s.url@, "opc.tcp://"@) {
        Some(ConfigErrorView::UnsupportedUrl { id: s.id@, url: s.url@ })
    } else if is_blank(s.name@) {
        Some(ConfigErrorView::EmptyServerName { id: s.id@ })
    } else if !same_ignoring_case(s.security_policy@, "None"@) {
        Some(
            ConfigErrorView::UnsupportedSecurityPolicy { id: s.id@, policy: s.security_policy@ },
        )
    } else {
        None
    }
}

/// What is wrong with the first faulty server at or behind `from`.
pub open spec fn first_server_error(servers: Seq<ServerConfig>, from: int) -> Option<
    ConfigErrorView,
>
    decreases servers.len() - from,
{
    if from < 0 || from >= servers.len() {
        None
    } else if server_error(servers, from) is Some {
        server_error(servers, from)
    } else {
        first_server_error(servers, from + 1)
    }
}

/// The first thing that is wrong with a configuration, if anything is.
/// `mapping_dir_exists` tells whether the directory [`MappingsConfig::dir`] exists.
pub open spec fn config_error(config: Config, mapping_dir_exists: bool) -> Option<ConfigErrorView> {
    if config.servers@.len() == 0 && !config.gateway.enabled {
        Some(ConfigErrorView::NoServers { dir: config.mappings.dir@ })
    } else if config.gateway.enabled && is_blank(config.gateway.id@) {
        Some(ConfigErrorView::EmptyGatewayId)
    } else if config.gateway.enabled && is_blank(config.gateway.device_id@) {
        Some(ConfigErrorView::EmptyDeviceId)
    } else if config.gateway.enabled && config.gateway.server_poll_interval_secs == 0 {
        Some(ConfigErrorView::ZeroPollInterval)
    } else if config.runtime.worker_threads == 0 {
        Some(ConfigErrorView::NoWorkerThreads)
    } else if config.subscription.channel_capacity == 0 {
        Some(ConfigErrorView::ZeroChannelCapacity)
    } else if config.subscription.publishing_interval_ms == 0 {
        Some(ConfigErrorView::ZeroPublishingInterval)
    } else if config.subscription.flush_interval_ms == 0 {
        Some(ConfigErrorView::ZeroFlushInterval)
    } else if first_server_error(config.servers@, 0) is Some {
        first_server_error(config.servers@, 0)
    } else if !config.proxy.enabled && !mapping_dir_exists {
        Some(ConfigErrorView::NoMappingSource { dir: config.mappings.dir@ })
    } else {
        None
    }
}

/// What is wrong with the server at `i`.
fn check_server(servers: &Vec<ServerConfig>, i: usize) -> (r: Option<ConfigError>)
    requires
        i < servers@.len(),
    ensures
        r.deep_view() == server_error(servers@, i as int),
{
    let s: &ServerConfig = &servers[i];
    if text::blank(s.id.as_str()) {
        return Some(ConfigError::EmptyServerId);
    }
    let mut j: usize = 0;
    while j < i
        invariant
            j <= i < servers@.len(),
            *s == servers@[i as int],
            !is_blank(s.id@),
            forall|k: int| 0 <= k < j ==> (#[trigger] servers@[k]).id@ != s.id@,
        decreases i - j,
    {
        if text::same(servers[j].id.as_str(), s.id.as_str()) {
            return Some(ConfigError::DuplicateServerId { id: s.id.clone() });
        }
        j = j + 1;
    }
    if !text::has_prefix(s.url.as_str(), "opc.tcp://") {
        return Some(ConfigError::UnsupportedUrl { id: s.id.clone(), url: s.url.clone() });
    }
    if text::blank(s.name.as_str()) {
        return Some(ConfigError::EmptyServerName { id: s.id.clone() });
    }
    // A secured endpoint needs an application instance certificate, and this gateway
    // deliberately writes nothing to disk to create one. Fail loudly rather than half-connect.
    if !text::eq_ignore_ascii_case(s.security_policy.as_str(), "None") {
        return Some(
            ConfigError::UnsupportedSecurityPolicy {
                id: s.id.clone(),
                policy: s.security_policy.clone(),
            },
        );
    }
    None
}

impl Config {
    /// Whether this configuration can be used. `mapping_dir_exists` tells whether the mapping
    /// directory exists.
    pub fn validate(&self, mapping_dir_exists: bool) -> (r: Result<(), ConfigError>)
        ensures
            r is Ok == config_error(*self, mapping_dir_exists) is None,
            r matches Err(e) ==> config_error(*self, mapping_dir_exists) == Some(e.deep_view()),
    {
        // With the gateway device on, servers may arrive later from Cumulocity, so starting with
        // none is a legitimate state — the gateway comes up, registers, and waits. Without it,
        // nothing would ever give this process a server to talk to.
        if self.servers.len() == 0 && !self.gateway.enabled {
            return Err(ConfigError::NoServers { dir: self.mappings.dir.clone() });
        }
        if self.gateway.enabled {
            if text::blank(self.gateway.id.as_str()) {
                return Err(ConfigError::EmptyGatewayId);
            }
            if text::blank(self.gateway.device_id.as_str()) {
                return Err(ConfigError::EmptyDeviceId);
            }
            if self.gateway.server_poll_interval_secs == 0 {
                return Err(ConfigError::ZeroPollInterval);
            }
        }
        if self.runtime.worker_threads == 0 {
            return Err(ConfigError::NoWorkerThreads);
        }
        if self.subscription.channel_capacity == 0 {
            return Err(ConfigError::ZeroChannelCapacity);
        }
        if self.subscription.publishing_interval_ms == 0 {
            return Err(ConfigError::ZeroPublishingInterval);
        }
        if self.subscription.flush_interval_ms == 0 {
            return Err(ConfigError::ZeroFlushInterval);
        }
        let mut i: usize = 0;
        while i < self.servers.len()
            invariant
                i <= self.servers@.len(),
                !(self.servers@.len() == 0 && !self.gateway.enabled),
                self.gateway.enabled ==> !is_blank(self.gateway.id@) && !is_blank(
                    self.gateway.device_id@,
                ) && self.gateway.server_poll_interval_secs != 0,
                self.runtime.worker_threads != 0,
                self.subscription.channel_capacity != 0,
                self.subscription.publishing_interval_ms != 0,
                self.subscription.flush_interval_ms != 0,
                first_server_error(self.servers@, i as int) == first_server_error(self.servers@, 0),
            decreases self.servers@.len() - i,
        {
            if let Some(e) = check_server(&self.servers, i) {
                return Err(e);
            }
            i = i + 1;
        }
        if !self.proxy.enabled && !mapping_dir_exists {
            return Err(ConfigError::NoMappingSource { dir: self.mappings.dir.clone() });
        }
        Ok(())
    }

    pub fn connect_timeout(&self) -> (r: Duration)
        ensures
            r == seconds(self.runtime.connect_timeout_secs),
    {
        Duration::from_secs(self.runtime.connect_timeout_secs)
    }

    pub fn max_backoff(&self) -> (r: Duration)
        ensures
            r == seconds(self.runtime.max_backoff_secs),
    {
        Duration::from_secs(self.runtime.max_backoff_secs)
    }

    pub fn server_poll_interval(&self) -> (r: Duration)
        ensures
            r == seconds(at_least_one(self.gateway.server_poll_interval_secs)),
    {
        Duration::from_secs(one_or_more(self.gateway.server_poll_interval_secs))
    }
}

/// `n`, or one in the place of zero.
pub open spec fn at_least_one(n: u64) -> u64 {
    if n == 0 {
        1
    } else {
        n
    }
}

pub fn one_or_more(n: u64) -> (r: u64)
    ensures
        r == at_least_one(n),
{
    if n == 0 {
        1
    } else {
        n
    }
}

/// An error about one server, with a quoted part at its end.
pub open spec fn about_server(id: Seq<char>, what: Seq<char>, value: Seq<char>, rest: Seq<char>) -> Seq<
    char,
> {
    "server "@ + id + what + text::debug_notation(value) + rest
}

fn server_message(id: &str, what: &str, value: &str, rest: &str) -> (r: String)
    ensures
        r@ == about_server(id@, what@, value@, rest@),
{
    let mut out: String = text::concat("server ", id);
    out.append(what);
    let value_text: String = text::quoted(value);
    out.append(value_text.as_str());
    out.append(rest);
    out
}

/// A configuration error in words.
pub open spec fn config_error_text(e: ConfigErrorView) -> Seq<char> {
    match e {
        ConfigErrorView::NoServers {
            dir,
        } => "no OPC UA servers configured and gateway.enabled is false, so no server can ever arrive: add a [[servers]] entry, a file in "@
            + dir + "/"@ + "servers"@ + ", or enable the gateway device"@,
        ConfigErrorView::EmptyGatewayId =>
        "gateway.id must not be empty: it is half of the gateway's external id"@,
        ConfigErrorView::EmptyDeviceId =>
        "gateway.device_id must not be empty when the gateway device is enabled"@,
        ConfigErrorView::ZeroPollInterval =>
        "gateway.server_poll_interval_secs must be greater than zero"@,
        ConfigErrorView::NoWorkerThreads => "runtime.worker_threads must be at least 1"@,
        ConfigErrorView::ZeroChannelCapacity => "subscription.channel_capacity must be at least 1"@,
        ConfigErrorView::ZeroPublishingInterval =>
        "subscription.publishing_interval_ms must be greater than zero"@,
        ConfigErrorView::ZeroFlushInterval =>
        "subscription.flush_interval_ms must be greater than zero"@,
        ConfigErrorView::EmptyServerId => "every server needs a non-empty id"@,
        ConfigErrorView::DuplicateServerId { id } => "two servers share the id "@
            + text::debug_notation(id) + "; ids must be unique"@,
        ConfigErrorView::UnsupportedUrl { id, url } => about_server(
            id,
            " has url "@,
            url,
            ": only opc.tcp:// endpoints are supported"@,
        ),
        ConfigErrorView::EmptyServerName { id } => "server "@ + id
            + " needs a name for its thin-edge child device"@,
        ConfigErrorView::UnsupportedSecurityPolicy { id, policy } => about_server(
            id,
            " requests security_policy "@,
            policy,
            ", but only \"None\" is supported: secured endpoints need an application instance certificate, which this gateway does not yet accept from configuration"@,
        ),
        ConfigErrorView::NoMappingSource { dir } =>
        "proxy.enabled is false and the mapping directory "@ + dir
            + " does not exist, so there is no mapping source at all"@,
    }
}

impl ConfigError {
    /// The error in words.
    pub fn message(&self) -> (r: String)
        ensures
            r@ == config_error_text(self.deep_view()),
    {
        match self {
            ConfigError::NoServers { dir } => {
                let mut out: String = text::concat(
                    "no OPC UA servers configured and gateway.enabled is false, so no server can ever arrive: add a [[servers]] entry, a file in ",
                    dir.as_str(),
                );
                out.append("/");
                out.append(SERVERS_SUBDIR);
                out.append(", or enable the gateway device");
                out
            },
            ConfigError::EmptyGatewayId =>
            "gateway.id must not be empty: it is half of the gateway's external id".to_owned(),
            ConfigError::EmptyDeviceId =>
            "gateway.device_id must not be empty when the gateway device is enabled".to_owned(),
            ConfigError::ZeroPollInterval =>
            "gateway.server_poll_interval_secs must be greater than zero".to_owned(),
            ConfigError::NoWorkerThreads => "runtime.worker_threads must be at least 1".to_owned(),
            ConfigError::ZeroChannelCapacity =>
            "subscription.channel_capacity must be at least 1".to_owned(),
            ConfigError::ZeroPublishingInterval =>
            "subscription.publishing_interval_ms must be greater than zero".to_owned(),
            ConfigError::ZeroFlushInterval =>
            "subscription.flush_interval_ms must be greater than zero".to_owned(),
            ConfigError::EmptyServerId => "every server needs a non-empty id".to_owned(),
            ConfigError::DuplicateServerId { id } => {
                let id_text: String = text::quoted(id.as_str());
                let mut out: String = text::concat("two servers share the id ", id_text.as_str());
                out.append("; ids must be unique");
                out
            },
            ConfigError::UnsupportedUrl { id, url } => server_message(
                id.as_str(),
                " has url ",
                url.as_str(),
                ": only opc.tcp:// endpoints are supported",
            ),
            ConfigError::EmptyServerName { id } => {
                let mut out: String = text::concat("server ", id.as_str());
                out.append(" needs a name for its thin-edge child device");
                out
            },
            ConfigError::UnsupportedSecurityPolicy { id, policy } => server_message(
                id.as_str(),
                " requests security_policy ",
                policy.as_str(),
                ", but only \"None\" is supported: secured endpoints need an application instance certificate, which this gateway does not yet accept from configuration",
            ),
            ConfigError::NoMappingSource { dir } => {
                let mut out: String = text::concat(
                    "proxy.enabled is false and the mapping directory ",
                    dir.as_str(),
                );
                out.append(" does not exist, so there is no mapping source at all");
                out
            },
        }
    }
}

// Loading ----------------------------------------------------------------------------

/// The position of the first server at or behind `from` with the given id; the number of
/// servers where there is none.
pub open spec fn server_position(servers: Seq<ServerConfig>, id: Seq<char>, from: int) -> int
    decreases servers.len() - from,
{
    if from < 0 || from >= servers.len() {
        servers.len() as int
    } else if servers[from].id@ == id {
        from
    } else {
        server_position(servers, id, from + 1)
    }
}

/// The servers with one more: in the place of the one with the same id, or behind all.
pub open spec fn with_server(servers: Seq<ServerConfig>, server: ServerConfig) -> Seq<
    ServerConfig,
> {
    let at = server_position(servers, server.id@, 0);
    if 0 <= at < servers.len() {
        servers.update(at, server)
    } else {
        servers.push(server)
    }
}

/// The inline servers with the pushed ones added in turn.
pub open spec fn merged_servers(inline: Seq<ServerConfig>, pushed: Seq<ServerConfig>) -> Seq<
    ServerConfig,
>
    decreases pushed.len(),
{
    if pushed.len() == 0 {
        inline
    } else {
        with_server(merged_servers(inline, pushed.drop_last()), pushed.last())
    }
}

/// Merge inline `[[servers]]` with pushed server files, the pushed file winning on a shared
/// id.
///
/// Same precedence as the two mapping sources: a file on the device is a deliberate local
/// override of whatever the built-in configuration says.
pub fn merge_servers(inline: Vec<ServerConfig>, pushed: Vec<ServerConfig>) -> (r: Vec<ServerConfig>)
    ensures
        r@ == merged_servers(inline@, pushed@),
{
    let ghost start = inline@;
    let ghost all = pushed@;
    let mut out: Vec<ServerConfig> = inline;
    let mut rest: Vec<ServerConfig> = pushed;
    let ghost mut done: int = 0;
    proof {
        assert(all.skip(0) =~= all);
        assert(all.take(0) =~= Seq::empty());
    }
    while rest.len() > 0
        invariant
            0 <= done <= all.len(),
            rest@ == all.skip(done),
            rest@.len() == all.len() - done,
            out@ == merged_servers(start, all.take(done)),
        ensures
            done == all.len(),
            out@ == merged_servers(start, all.take(done)),
        decreases rest@.len(),
    {
        let server: ServerConfig = rest.remove(0);
        proof {
            assert(server == all[done]);
            assert(rest@ =~= all.skip(done + 1));
            assert(all.take(done + 1).drop_last() =~= all.take(done));
            assert(all.take(done + 1).last() == server);
            done = done + 1;
        }
        let mut at: usize = 0;
        while at < out.len() && !text::same(out[at].id.as_str(), server.id.as_str())
            invariant
                at <= out@.len(),
                server_position(out@, server.id@, at as int) == server_position(
                    out@,
                    server.id@,
                    0,
                ),
            decreases out@.len() - at,
        {
            at = at + 1;
        }
        if at < out.len() {
            out[at] = server;
        } else {
            out.push(server);
        }
    }
    proof {
        assert(all.take(done) =~= all);
    }
    out
}

/// A server has the id of one before it.
pub open spec fn comes_again(servers: Seq<ServerConfig>, i: int) -> bool {
    exists|j: int| 0 <= j < i && (#[trigger] servers[j]).id@ == servers[i].id@
}

/// No two servers share an id.
pub open spec fn unique_ids(servers: Seq<ServerConfig>) -> bool {
    forall|i: int, j: int|
        0 <= i < j < servers.len() ==> (#[trigger] servers[i]).id@ != (#[trigger] servers[j]).id@
}

/// Whether pushed server files can be merged: a duplicate id among them is always reported, by
/// the first id that comes a second time. Merging would let the later file take the place of the
/// earlier one.
pub fn check_pushed(pushed: &Vec<ServerConfig>) -> (r: Result<(), ConfigError>)
    ensures
        r is Ok == (forall|i: int, j: int|
            0 <= i < j < pushed@.len() ==> (#[trigger] pushed@[i]).id@ != (
            #[trigger] pushed@[j]).id@),
        r is Ok == unique_ids(pushed@),
        r matches Err(e) ==> exists|i: int|
            #![trigger comes_again(pushed@, i)]
            0 <= i < pushed@.len() && comes_again(pushed@, i) && (forall|k: int|
                0 <= k < i ==> !comes_again(pushed@, k)) && e.deep_view()
                == (ConfigErrorView::DuplicateServerId { id: pushed@[i].id@ }),
{
    let mut i: usize = 0;
    while i < pushed.len()
        invariant
            i <= pushed@.len(),
            forall|k: int| 0 <= k < i ==> !comes_again(pushed@, k),
        decreases pushed@.len() - i,
    {
        let mut j: usize = 0;
        while j < i
            invariant
                j <= i < pushed@.len(),
                forall|k: int| 0 <= k < i ==> !comes_again(pushed@, k),
                forall|k: int| 0 <= k < j ==> (#[trigger] pushed@[k]).id@ != pushed@[i as int].id@,
            decreases i - j,
        {
            if text::same(pushed[j].id.as_str(), pushed[i].id.as_str()) {
                proof {
                    assert(comes_again(pushed@, i as int));
                }
                return Err(ConfigError::DuplicateServerId { id: pushed[i].id.clone() });
            }
            j = j + 1;
        }
        i = i + 1;
    }
    proof {
        assert forall|a: int, b: int| 0 <= a < b < pushed@.len() implies (#[trigger] pushed@[a]).id@
            != (#[trigger] pushed@[b]).id@ by {
            assert(!comes_again(pushed@, b));
        }
    }
    Ok(())
}

impl Config {
    /// Whether the thin-edge device id still has to be found out.
    pub fn needs_device_id(&self) -> (r: bool)
        ensures
            r == (self.gateway.enabled && is_blank(self.gateway.device_id@)),
    {
        self.gateway.enabled && text::blank(self.gateway.device_id.as_str())
    }
}

/// The device id that `tedge config get device.id` has printed, if it printed one.
pub fn device_id_of_output(output: &str) -> (r: Option<&str>)
    ensures
        r is None == is_blank(output@),
        r matches Some(id) ==> id@ == trimmed(output@),
{
    let id: &str = text::trim(output);
    if text::is_empty(id) {
        None
    } else {
        Some(id)
    }
}

impl From<&MqttConfig> for mqtt::MqttConfig {
    fn from(c: &MqttConfig) -> (r: Self) {
        mqtt::MqttConfig {
            host: c.host.clone(),
            port: c.port,
            client_id: c.client_id.clone(),
            capacity: c.capacity,
            keep_alive: Duration::from_secs(c.keep_alive_secs),
            service_name: c.service_name.clone(),
        }
    }
}

impl vstd::std_specs::convert::FromSpecImpl<&MqttConfig> for mqtt::MqttConfig {
    open spec fn obeys_from_spec() -> bool {
        true
    }

    open spec fn from_spec(c: &MqttConfig) -> Self {
        mqtt::MqttConfig {
            host: c.host,
            port: c.port,
            client_id: c.client_id,
            capacity: c.capacity,
            keep_alive: seconds(c.keep_alive_secs),
            service_name: c.service_name,
        }
    }
}

impl From<&ProxyConfig> for proxy::ProxyConfig {
    fn from(c: &ProxyConfig) -> (r: Self) {
        proxy::ProxyConfig {
            base_url: c.base_url.clone(),
            timeout: Duration::from_secs(c.timeout_secs),
            client_cert: text::copy_text_option(&c.client_cert),
            client_key: text::copy_text_option(&c.client_key),
            ca_cert: text::copy_text_option(&c.ca_cert),
        }
    }
}

impl vstd::std_specs::convert::FromSpecImpl<&ProxyConfig> for proxy::ProxyConfig {
    open spec fn obeys_from_spec() -> bool {
        true
    }

    open spec fn from_spec(c: &ProxyConfig) -> Self {
        proxy::ProxyConfig {
            base_url: c.base_url,
            timeout: seconds(c.timeout_secs),
            client_cert: c.client_cert,
            client_key: c.client_key,
            ca_cert: c.ca_cert,
        }
    }
}

impl From<&SubscriptionConfig> for SubscriptionParams {
    fn from(c: &SubscriptionConfig) -> (r: Self) {
        SubscriptionParams {
            publishing_interval: Duration::from_millis(c.publishing_interval_ms),
            lifetime_count: c.lifetime_count,
            max_keep_alive_count: c.max_keep_alive_count,
            max_notifications_per_publish: c.max_notifications_per_publish,
            priority: c.priority,
        }
    }
}

impl vstd::std_specs::convert::FromSpecImpl<&SubscriptionConfig> for SubscriptionParams {
    open spec fn obeys_from_spec() -> bool {
        true
    }

    open spec fn from_spec(c: &SubscriptionConfig) -> Self {
        SubscriptionParams {
            publishing_interval: milliseconds(c.publishing_interval_ms),
            lifetime_count: c.lifetime_count,
            max_keep_alive_count: c.max_keep_alive_count,
            max_notifications_per_publish: c.max_notifications_per_publish,
            priority: c.priority,
        }
    }
}

// Laws -------------------------------------------------------------------------------

proof fn lemma_server_position(servers: Seq<ServerConfig>, id: Seq<char>, from: int)
    requires
        0 <= from <= servers.len(),
    ensures
        from <= server_position(servers, id, from) <= servers.len(),
        server_position(servers, id, from) < servers.len() ==> servers[server_position(
            servers,
            id,
            from,
        )].id@ == id,
        forall|i: int|
            from <= i < server_position(servers, id, from) ==> (#[trigger] servers[i]).id@ != id,
    decreases servers.len() - from,
{
    if from < servers.len() && servers[from].id@ != id {
        lemma_server_position(servers, id, from + 1);
    }
}

/// Merging servers never makes two share an id.
pub proof fn law_merging_keeps_ids_unique(inline: Seq<ServerConfig>, pushed: Seq<ServerConfig>)
    requires
        unique_ids(inline),
    ensures
        unique_ids(merged_servers(inline, pushed)),
    decreases pushed.len(),
{
    if pushed.len() > 0 {
        let before = merged_servers(inline, pushed.drop_last());
        law_merging_keeps_ids_unique(inline, pushed.drop_last());
        lemma_server_position(before, pushed.last().id@, 0);
    }
}

/// The inline servers keep their places: whatever is pushed, each is there or overridden by a
/// pushed one of the same id, and new servers come behind them.
pub proof fn law_inline_servers_keep_their_places(
    inline: Seq<ServerConfig>,
    pushed: Seq<ServerConfig>,
    i: int,
)
    requires
        0 <= i < inline.len(),
    ensures
        merged_servers(inline, pushed).len() >= inline.len(),
        merged_servers(inline, pushed)[i].id@ == inline[i].id@,
        merged_servers(inline, pushed)[i] == inline[i] || pushed.contains(
            merged_servers(inline, pushed)[i],
        ),
    decreases pushed.len(),
{
    if pushed.len() > 0 {
        let before = merged_servers(inline, pushed.drop_last());
        law_inline_servers_keep_their_places(inline, pushed.drop_last(), i);
        lemma_server_position(before, pushed.last().id@, 0);
        assert(pushed[pushed.len() - 1] == pushed.last());
        if pushed.drop_last().contains(before[i]) {
            let k = pushed.drop_last().index_of(before[i]);
            assert(pushed[k] == before[i]);
        }
    }
}

/// Pushed servers win: where no id is pushed twice, every pushed server is used, whatever inline
/// server has its id.
pub proof fn law_pushed_server_wins(
    inline: Seq<ServerConfig>,
    pushed: Seq<ServerConfig>,
    i: int,
)
    requires
        unique_ids(inline),
        unique_ids(pushed),
        0 <= i < pushed.len(),
    ensures
        merged_servers(inline, pushed).contains(pushed[i]),
    decreases pushed.len(),
{
    let before = merged_servers(inline, pushed.drop_last());
    let after = merged_servers(inline, pushed);
    let last = pushed.last();
    lemma_server_position(before, last.id@, 0);
    let at = server_position(before, last.id@, 0);
    if i == pushed.len() - 1 {
        assert(after[at] == pushed[i]);
    } else {
        assert(pushed[pushed.len() - 1].id@ != pushed[i].id@);
        assert(unique_ids(pushed.drop_last())) by {
            assert forall|a: int, b: int| 0 <= a < b < pushed.drop_last().len() implies (
            #[trigger] pushed.drop_last()[a]).id@ != (#[trigger] pushed.drop_last()[b]).id@ by {
                assert(pushed[a].id@ != pushed[b].id@);
            }
        }
        law_pushed_server_wins(inline, pushed.drop_last(), i);
        let k = before.index_of(pushed[i]);
        assert(before[k].id@ == pushed[i].id@);
        assert(after[k] == pushed[i]);
    }
}

proof fn lemma_no_server_error(servers: Seq<ServerConfig>, from: int, i: int)
    requires
        0 <= from <= i < servers.len(),
        first_server_error(servers, from) is None,
    ensures
        server_error(servers, i) is None,
    decreases i - from,
{
    if from < i {
        lemma_no_server_error(servers, from + 1, i);
    }
}

/// A configuration that passes validation has unique server ids, and every server is named and
/// reached without security over `opc.tcp`.
pub proof fn law_valid_servers_are_usable(config: Config, mapping_dir_exists: bool, i: int)
    requires
        config_error(config, mapping_dir_exists) is None,
        0 <= i < config.servers@.len(),
    ensures
        unique_ids(config.servers@),
        !is_blank(config.servers@[i].id@),
        !is_blank(config.servers@[i].name@),
        starts_with(config.servers@[i].url@, "opc.tcp://"@),
        endpoint_mode(config.servers@[i].deep_view()) == SecurityMode::Unsecured,
{
    lemma_no_server_error(config.servers@, 0, i);
    assert forall|a: int, b: int| 0 <= a < b < config.servers@.len() implies (
    #[trigger] config.servers@[a]).id@ != (#[trigger] config.servers@[b]).id@ by {
        lemma_no_server_error(config.servers@, 0, b);
    }
}

/// A valid configuration has something to read from, and a mapping source.
pub proof fn law_valid_configuration_can_get_data(config: Config, mapping_dir_exists: bool)
    requires
        config_error(config, mapping_dir_exists) is None,
    ensures
        config.servers@.len() > 0 || config.gateway.enabled,
        config.proxy.enabled || mapping_dir_exists,
{
}

/// Below one gateway, different server objects get different external ids.
pub proof fn law_adopted_servers_have_distinct_external_ids(
    gateway: GatewayConfig,
    a: Seq<char>,
    b: Seq<char>,
)
    requires
        adopted_external_id(gateway, a) == adopted_external_id(gateway, b),
    ensures
        a == b,
{
    let n = (gateway_external_id(gateway) + ":device:"@).len() as int;
    assert(adopted_external_id(gateway, a).skip(n) =~= a);
    assert(adopted_external_id(gateway, b).skip(n) =~= b);
}

/// What makes a server usable, given the others: an id that no server before it has, a name, an
/// `opc.tcp` address, and no security.
pub open spec fn is_usable_server(servers: Seq<ServerConfig>, i: int) -> bool {
    &&& !is_blank(servers[i].id@)
    &&& !is_blank(servers[i].name@)
    &&& servers[i].url@.len() >= 10 && servers[i].url@.take(10) == "opc.tcp://"@
    &&& ascii_lowercase(servers[i].security_policy@) == "none"@
    &&& forall|j: int| 0 <= j < i ==> (#[trigger] servers[j]).id@ != servers[i].id@
}

/// A server has no error exactly when it is usable; else the error names the server and what is
/// wrong with it.
pub proof fn law_servers_are_refused_for_a_reason(servers: Seq<ServerConfig>, i: int)
    requires
        0 <= i < servers.len(),
    ensures
        server_error(servers, i) is None <==> is_usable_server(servers, i),
        server_error(servers, i) matches Some(e) ==> match e {
            ConfigErrorView::EmptyServerId => is_blank(servers[i].id@),
            ConfigErrorView::DuplicateServerId { id } => id == servers[i].id@ && exists|j: int|
                0 <= j < i && (#[trigger] servers[j]).id@ == id,
            ConfigErrorView::UnsupportedUrl { id, url } => id == servers[i].id@ && url
                == servers[i].url@ && !starts_with(url, "opc.tcp://"@),
            ConfigErrorView::EmptyServerName { id } => id == servers[i].id@ && is_blank(
                servers[i].name@,
            ),
            ConfigErrorView::UnsupportedSecurityPolicy { id, policy } => id == servers[i].id@
                && policy == servers[i].security_policy@ && ascii_lowercase(policy) != "none"@,
            _ => false,
        },
{
    reveal_strlit("opc.tcp://");
    reveal_strlit("None");
    reveal_strlit("none");
    assert(ascii_lowercase("None"@) =~= "none"@);
    let url = servers[i].url@;
    if url.len() >= 10 {
        assert(url.subrange(0, 10) =~= url.take(10));
    }
}

proof fn lemma_first_server_error(servers: Seq<ServerConfig>, from: int)
    requires
        0 <= from <= servers.len(),
    ensures
        first_server_error(servers, from) is None <==> forall|i: int|
            from <= i < servers.len() ==> server_error(servers, i) is None,
        forall|i: int|
            from <= i < servers.len() && #[trigger] server_error(servers, i) is Some && (forall|
                j: int,
            | from <= j < i ==> #[trigger] server_error(servers, j) is None)
                ==> first_server_error(servers, from) == server_error(servers, i),
    decreases servers.len() - from,
{
    if from < servers.len() {
        lemma_first_server_error(servers, from + 1);
        assert forall|i: int|
            from <= i < servers.len() && #[trigger] server_error(servers, i) is Some && (forall|
                j: int,
            | from <= j < i ==> #[trigger] server_error(servers, j) is None) implies first_server_error(
            servers,
            from,
        ) == server_error(servers, i) by {
            if i > from {
                assert(server_error(servers, from) is None);
            }
        }
    }
}

/// A configuration passes exactly when it has servers or a gateway device to get them from, the
/// gateway device is named and polled, nothing that has to be positive is zero, every server is
/// usable, and there is a source of mappings.
pub proof fn law_configurations_pass_where_nothing_is_wrong(config: Config, mapping_dir_exists: bool)
    ensures
        config_error(config, mapping_dir_exists) is None <==> {
            &&& config.servers@.len() > 0 || config.gateway.enabled
            &&& config.gateway.enabled ==> !is_blank(config.gateway.id@) && !is_blank(
                config.gateway.device_id@,
            ) && config.gateway.server_poll_interval_secs > 0
            &&& config.runtime.worker_threads > 0
            &&& config.subscription.channel_capacity > 0
            &&& config.subscription.publishing_interval_ms > 0
            &&& config.subscription.flush_interval_ms > 0
            &&& forall|i: int|
                0 <= i < config.servers@.len() ==> #[trigger] is_usable_server(config.servers@, i)
            &&& config.proxy.enabled || mapping_dir_exists
        },
{
    let servers = config.servers@;
    lemma_first_server_error(servers, 0);
    assert forall|i: int| 0 <= i < servers.len() implies (#[trigger] is_usable_server(servers, i)
        <==> server_error(servers, i) is None) by {
        law_servers_are_refused_for_a_reason(servers, i);
    }
    if first_server_error(servers, 0) is None {
        assert forall|i: int| 0 <= i < servers.len() implies #[trigger] is_usable_server(
            servers,
            i,
        ) by {
            assert(server_error(servers, i) is None);
        }
    }
    if forall|i: int| 0 <= i < servers.len() ==> #[trigger] is_usable_server(servers, i) {
        assert forall|i: int| 0 <= i < servers.len() implies server_error(servers, i) is None by {
            assert(is_usable_server(servers, i));
        }
    }
}

/// The error of a configuration that is refused is true of it.
pub proof fn law_configuration_errors_are_true(config: Config, mapping_dir_exists: bool)
    ensures
        config_error(config, mapping_dir_exists) matches Some(e) ==> match e {
            ConfigErrorView::NoServers { dir } => config.servers@.len() == 0
                && !config.gateway.enabled && dir == config.mappings.dir@,
            ConfigErrorView::EmptyGatewayId => config.gateway.enabled && is_blank(
                config.gateway.id@,
            ),
            ConfigErrorView::EmptyDeviceId => config.gateway.enabled && is_blank(
                config.gateway.device_id@,
            ),
            ConfigErrorView::ZeroPollInterval => config.gateway.enabled
                && config.gateway.server_poll_interval_secs == 0,
            ConfigErrorView::NoWorkerThreads => config.runtime.worker_threads == 0,
            ConfigErrorView::ZeroChannelCapacity => config.subscription.channel_capacity == 0,
            ConfigErrorView::ZeroPublishingInterval => config.subscription.publishing_interval_ms
                == 0,
            ConfigErrorView::ZeroFlushInterval => config.subscription.flush_interval_ms == 0,
            ConfigErrorView::NoMappingSource { dir } => !config.proxy.enabled
                && !mapping_dir_exists && dir == config.mappings.dir@,
            _ => exists|i: int|
                0 <= i < config.servers@.len() && #[trigger] server_error(config.servers@, i)
                    == Some(e),
        },
{
    let servers = config.servers@;
    if first_server_error(servers, 0) is Some {
        lemma_some_server_error(servers, 0);
        let i = choose|i: int|
            0 <= i < servers.len() && #[trigger] server_error(servers, i) == first_server_error(
                servers,
                0,
            );
        law_servers_are_refused_for_a_reason(servers, i);
    }
}

proof fn lemma_some_server_error(servers: Seq<ServerConfig>, from: int)
    requires
        0 <= from <= servers.len(),
        first_server_error(servers, from) is Some,
    ensures
        exists|i: int|
            from <= i < servers.len() && #[trigger] server_error(servers, i) == first_server_error(
                servers,
                from,
            ),
    decreases servers.len() - from,
{
    if server_error(servers, from) is None {
        lemma_some_server_error(servers, from + 1);
    }
}

/// A server takes the device types that its list names, white space around them aside, and all of
/// them where the list is empty.
pub proof fn law_servers_take_the_listed_device_types(
    server: ServerView,
    device_type_id: Seq<char>,
    i: int,
)
    ensures
        server.device_types.len() == 0 ==> server_accepts(server, device_type_id),
        0 <= i < server.device_types.len() && trimmed(server.device_types[i]) == device_type_id
            ==> server_accepts(server, device_type_id),
        server.device_types.len() > 0 && (forall|j: int|
            0 <= j < server.device_types.len() ==> trimmed(#[trigger] server.device_types[j])
                != device_type_id) ==> !server_accepts(server, device_type_id),
{
}

/// A server is addressed by its topic id where it has one, else by its name.
pub proof fn law_servers_are_addressed_by_topic_id_or_name(server: ServerView)
    ensures
        server.topic_id matches Some(id) ==> server_topic_id(server) == sanitized(id),
        server.topic_id is None ==> server_topic_id(server) == sanitized(server.name),
{
}

/// An endpoint is that of its server: its address and policy, unsecured where the policy is none,
/// and with a user exactly where there is both a name and a password.
pub proof fn law_endpoints_are_those_of_their_server(server: ServerConfig, r: ServerEndpoint)
    requires
        call_ensures(ServerConfig::endpoint, (&server,), r),
    ensures
        r.id@ == server.id@,
        r.url@ == server.url@,
        r.security_policy@ == server.security_policy@,
        r.message_security_mode == SecurityMode::Unsecured <==> ascii_lowercase(
            server.security_policy@,
        ) == "none"@,
        r.user is Some <==> server.user is Some && server.password is Some,
        r.user matches Some(c) ==> c.user@ == server.user->Some_0@ && c.password@
            == server.password->Some_0@,
{
    reveal_strlit("None");
    reveal_strlit("none");
    assert(ascii_lowercase("None"@) =~= "none"@);
    if let Some(c) = r.user {
        assert(server.user.deep_view() == Some(server.user->Some_0@));
        assert(server.password.deep_view() == Some(server.password->Some_0@));
    }
}

/// The external ids of the gateway device and of what is below it are made of the ids above them.
pub proof fn law_external_ids_are_made_of_the_ids_above(gateway: GatewayConfig, mo_id: Seq<char>)
    ensures
        gateway_external_id(gateway) == gateway.device_id@ + ":device:"@ + gateway.id@,
        adopted_external_id(gateway, mo_id) == gateway.device_id@ + ":device:"@ + gateway.id@
            + ":device:"@ + mo_id,
{
}

/// The device id is taken from what was printed, without the white space around it; nothing is
/// taken where nothing was printed.
pub proof fn law_the_device_id_is_what_was_printed(output: &str, r: Option<&str>)
    requires
        call_ensures(device_id_of_output, (output,), r),
    ensures
        r is Some <==> !is_blank(output@),
        r matches Some(id) ==> id@ == trimmed(output@),
{
}

/// Merging brings no server of its own, and keeps every inline server whose id is not pushed.
pub proof fn law_merged_servers_are_inline_or_pushed(
    inline: Seq<ServerConfig>,
    pushed: Seq<ServerConfig>,
    i: int,
)
    ensures
        0 <= i < merged_servers(inline, pushed).len() ==> inline.contains(
            merged_servers(inline, pushed)[i],
        ) || pushed.contains(merged_servers(inline, pushed)[i]),
        0 <= i < inline.len() && (forall|j: int|
            0 <= j < pushed.len() ==> (#[trigger] pushed[j]).id@ != inline[i].id@)
            ==> merged_servers(inline, pushed).len() > i && merged_servers(inline, pushed)[i]
            == inline[i],
    decreases pushed.len(),
{
    if pushed.len() == 0 {
        if 0 <= i < inline.len() {
            assert(inline.contains(inline[i]));
        }
    } else {
        let first = pushed.drop_last();
        let last = pushed.last();
        let before = merged_servers(inline, first);
        let after = merged_servers(inline, pushed);
        law_merged_servers_are_inline_or_pushed(inline, first, i);
        lemma_server_position(before, last.id@, 0);
        assert(pushed[pushed.len() - 1] == last);
        assert(pushed.contains(last));
        if 0 <= i < after.len() {
            if i < before.len() && after[i] == before[i] {
                if first.contains(before[i]) {
                    let k = first.index_of(before[i]);
                    assert(pushed[k] == before[i]);
                }
            } else {
                assert(after[i] == last);
            }
        }
        if 0 <= i < inline.len() && (forall|j: int|
            0 <= j < pushed.len() ==> (#[trigger] pushed[j]).id@ != inline[i].id@) {
            assert forall|j: int| 0 <= j < first.len() implies (#[trigger] first[j]).id@
                != inline[i].id@ by {
                assert(pushed[j].id@ != inline[i].id@);
            }
            assert(before[i] == inline[i]);
            assert(last.id@ != inline[i].id@);
            assert(after[i] == before[i]);
        }
    }
}

/// The settings of the broker connection, of the proxy and of the subscription are the configured
/// ones.
pub proof fn law_settings_are_the_configured_ones(
    mqtt_config: MqttConfig,
    proxy_config: ProxyConfig,
    subscription: SubscriptionConfig,
)
    ensures
        ({
            let m = <mqtt::MqttConfig as vstd::std_specs::convert::FromSpec<&MqttConfig>>::from_spec(
                &mqtt_config,
            );
            &&& m.host == mqtt_config.host && m.port == mqtt_config.port
            &&& m.client_id == mqtt_config.client_id && m.capacity == mqtt_config.capacity
            &&& m.keep_alive == seconds(mqtt_config.keep_alive_secs)
            &&& m.service_name == mqtt_config.service_name
        }),
        ({
            let p = <proxy::ProxyConfig as vstd::std_specs::convert::FromSpec<&ProxyConfig>>::from_spec(
                &proxy_config,
            );
            &&& p.base_url == proxy_config.base_url
            &&& p.timeout == seconds(proxy_config.timeout_secs)
            &&& p.client_cert == proxy_config.client_cert
            &&& p.client_key == proxy_config.client_key && p.ca_cert == proxy_config.ca_cert
        }),
        ({
            let s = <SubscriptionParams as vstd::std_specs::convert::FromSpec<
                &SubscriptionConfig,
            >>::from_spec(&subscription);
            &&& s.publishing_interval == milliseconds(subscription.publishing_interval_ms)
            &&& s.lifetime_count == subscription.lifetime_count
            &&& s.max_keep_alive_count == subscription.max_keep_alive_count
            &&& s.max_notifications_per_publish == subscription.max_notifications_per_publish
            &&& s.priority == subscription.priority
        }),
{
}

/// An interval is the configured one, and a second where none is configured.
pub proof fn law_intervals_are_never_zero(n: u64)
    ensures
        at_least_one(n) >= 1,
        n >= 1 ==> at_least_one(n) == n,
        n == 0 ==> at_least_one(n) == 1,
{
}

/// Validation passes a configuration exactly when nothing is wrong with it, and reports what is.
pub proof fn law_validation_reports_what_is_wrong(
    config: Config,
    mapping_dir_exists: bool,
    r: Result<(), ConfigError>,
)
    requires
        call_ensures(Config::validate, (&config, mapping_dir_exists), r),
    ensures
        r is Ok <==> config_error(config, mapping_dir_exists) is None,
        r matches Err(e) ==> config_error(config, mapping_dir_exists) == Some(e.deep_view()),
{
}

/// Pushed servers are refused exactly when two share an id, and that id is reported.
pub proof fn law_pushed_ids_have_to_be_unique(
    pushed: Vec<ServerConfig>,
    r: Result<(), ConfigError>,
)
    requires
        call_ensures(check_pushed, (&pushed,), r),
    ensures
        r is Err <==> exists|i: int, j: int|
            0 <= i < j < pushed@.len() && (#[trigger] pushed@[i]).id@ == (#[trigger] pushed@[j]).id@,
        r matches Err(e) ==> exists|i: int, j: int|
            0 <= i < j < pushed@.len() && (#[trigger] pushed@[i]).id@ == (#[trigger] pushed@[j]).id@
                && e.deep_view() == (ConfigErrorView::DuplicateServerId { id: pushed@[j].id@ }),
{
    if let Err(e) = r {
        let j = choose|i: int|
            #![trigger comes_again(pushed@, i)]
            0 <= i < pushed@.len() && comes_again(pushed@, i) && (forall|k: int|
                0 <= k < i ==> !comes_again(pushed@, k)) && e.deep_view()
                == (ConfigErrorView::DuplicateServerId { id: pushed@[i].id@ });
        let i = choose|i: int| 0 <= i < j && (#[trigger] pushed@[i]).id@ == pushed@[j].id@;
        assert(pushed@[i].id@ == pushed@[j].id@);
    }
}

/// The device id has to be found out exactly where there is a gateway device without one.
pub proof fn law_the_device_id_is_found_out_where_missing(config: Config, r: bool)
    requires
        call_ensures(Config::needs_device_id, (&config,), r),
    ensures
        r <==> config.gateway.enabled && is_blank(config.gateway.device_id@),
{
}

/// The times that are waited are the configured ones; the servers are polled after a second where
/// no interval is configured.
pub proof fn law_times_are_the_configured_ones(
    config: Config,
    connecting: Duration,
    longest: Duration,
    polling: Duration,
)
    requires
        call_ensures(Config::connect_timeout, (&config,), connecting),
        call_ensures(Config::max_backoff, (&config,), longest),
        call_ensures(Config::server_poll_interval, (&config,), polling),
    ensures
        connecting == seconds(config.runtime.connect_timeout_secs),
        longest == seconds(config.runtime.max_backoff_secs),
        config.gateway.server_poll_interval_secs > 0 ==> polling == seconds(
            config.gateway.server_poll_interval_secs,
        ),
        config.gateway.server_poll_interval_secs == 0 ==> polling == seconds(1),
{
}

} // verus!
