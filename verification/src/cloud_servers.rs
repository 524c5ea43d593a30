//! Servers registered on the gateway device in Cumulocity — the third server source.
//!
//! A `c8y_OpcuaServer` managed object is created below the gateway object when a server is added
//! in the user interface. These are read back and handed to the supervisor, which starts and stops
//! server tasks to match.
//!
//! Two things are worth knowing about the shape of this.
//!
//! A server object arrives with no external id, so thin-edge cannot see it and telemetry published
//! for it would create a second device. One external id is planted on the object to adopt it — the
//! only write this gateway makes, idempotent and once per server. From then on the server's
//! registration, telemetry and twin data all travel over MQTT.
//!
//! The server's local id becomes its managed object id, which makes
//! `applyConstraints.matchesServerIds` work as authored: a device type authored in Cumulocity names
//! server object ids, and so does this gateway.
use crate::clock::{doubled, next_backoff};
use crate::config::{adopted_external_id, Config, GatewayConfig, ServerConfig, ServerView};
use crate::json::{member, text_member, Json, JsonView};
use crate::payload::or_empty;
use crate::proxy::{object_id_of, transient, ProxyError};
use crate::text::{self, ascii_lowercase, is_blank, same_ignoring_case};
use vstd::prelude::*;

verus! {

/// Cumulocity identity type used for every external id in this gateway, matching thin-edge.
pub const ID_TYPE: &'static str = "c8y_Serial";

/// Managed object type of a server registered on the gateway.
const SERVER_MO_TYPE: &'static str = "c8y_OpcuaServer";

/// Fragment holding the OPC UA client configuration of a server object.
const CLIENT_CONFIG_FRAGMENT: &'static str = "c8y_ua_ClientConfig";

pub const PAGE_SIZE: u32 = 100;

/// Upper bound on pages read per poll, so a misbehaving tenant cannot spin us forever.
pub const MAX_PAGES: u32 = 20;

/// Consecutive failed lookups of the gateway's own managed object before saying so out loud.
///
/// A few misses are normal on a cold start: the mapper may not have created the object yet, or may
/// not be able to reach Cumulocity. Persistent misses mean it is not coming — most likely because
/// the object was deleted in Cumulocity, which thin-edge cannot undo. See
/// [`crate::gateway_device::missing_object_help`].
const MISSES_BEFORE_HELP: u32 = 5;

// Server objects ---------------------------------------------------------------------

/// The credentials that a client configuration asks for: none for an anonymous user, else a user
/// name and a password. `None` where the server must not be started.
pub open spec fn credentials_of(client_config: JsonView) -> Option<
    (Option<Seq<char>>, Option<Seq<char>>),
> {
    let mode = match text_member(client_config, "userIdentityMode"@) {
        Some(mode) => mode,
        None => "Anonymous"@,
    };
    let user = text_member(client_config, "userName"@);
    let password = text_member(client_config, "userPassword"@);
    if same_ignoring_case(mode, "anonymous"@) {
        Some((None, None))
    } else if member(client_config, "passwordEncrypted"@) == Some(JsonView::Bool(true)) {
        None
    } else {
        match (user, password) {
            (Some(u), Some(p)) => if !is_blank(u) && p.len() > 0 {
                Some((user, password))
            } else {
                None
            },
            _ => None,
        }
    }
}

/// User credentials from the client configuration, if it asks for them.
///
/// `Err(())` means the server must not be started: it wants a password this gateway cannot
/// produce. An encrypted password needs the key store that it was encrypted for, and this gateway
/// has none — so such a password is unreadable here by construction, and connecting anonymously
/// instead would fail in a far less obvious way.
pub fn credentials(client_config: &Json) -> (r: Result<(Option<String>, Option<String>), ()>)
    ensures
        r is Ok == credentials_of(client_config.model()) is Some,
        r matches Ok(c) ==> credentials_of(client_config.model()) == Some(
            (c.0.deep_view(), c.1.deep_view()),
        ),
{
    let mode: &str = match client_config.get_str("userIdentityMode") {
        Some(mode) => mode,
        None => "Anonymous",
    };
    if text::eq_ignore_ascii_case(mode, "anonymous") {
        return Ok((None, None));
    }
    let encrypted: bool = match client_config.get("passwordEncrypted") {
        Some(flag) => match flag.as_bool() {
            Some(flag) => flag,
            None => false,
        },
        None => false,
    };
    if encrypted {
        return Err(());
    }
    match (client_config.get_str("userName"), client_config.get_str("userPassword")) {
        (Some(user), Some(password)) => {
            if text::blank(user) || text::is_empty(password) {
                Err(())
            } else {
                Ok((Some(user.to_owned()), Some(password.to_owned())))
            }
        },
        _ => Err(()),
    }
}

/// The server that an object describes, where it may be started: it has a client configuration
/// with a URL, it is not disabled, it asks for no security, and for no credentials that cannot be
/// had.
pub open spec fn server_of(gateway: GatewayConfig, mo_id: Seq<char>, mo: JsonView) -> Option<
    ServerView,
> {
    match member(mo, "c8y_ua_ClientConfig"@) {
        None => None,
        Some(client_config) => {
            let url = text_member(client_config, "serverUrl"@);
            let state = text_member(client_config, "targetConnectionState"@);
            let mode = text_member(client_config, "securityMode"@);
            if url is None || is_blank(url->Some_0) {
                None
            } else if state matches Some(state) && same_ignoring_case(state, "disabled"@) {
                None
            } else if mode matches Some(mode) && !same_ignoring_case(mode, "none"@) {
                None
            } else {
                match credentials_of(client_config) {
                    None => None,
                    Some((user, password)) => Some(
                        ServerView {
                            id: mo_id,
                            name: match text_member(mo, "name"@) {
                                Some(name) => name,
                                None => mo_id,
                            },
                            url: url->Some_0,
                            security_policy: "None"@,
                            user,
                            password,
                            device_types: Seq::empty(),
                            external_id: Some(adopted_external_id(gateway, mo_id)),
                            topic_id: Some(mo_id),
                        },
                    ),
                }
            }
        },
    }
}

/// Convert a `c8y_OpcuaServer` object into a server this gateway can run.
///
/// Returns `None` for a server that must not be started.
pub fn to_server_config(config: &Config, mo_id: &str, mo: &Json) -> (r: Option<ServerConfig>)
    ensures
        r.deep_view() == server_of(config.gateway, mo_id@, mo.model()),
{
    let name: &str = match mo.get_str("name") {
        Some(name) => name,
        None => mo_id,
    };
    let client_config: &Json = match mo.get(CLIENT_CONFIG_FRAGMENT) {
        Some(client_config) => client_config,
        None => {
            return None;
        },
    };
    let url: &str = match client_config.get_str("serverUrl") {
        Some(url) => url,
        None => {
            return None;
        },
    };
    if text::blank(url) {
        return None;
    }
    if let Some(state) = client_config.get_str("targetConnectionState") {
        if text::eq_ignore_ascii_case(state, "disabled") {
            return None;
        }
    }
    // `securityMode` is Cumulocity's name for what OPC UA calls the security policy. Only `NONE`
    // is supported here: a secured endpoint needs an application instance certificate.
    if let Some(mode) = client_config.get_str("securityMode") {
        if !text::eq_ignore_ascii_case(mode, "none") {
            return None;
        }
    }
    let (user, password): (Option<String>, Option<String>) = match credentials(client_config) {
        Ok(credentials) => credentials,
        Err(()) => {
            return None;
        },
    };
    // Scoping is done by `matchesServerIds` for a cloud-registered server, which works because the
    // local id is the managed object id the device type was authored against.
    let device_types: Vec<String> = Vec::new();
    proof {
        assert(device_types.deep_view() =~= Seq::empty());
    }
    Some(
        ServerConfig {
            id: mo_id.to_owned(),
            name: name.to_owned(),
            url: url.to_owned(),
            security_policy: "None".to_owned(),
            user,
            password,
            device_types,
            external_id: Some(config.gateway.server_external_id(mo_id)),
            topic_id: Some(mo_id.to_owned()),
        },
    )
}

/// Why a server is not started.
#[derive(Debug, Clone, Copy, PartialEq, Eq, Structural)]
pub enum SkipReason {
    /// The object has no client configuration.
    NoClientConfig,
    /// The client configuration has no server URL.
    NoServerUrl,
    /// The server is disabled in Cumulocity.
    Disabled,
    /// The server asks for a secured endpoint, which needs an application instance certificate
    /// this gateway does not have.
    SecuredEndpoint,
    /// The server has an encrypted password, which cannot be decrypted here. Configure this server
    /// on the device instead.
    EncryptedPassword,
    /// The server asks for user authentication but carries no usable user name and password.
    NoCredentials,
}

/// The first reason not to start the server that an object describes, if there is one.
pub open spec fn skip_of(mo: JsonView) -> Option<SkipReason> {
    match member(mo, "c8y_ua_ClientConfig"@) {
        None => Some(SkipReason::NoClientConfig),
        Some(client_config) => {
            let url = text_member(client_config, "serverUrl"@);
            let state = text_member(client_config, "targetConnectionState"@);
            let mode = text_member(client_config, "securityMode"@);
            if url is None || is_blank(url->Some_0) {
                Some(SkipReason::NoServerUrl)
            } else if state matches Some(state) && same_ignoring_case(state, "disabled"@) {
                Some(SkipReason::Disabled)
            } else if mode matches Some(mode) && !same_ignoring_case(mode, "none"@) {
                Some(SkipReason::SecuredEndpoint)
            } else if credentials_of(client_config) is Some {
                None
            } else if member(client_config, "passwordEncrypted"@) == Some(JsonView::Bool(true)) {
                Some(SkipReason::EncryptedPassword)
            } else {
                Some(SkipReason::NoCredentials)
            }
        },
    }
}

/// Why the server that an object describes is not started; `None` where it is.
pub fn skip_reason(mo: &Json) -> (r: Option<SkipReason>)
    ensures
        r == skip_of(mo.model()),
{
    let client_config: &Json = match mo.get(CLIENT_CONFIG_FRAGMENT) {
        Some(client_config) => client_config,
        None => {
            return Some(SkipReason::NoClientConfig);
        },
    };
    match client_config.get_str("serverUrl") {
        Some(url) => {
            if text::blank(url) {
                return Some(SkipReason::NoServerUrl);
            }
        },
        None => {
            return Some(SkipReason::NoServerUrl);
        },
    }
    if let Some(state) = client_config.get_str("targetConnectionState") {
        if text::eq_ignore_ascii_case(state, "disabled") {
            return Some(SkipReason::Disabled);
        }
    }
    if let Some(mode) = client_config.get_str("securityMode") {
        if !text::eq_ignore_ascii_case(mode, "none") {
            return Some(SkipReason::SecuredEndpoint);
        }
    }
    if credentials(client_config).is_ok() {
        return None;
    }
    let encrypted: bool = match client_config.get("passwordEncrypted") {
        Some(flag) => match flag.as_bool() {
            Some(flag) => flag,
            None => false,
        },
        None => false,
    };
    if encrypted {
        Some(SkipReason::EncryptedPassword)
    } else {
        Some(SkipReason::NoCredentials)
    }
}

/// Whether a managed object is a server.
pub fn is_server_object(mo: &Json) -> (r: bool)
    ensures
        r == (text_member(mo.model(), "type"@) == Some("c8y_OpcuaServer"@)),
{
    match mo.get_str("type") {
        Some(type_) => text::same(type_, SERVER_MO_TYPE),
        None => false,
    }
}

// Reading them -----------------------------------------------------------------------

/// The references of a page of child devices.
pub open spec fn references_of(body: JsonView) -> Seq<JsonView> {
    match member(body, "references"@) {
        Some(JsonView::Array(items)) => items,
        _ => Seq::empty(),
    }
}

/// The managed objects that a page of child devices refers to, by position; `None` where a
/// reference names none. The reference carries only id, name and self, so the object itself has to
/// be read for its client configuration.
pub fn child_references(body: &Json) -> (r: Vec<Option<String>>)
    ensures
        r.deep_view() == references_of(body.model()).map_values(|v: JsonView| object_id_of(v)),
{
    let mut out: Vec<Option<String>> = Vec::new();
    let ghost expected = references_of(body.model()).map_values(|v: JsonView| object_id_of(v));
    if let Some(references) = body.get("references") {
        if let Some(items) = references.as_array() {
            let mut i: usize = 0;
            while i < items.len()
                invariant
                    i <= items@.len(),
                    references_of(body.model()) == items.deep_view(),
                    out@.len() == i,
                    forall|j: int|
                        0 <= j < i ==> #[trigger] out@[j].deep_view() == object_id_of(
                            items@[j].model(),
                        ),
                decreases items@.len() - i,
            {
                let id: Option<String> = match items[i].get("managedObject") {
                    Some(mo) => match mo.get("id") {
                        Some(id) => match id.as_str() {
                            Some(id) => Some(id.to_owned()),
                            None => None,
                        },
                        None => None,
                    },
                    None => None,
                };
                out.push(id);
                i = i + 1;
            }
        }
    }
    proof {
        assert(out.deep_view() =~= expected);
    }
    out
}

/// The page to read after `page`, which held `references` references: none behind one that is not
/// full, and none behind the last that may be read.
pub fn next_page(page: u32, references: usize) -> (r: Option<u32>)
    ensures
        r == (if references < 100 || page >= 20 {
            None
        } else {
            Some((page + 1) as u32)
        }),
{
    if references < PAGE_SIZE as usize || page >= MAX_PAGES {
        None
    } else {
        Some(page + 1)
    }
}

/// What is to be done about the external id of a server object.
#[derive(Debug, PartialEq, Eq)]
pub enum Adoption {
    /// It is there.
    Done,
    /// It names another object, which must not be touched.
    ClaimedBy(String),
    /// It has to be planted.
    Plant,
    /// Whether it is there is not known.
    Unknown,
}

/// Decides from what a server's external id resolves to whether it is planted.
///
/// Skipped when the external id already resolves. If it resolves to a *different* object something
/// is badly wrong — two gateways sharing an id, or a hand-made external id — and overwriting would
/// send this server's data to a stranger, so it is reported and left alone.
pub fn adopt(mo_id: &str, resolved: Result<Option<String>, ProxyError>) -> (r: Adoption)
    ensures
        match resolved {
            Ok(Some(existing)) => if existing@ == mo_id@ {
                r == Adoption::Done
            } else {
                r == Adoption::ClaimedBy(existing)
            },
            Ok(None) => r == Adoption::Plant,
            Err(_) => r == Adoption::Unknown,
        },
{
    match resolved {
        Ok(Some(existing)) => if text::same(existing.as_str(), mo_id) {
            Adoption::Done
        } else {
            Adoption::ClaimedBy(existing)
        },
        Ok(None) => Adoption::Plant,
        Err(_) => Adoption::Unknown,
    }
}

// Revisions --------------------------------------------------------------------------

/// The end of a field.
pub open spec fn field_end() -> Seq<char> {
    seq!['\u{1}']
}

/// The end of a server.
pub open spec fn server_end() -> Seq<char> {
    seq!['\u{2}']
}

/// What a revision says of one server.
pub open spec fn server_record(s: ServerView) -> Seq<char> {
    s.id + (field_end() + (s.name + (field_end() + (s.url + (field_end() + (s.security_policy + (
    field_end() + (or_empty(s.user) + (field_end() + (or_empty(s.password) + server_end()))))))))))
}

/// The fingerprint of a set of servers.
pub open spec fn revision_text(servers: Seq<ServerView>) -> Seq<char>
    decreases servers.len(),
{
    if servers.len() == 0 {
        Seq::empty()
    } else {
        revision_text(servers.drop_last()) + server_record(servers.last())
    }
}

fn push_option(out: &mut String, s: &Option<String>)
    ensures
        final(out)@ == old(out)@ + or_empty(s.deep_view()),
{
    match s {
        Some(s) => {
            out.append(s.as_str());
        },
        None => {
            proof {
                assert(out@ + Seq::empty() =~= out@);
            }
        },
    }
}

/// Fingerprint of the current server set, so an unchanged poll publishes nothing.
pub fn revision_of(servers: &[ServerConfig]) -> (r: String)
    ensures
        r@ == revision_text(servers@.map_values(|s: ServerConfig| s.deep_view())),
{
    let ghost all = servers@.map_values(|s: ServerConfig| s.deep_view());
    let mut out: String = String::new();
    let mut i: usize = 0;
    proof {
        assert(all.take(0) =~= Seq::empty());
    }
    while i < servers.len()
        invariant
            i <= servers@.len(),
            all == servers@.map_values(|s: ServerConfig| s.deep_view()),
            out@ == revision_text(all.take(i as int)),
        decreases servers@.len() - i,
    {
        let server: &ServerConfig = &servers[i];
        let ghost before = out@;
        out.append(server.id.as_str());
        out.push('\u{1}');
        out.append(server.name.as_str());
        out.push('\u{1}');
        out.append(server.url.as_str());
        out.push('\u{1}');
        out.append(server.security_policy.as_str());
        out.push('\u{1}');
        push_option(&mut out, &server.user);
        out.push('\u{1}');
        push_option(&mut out, &server.password);
        out.push('\u{2}');
        proof {
            assert(all.take(i + 1).drop_last() =~= all.take(i as int));
            assert(all.take(i + 1).last() == server.deep_view());
            assert(out@ =~= before + server_record(server.deep_view()));
        }
        i = i + 1;
    }
    proof {
        assert(all.take(i as int) =~= all);
    }
    out
}

// Polling ----------------------------------------------------------------------------

/// The state of the poll for servers registered in Cumulocity.
///
/// Nothing here is fatal. A missing gateway object simply means the mapper has not created it yet;
/// a cloud outage means the servers already known keep running.
#[derive(Debug)]
pub struct CloudPoll {
    /// The gateway's managed object, once it was found.
    pub gateway_mo_id: Option<String>,
    /// Fingerprint of the servers that were handed on last.
    pub revision: String,
    /// Lookups in a row that did not find the gateway's managed object.
    pub misses: u32,
    /// Seconds to wait after the next failure.
    pub backoff: u64,
}

/// What follows a lookup of the gateway's managed object.
#[derive(Debug, Clone, Copy, PartialEq, Eq, Structural)]
pub struct AfterLookup {
    /// Say that the object is not coming back.
    pub help: bool,
    /// Wait this many seconds rather than the poll interval.
    pub retry_in: Option<u64>,
}

/// What follows reading the servers.
#[derive(Debug)]
pub struct AfterFetch {
    /// The servers to hand on, where they have changed.
    pub publish: Option<Vec<ServerConfig>>,
    /// Wait this many seconds rather than the poll interval.
    pub retry_in: Option<u64>,
}

pub open spec fn one_more(n: u32) -> u32 {
    if n < u32::MAX {
        (n + 1) as u32
    } else {
        n
    }
}

impl CloudPoll {
    pub fn new() -> (r: Self)
        ensures
            r.gateway_mo_id is None,
            r.revision@.len() == 0,
            r.misses == 0,
            r.backoff == 1,
    {
        CloudPoll { gateway_mo_id: None, revision: String::new(), misses: 0, backoff: 1 }
    }

    /// Takes the answer to the lookup of the gateway's own managed object.
    pub fn looked_up(&mut self, found: Result<Option<String>, ProxyError>, max_backoff: u64) -> (r:
        AfterLookup)
        ensures
            final(self).revision == old(self).revision,
            match found {
                Ok(Some(id)) => {
                    &&& final(self).gateway_mo_id == Some(id)
                    &&& final(self).misses == 0
                    &&& final(self).backoff == 1
                    &&& r == (AfterLookup { help: false, retry_in: None })
                },
                Ok(None) => {
                    &&& final(self).gateway_mo_id == old(self).gateway_mo_id
                    &&& final(self).misses == one_more(old(self).misses)
                    &&& final(self).backoff == doubled(old(self).backoff, max_backoff)
                    &&& r == (AfterLookup {
                        help: final(self).misses == 5,
                        retry_in: Some(old(self).backoff),
                    })
                },
                Err(_) => {
                    &&& final(self).gateway_mo_id == old(self).gateway_mo_id
                    &&& final(self).misses == old(self).misses
                    &&& final(self).backoff == doubled(old(self).backoff, max_backoff)
                    &&& r == (AfterLookup { help: false, retry_in: Some(old(self).backoff) })
                },
            },
    {
        let waited: u64 = self.backoff;
        match found {
            Ok(Some(id)) => {
                self.gateway_mo_id = Some(id);
                self.misses = 0;
                self.backoff = 1;
                AfterLookup { help: false, retry_in: None }
            },
            Ok(None) => {
                if self.misses < u32::MAX {
                    self.misses = self.misses + 1;
                }
                self.backoff = next_backoff(waited, max_backoff);
                // Said once, at the point where waiting has stopped being plausible.
                AfterLookup { help: self.misses == MISSES_BEFORE_HELP, retry_in: Some(waited) }
            },
            Err(_) => {
                self.backoff = next_backoff(waited, max_backoff);
                AfterLookup { help: false, retry_in: Some(waited) }
            },
        }
    }

    /// Takes the servers that were read, or why they could not be.
    pub fn fetched(&mut self, servers: Result<Vec<ServerConfig>, ProxyError>, max_backoff: u64) -> (
    r: AfterFetch)
        ensures
            final(self).misses == old(self).misses,
            match servers {
                Ok(servers) => {
                    let fresh = revision_text(
                        servers@.map_values(|s: ServerConfig| s.deep_view()),
                    );
                    &&& final(self).gateway_mo_id == old(self).gateway_mo_id
                    &&& final(self).backoff == 1
                    &&& final(self).revision@ == fresh
                    &&& r.retry_in is None
                    &&& r.publish == (if fresh == old(self).revision@ {
                        None
                    } else {
                        Some(servers)
                    })
                },
                Err(error) => {
                    &&& final(self).revision == old(self).revision
                    &&& r.publish is None
                    &&& if transient(error) {
                        &&& final(self).gateway_mo_id == old(self).gateway_mo_id
                        &&& final(self).backoff == doubled(old(self).backoff, max_backoff)
                        &&& r.retry_in == Some(old(self).backoff)
                    } else {
                        &&& final(self).gateway_mo_id == (if error matches ProxyError::Status {
                            status,
                            ..
                        } && status == 404 {
                            None
                        } else {
                            old(self).gateway_mo_id
                        })
                        &&& final(self).backoff == old(self).backoff
                        &&& r.retry_in is None
                    }
                },
            },
    {
        match servers {
            Ok(servers) => {
                self.backoff = 1;
                let fresh: String = revision_of(servers.as_slice());
                if text::same(fresh.as_str(), self.revision.as_str()) {
                    AfterFetch { publish: None, retry_in: None }
                } else {
                    self.revision = fresh;
                    AfterFetch { publish: Some(servers), retry_in: None }
                }
            },
            Err(error) => {
                if error.is_transient() {
                    let waited: u64 = self.backoff;
                    self.backoff = next_backoff(waited, max_backoff);
                    return AfterFetch { publish: None, retry_in: Some(waited) };
                }
                if let ProxyError::Status { status, .. } = &error {
                    if *status == 404 {
                        // The gateway object was deleted in the cloud. Look it up again rather
                        // than polling a dead id forever.
                        self.gateway_mo_id = None;
                    }
                }
                AfterFetch { publish: None, retry_in: None }
            },
        }
    }
}

// Laws -------------------------------------------------------------------------------

/// A server that is started from the cloud is adopted, is addressed by its managed object, and
/// takes no security.
pub proof fn law_cloud_servers_are_addressed_by_object(
    gateway: GatewayConfig,
    mo_id: Seq<char>,
    mo: JsonView,
)
    requires
        server_of(gateway, mo_id, mo) is Some,
    ensures
        server_of(gateway, mo_id, mo)->Some_0.id == mo_id,
        server_of(gateway, mo_id, mo)->Some_0.topic_id == Some(mo_id),
        server_of(gateway, mo_id, mo)->Some_0.external_id == Some(
            adopted_external_id(gateway, mo_id),
        ),
        server_of(gateway, mo_id, mo)->Some_0.security_policy == "None"@,
{
}

/// No server is skipped in silence: it is started, or there is a reason.
pub proof fn law_no_server_is_skipped_in_silence(
    gateway: GatewayConfig,
    mo_id: Seq<char>,
    mo: JsonView,
)
    ensures
        server_of(gateway, mo_id, mo) is Some <==> skip_of(mo) is None,
{
}

/// A server is started either with no credentials at all or with both a user name and a password,
/// and never with an encrypted one.
pub proof fn law_credentials_are_complete(client_config: JsonView)
    requires
        credentials_of(client_config) is Some,
    ensures
        ({
            let (user, password) = credentials_of(client_config)->Some_0;
            &&& user is Some == password is Some
            &&& user is Some ==> member(client_config, "passwordEncrypted"@) != Some(
                JsonView::Bool(true),
            )
            &&& user matches Some(u) ==> !is_blank(u)
            &&& password matches Some(p) ==> p.len() > 0
        }),
{
}

/// No separator of a revision occurs in a text.
pub open spec fn plain(s: Seq<char>) -> bool {
    !s.contains('\u{1}') && !s.contains('\u{2}')
}

/// No separator of a revision occurs in what it says of a server.
pub open spec fn plain_server(s: ServerView) -> bool {
    plain(s.id) && plain(s.name) && plain(s.url) && plain(s.security_policy) && plain(
        or_empty(s.user),
    ) && plain(or_empty(s.password))
}

/// What a revision tells servers apart by.
pub open spec fn relevant(s: ServerView) -> (
    Seq<char>,
    Seq<char>,
    Seq<char>,
    Seq<char>,
    Seq<char>,
    Seq<char>,
) {
    (s.id, s.name, s.url, s.security_policy, or_empty(s.user), or_empty(s.password))
}

proof fn lemma_field(a: Seq<char>, x: Seq<char>, b: Seq<char>, y: Seq<char>)
    requires
        plain(a),
        plain(b),
        a + (field_end() + x) == b + (field_end() + y),
    ensures
        a == b,
        x == y,
{
    let s = a + (field_end() + x);
    let t = b + (field_end() + y);
    assert(s[a.len() as int] == '\u{1}');
    assert(t[b.len() as int] == '\u{1}');
    if a.len() < b.len() {
        assert(t[a.len() as int] == b[a.len() as int]);
        assert(b.contains(b[a.len() as int]));
    } else if b.len() < a.len() {
        assert(s[b.len() as int] == a[b.len() as int]);
        assert(a.contains(a[b.len() as int]));
    }
    assert(a =~= s.take(a.len() as int));
    assert(b =~= t.take(b.len() as int));
    assert(x =~= s.skip(a.len() as int + 1));
    assert(y =~= t.skip(b.len() as int + 1));
}

proof fn lemma_record(a: ServerView, b: ServerView)
    requires
        plain_server(a),
        plain_server(b),
        server_record(a) == server_record(b),
    ensures
        relevant(a) == relevant(b),
{
    let a5 = or_empty(a.password) + server_end();
    let b5 = or_empty(b.password) + server_end();
    let a4 = or_empty(a.user) + (field_end() + a5);
    let b4 = or_empty(b.user) + (field_end() + b5);
    let a3 = a.security_policy + (field_end() + a4);
    let b3 = b.security_policy + (field_end() + b4);
    let a2 = a.url + (field_end() + a3);
    let b2 = b.url + (field_end() + b3);
    let a1 = a.name + (field_end() + a2);
    let b1 = b.name + (field_end() + b2);
    lemma_field(a.id, a1, b.id, b1);
    lemma_field(a.name, a2, b.name, b2);
    lemma_field(a.url, a3, b.url, b3);
    lemma_field(a.security_policy, a4, b.security_policy, b4);
    lemma_field(or_empty(a.user), a5, or_empty(b.user), b5);
    assert(or_empty(a.password) =~= a5.drop_last());
    assert(or_empty(b.password) =~= b5.drop_last());
}

/// The end of a server stands at the end of its record and nowhere else.
proof fn lemma_record_end(s: ServerView)
    requires
        plain_server(s),
    ensures
        server_record(s).len() > 0,
        server_record(s).last() == '\u{2}',
        forall|i: int|
            0 <= i < server_record(s).len() - 1 ==> #[trigger] server_record(s)[i] != '\u{2}',
{
    let r = server_record(s);
    let n0 = s.id.len() as int;
    let n1 = n0 + 1 + s.name.len();
    let n2 = n1 + 1 + s.url.len();
    let n3 = n2 + 1 + s.security_policy.len();
    let n4 = n3 + 1 + or_empty(s.user).len();
    let n5 = n4 + 1 + or_empty(s.password).len();
    assert(r.len() == n5 + 1);
    assert forall|i: int| 0 <= i < r.len() - 1 implies #[trigger] r[i] != '\u{2}' by {
        if i < n0 {
            assert(r[i] == s.id[i]);
            assert(s.id.contains(s.id[i]));
        } else if i == n0 {
        } else if i < n1 {
            assert(r[i] == s.name[i - n0 - 1]);
            assert(s.name.contains(s.name[i - n0 - 1]));
        } else if i == n1 {
        } else if i < n2 {
            assert(r[i] == s.url[i - n1 - 1]);
            assert(s.url.contains(s.url[i - n1 - 1]));
        } else if i == n2 {
        } else if i < n3 {
            assert(r[i] == s.security_policy[i - n2 - 1]);
            assert(s.security_policy.contains(s.security_policy[i - n2 - 1]));
        } else if i == n3 {
        } else if i < n4 {
            assert(r[i] == or_empty(s.user)[i - n3 - 1]);
            assert(or_empty(s.user).contains(or_empty(s.user)[i - n3 - 1]));
        } else if i == n4 {
        } else {
            assert(r[i] == or_empty(s.password)[i - n4 - 1]);
            assert(or_empty(s.password).contains(or_empty(s.password)[i - n4 - 1]));
        }
    }
}

proof fn lemma_revision_end(servers: Seq<ServerView>)
    requires
        forall|i: int| 0 <= i < servers.len() ==> plain_server(#[trigger] servers[i]),
    ensures
        servers.len() > 0 ==> revision_text(servers).len() > 0 && revision_text(servers).last()
            == '\u{2}',
{
    if servers.len() > 0 {
        lemma_record_end(servers[servers.len() - 1]);
    }
}

/// Only the end of a record can stand at its end, so that the last one is found again.
proof fn lemma_last_record(pa: Seq<char>, ra: Seq<char>, pb: Seq<char>, rb: Seq<char>)
    requires
        pa + ra == pb + rb,
        pa.len() > 0 ==> pa.last() == '\u{2}',
        pb.len() > 0 ==> pb.last() == '\u{2}',
        ra.len() > 0,
        rb.len() > 0,
        forall|i: int| 0 <= i < ra.len() - 1 ==> #[trigger] ra[i] != '\u{2}',
        forall|i: int| 0 <= i < rb.len() - 1 ==> #[trigger] rb[i] != '\u{2}',
    ensures
        pa == pb,
        ra == rb,
{
    let s = pa + ra;
    let t = pb + rb;
    assert(s.len() == pa.len() + ra.len());
    assert(t.len() == pb.len() + rb.len());
    if pa.len() > pb.len() {
        let k = pa.len() - 1;
        assert(s[k] == '\u{2}');
        assert(t[k] == rb[k - pb.len()]);
    } else if pb.len() > pa.len() {
        let k = pb.len() - 1;
        assert(t[k] == '\u{2}');
        assert(s[k] == ra[k - pa.len()]);
    }
    assert(pa =~= s.take(pa.len() as int));
    assert(pb =~= t.take(pb.len() as int));
    assert(ra =~= s.skip(pa.len() as int));
    assert(rb =~= t.skip(pb.len() as int));
}

/// The revision changes only when something relevant does, and then it does: two lists of servers
/// have the same revision exactly when their ids, names, URLs, policies and credentials agree.
/// Texts that hold one of the two separators are left out.
pub proof fn law_revision_follows_what_is_relevant(a: Seq<ServerView>, b: Seq<ServerView>)
    requires
        forall|i: int| 0 <= i < a.len() ==> plain_server(#[trigger] a[i]),
        forall|i: int| 0 <= i < b.len() ==> plain_server(#[trigger] b[i]),
    ensures
        revision_text(a) == revision_text(b) <==> (a.len() == b.len() && forall|i: int|
            0 <= i < a.len() ==> relevant(#[trigger] a[i]) == relevant(b[i])),
    decreases a.len(),
{
    if a.len() == 0 || b.len() == 0 {
        lemma_revision_end(a);
        lemma_revision_end(b);
    } else {
        let a1 = a.drop_last();
        let b1 = b.drop_last();
        let x = a[a.len() - 1];
        let y = b[b.len() - 1];
        assert(forall|i: int| 0 <= i < a1.len() ==> a1[i] == a[i]);
        assert(forall|i: int| 0 <= i < b1.len() ==> b1[i] == b[i]);
        law_revision_follows_what_is_relevant(a1, b1);
        if revision_text(a) == revision_text(b) {
            lemma_record_end(x);
            lemma_record_end(y);
            lemma_revision_end(a1);
            lemma_revision_end(b1);
            lemma_last_record(
                revision_text(a1),
                server_record(x),
                revision_text(b1),
                server_record(y),
            );
            lemma_record(x, y);
            assert forall|i: int| 0 <= i < a.len() implies relevant(#[trigger] a[i]) == relevant(
                b[i],
            ) by {
                if i < a1.len() {
                    assert(relevant(a1[i]) == relevant(b1[i]));
                }
            }
        } else if a.len() == b.len() && forall|i: int|
            0 <= i < a.len() ==> relevant(#[trigger] a[i]) == relevant(b[i]) {
            assert forall|i: int| 0 <= i < a1.len() implies relevant(#[trigger] a1[i]) == relevant(
                b1[i],
            ) by {
                assert(relevant(a[i]) == relevant(b[i]));
            }
            assert(relevant(a[a.len() - 1]) == relevant(b[b.len() - 1]));
        }
    }
}

/// A client configuration with an address, which is not disabled and asks for no security.
pub open spec fn is_open_endpoint(client_config: JsonView) -> bool {
    &&& text_member(client_config, "serverUrl"@) matches Some(url) && !is_blank(url)
    &&& text_member(client_config, "targetConnectionState"@) matches Some(state)
        ==> ascii_lowercase(state) != "disabled"@
    &&& text_member(client_config, "securityMode"@) matches Some(mode) ==> ascii_lowercase(mode)
        == "none"@
}

proof fn lemma_words()
    ensures
        ascii_lowercase("disabled"@) == "disabled"@,
        ascii_lowercase("none"@) == "none"@,
        ascii_lowercase("anonymous"@) == "anonymous"@,
        ascii_lowercase("Anonymous"@) == "anonymous"@,
{
    reveal_strlit("disabled");
    reveal_strlit("none");
    reveal_strlit("anonymous");
    reveal_strlit("Anonymous");
    assert(ascii_lowercase("disabled"@) =~= "disabled"@);
    assert(ascii_lowercase("none"@) =~= "none"@);
    assert(ascii_lowercase("anonymous"@) =~= "anonymous"@);
    assert(ascii_lowercase("Anonymous"@) =~= "anonymous"@);
}

/// An anonymous user, which is also meant where none is named, takes no credentials. Any other one
/// takes the user name and the password, where both are there and the password is not encrypted.
pub proof fn law_credentials_are_those_of_the_object(client_config: JsonView)
    ensures
        ({
            let mode = text_member(client_config, "userIdentityMode"@);
            let user = text_member(client_config, "userName"@);
            let password = text_member(client_config, "userPassword"@);
            let anonymous = mode is None || ascii_lowercase(mode->Some_0) == "anonymous"@;
            let encrypted = member(client_config, "passwordEncrypted"@) == Some(
                JsonView::Bool(true),
            );
            let complete = user is Some && password is Some && !is_blank(user->Some_0)
                && password->Some_0.len() > 0;
            &&& anonymous ==> credentials_of(client_config) == Some(
                (None::<Seq<char>>, None::<Seq<char>>),
            )
            &&& !anonymous && complete && !encrypted ==> credentials_of(client_config) == Some(
                (user, password),
            )
            &&& !anonymous && (!complete || encrypted) ==> credentials_of(client_config) is None
        }),
{
    lemma_words();
}

/// An object describes a server that is started exactly when it has an open endpoint with
/// credentials that can be had; the server has the address and the credentials of the object, and
/// its name, or its id where it has none. It takes every device type.
pub proof fn law_objects_describe_servers(
    gateway: GatewayConfig,
    mo_id: Seq<char>,
    mo: JsonView,
    client_config: JsonView,
)
    requires
        member(mo, "c8y_ua_ClientConfig"@) == Some(client_config),
    ensures
        server_of(gateway, mo_id, mo) is Some <==> is_open_endpoint(client_config)
            && credentials_of(client_config) is Some,
        server_of(gateway, mo_id, mo) matches Some(s) ==> {
            &&& Some(s.url) == text_member(client_config, "serverUrl"@)
            &&& Some((s.user, s.password)) == credentials_of(client_config)
            &&& text_member(mo, "name"@) matches Some(name) ==> s.name == name
            &&& text_member(mo, "name"@) is None ==> s.name == mo_id
            &&& s.device_types.len() == 0
        },
{
    lemma_words();
}

/// An object without a client configuration describes no server.
pub proof fn law_objects_without_client_configuration_describe_none(
    gateway: GatewayConfig,
    mo_id: Seq<char>,
    mo: JsonView,
)
    requires
        member(mo, "c8y_ua_ClientConfig"@) is None,
    ensures
        server_of(gateway, mo_id, mo) is None,
        skip_of(mo) == Some(SkipReason::NoClientConfig),
{
}

/// The reason that is reported for a server that is not started is true of it.
pub proof fn law_reasons_to_skip_are_true(mo: JsonView, client_config: JsonView)
    requires
        member(mo, "c8y_ua_ClientConfig"@) == Some(client_config),
    ensures
        skip_of(mo) matches Some(reason) ==> match reason {
            SkipReason::NoClientConfig => false,
            SkipReason::NoServerUrl => text_member(client_config, "serverUrl"@) is None
                || is_blank(text_member(client_config, "serverUrl"@)->Some_0),
            SkipReason::Disabled => text_member(
                client_config,
                "targetConnectionState"@,
            ) matches Some(state) && ascii_lowercase(state) == "disabled"@,
            SkipReason::SecuredEndpoint => text_member(
                client_config,
                "securityMode"@,
            ) matches Some(mode) && ascii_lowercase(mode) != "none"@,
            SkipReason::EncryptedPassword => credentials_of(client_config) is None && member(
                client_config,
                "passwordEncrypted"@,
            ) == Some(JsonView::Bool(true)),
            SkipReason::NoCredentials => credentials_of(client_config) is None,
        },
{
    lemma_words();
}

/// Only objects of the type of OPC UA servers are taken for servers.
pub proof fn law_servers_are_known_by_their_type(mo: Json, r: bool)
    requires
        call_ensures(is_server_object, (&mo,), r),
    ensures
        r <==> text_member(mo.model(), "type"@) == Some("c8y_OpcuaServer"@),
{
}

/// The children of an object are read reference by reference: the id of each child, in order. A
/// body without references has none.
pub proof fn law_children_are_read_from_their_references(
    body: Json,
    r: Vec<Option<String>>,
    items: Seq<JsonView>,
    i: int,
)
    requires
        call_ensures(child_references, (&body,), r),
        member(body.model(), "references"@) == Some(JsonView::Array(items)),
        0 <= i < items.len(),
    ensures
        r@.len() == items.len(),
        r@[i].deep_view() == match member(items[i], "managedObject"@) {
            Some(mo) => text_member(mo, "id"@),
            None => None,
        },
{
    let ids = references_of(body.model()).map_values(|v: JsonView| object_id_of(v));
    assert(r.deep_view() == ids);
    assert(r.deep_view().len() == r@.len());
    assert(r.deep_view()[i] == r@[i].deep_view());
    assert(ids[i] == object_id_of(items[i]));
}

/// Pages are asked for one after the other, until one is not full or the last that is looked at.
pub proof fn law_pages_of_children_follow_each_other(page: u32, references: usize, r: Option<u32>)
    requires
        call_ensures(next_page, (page, references), r),
        page < u32::MAX,
    ensures
        references < 100 ==> r is None,
        page >= 20 ==> r is None,
        references >= 100 && page < 20 ==> r is Some && r->Some_0 == page + 1,
{
}

/// An external id that names the object is left, one that names another is not touched, and one
/// that names none is planted; nothing is done where that is not known.
pub proof fn law_only_free_external_ids_are_planted(
    mo_id: &str,
    resolved: Result<Option<String>, ProxyError>,
    r: Adoption,
)
    requires
        call_ensures(adopt, (mo_id, resolved), r),
    ensures
        r is Plant <==> (resolved is Ok && resolved->Ok_0 is None),
        r is Done <==> (resolved is Ok && resolved->Ok_0 is Some && resolved->Ok_0->Some_0@
            == mo_id@),
        r is Unknown <==> resolved is Err,
        r matches Adoption::ClaimedBy(existing) ==> resolved is Ok && resolved->Ok_0
            == Some(existing) && existing@ != mo_id@,
{
}

/// A lookup that finds the gateway's object settles it and starts the waiting over; one that does
/// not is repeated after the wait that is due, and each wait is twice the one before, up to the
/// longest. After five misses in a row, and only then, help is given; errors are no misses.
pub proof fn law_lookups_are_repeated_until_found(
    poll: &mut CloudPoll,
    found: Result<Option<String>, ProxyError>,
    max_backoff: u64,
    r: AfterLookup,
)
    requires
        call_ensures(CloudPoll::looked_up, (poll, found, max_backoff), r),
        old(poll).misses < u32::MAX,
    ensures
        found matches Ok(Some(id)) ==> final(poll).gateway_mo_id == Some(id) && final(poll).misses
            == 0 && final(poll).backoff == 1 && r.retry_in is None && !r.help,
        found is Err || found->Ok_0 is None ==> {
            &&& final(poll).gateway_mo_id == old(poll).gateway_mo_id
            &&& r.retry_in == Some(old(poll).backoff)
            &&& old(poll).backoff + old(poll).backoff <= max_backoff ==> final(poll).backoff
                == old(poll).backoff + old(poll).backoff
            &&& old(poll).backoff + old(poll).backoff > max_backoff ==> final(poll).backoff
                == max_backoff
        },
        found is Ok && found->Ok_0 is None ==> final(poll).misses == old(poll).misses + 1 && (r.help
            <==> old(poll).misses == 4),
        found is Err ==> final(poll).misses == old(poll).misses && !r.help,
{
}

/// Servers are handed on exactly when something about them has changed, and an error hands on
/// nothing: what was handed on last stays.
pub proof fn law_changed_servers_are_handed_on(
    poll: &mut CloudPoll,
    servers: Result<Vec<ServerConfig>, ProxyError>,
    max_backoff: u64,
    r: AfterFetch,
)
    requires
        call_ensures(CloudPoll::fetched, (poll, servers, max_backoff), r),
    ensures
        servers matches Ok(fresh) ==> {
            let now = revision_text(fresh@.map_values(|s: ServerConfig| s.deep_view()));
            &&& r.publish is Some <==> now != old(poll).revision@
            &&& r.publish is Some ==> r.publish->Some_0 == fresh
            &&& final(poll).revision@ == now
            &&& final(poll).backoff == 1
            &&& r.retry_in is None
            &&& final(poll).gateway_mo_id == old(poll).gateway_mo_id
        },
        servers matches Err(error) ==> {
            &&& r.publish is None
            &&& final(poll).revision == old(poll).revision
            &&& transient(error) ==> r.retry_in == Some(old(poll).backoff)
                && final(poll).gateway_mo_id == old(poll).gateway_mo_id
            &&& !transient(error) ==> r.retry_in is None && final(poll).backoff
                == old(poll).backoff
        },
        (servers matches Err(ProxyError::Status { status, .. }) && status == 404)
            ==> final(poll).gateway_mo_id is None,
{
}

/// A revision changes with each setting that it tells: the id, the name, the address, the policy,
/// the user and the password of a server.
pub proof fn law_revisions_change_with_every_setting(a: ServerView, b: ServerView)
    requires
        plain_server(a),
        plain_server(b),
        revision_text(seq![a]) == revision_text(seq![b]),
    ensures
        a.id == b.id,
        a.name == b.name,
        a.url == b.url,
        a.security_policy == b.security_policy,
        a.user is Some && b.user is Some ==> a.user == b.user,
        a.password is Some && b.password is Some ==> a.password == b.password,
{
    reveal_with_fuel(revision_text, 2);
    assert(seq![a].drop_last() =~= Seq::<ServerView>::empty());
    assert(seq![b].drop_last() =~= Seq::<ServerView>::empty());
    assert(revision_text(seq![a]) =~= server_record(a));
    assert(revision_text(seq![b]) =~= server_record(b));
    lemma_record(a, b);
}

/// What is started for an object, and why one is skipped, is as stated of the object.
pub proof fn law_objects_are_started_or_skipped(
    config: Config,
    mo_id: &str,
    mo: Json,
    server: Option<ServerConfig>,
    skipped: Option<SkipReason>,
)
    requires
        call_ensures(to_server_config, (&config, mo_id, &mo), server),
        call_ensures(skip_reason, (&mo,), skipped),
    ensures
        server is Some <==> skipped is None,
        server.deep_view() == server_of(config.gateway, mo_id@, mo.model()),
        skipped == skip_of(mo.model()),
{
    law_no_server_is_skipped_in_silence(config.gateway, mo_id@, mo.model());
}

} // verus!
