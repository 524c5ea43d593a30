//! Cumulocity access through the thin-edge proxy.
//!
//! `tedge-mapper-c8y` exposes the Cumulocity REST API on localhost and injects the device's
//! JWT, so there is no `Authorization` header here and no credentials anywhere in this gateway.
//!
//! Reads only, with exactly one exception: [`C8yProxy::create_external_id`]. A `c8y_OpcuaServer`
//! managed object is created cloud-side with no external id, which leaves it invisible to
//! thin-edge — telemetry published for it would create a second device. Planting one external
//! id on that object adopts it, after which everything about that server travels over MQTT. It
//! is idempotent and happens once per server, ever.
//!
//! Readings never go this way, and nothing else here writes.
use crate::clock::seconds;
use crate::json::{self, lemma_object_model, member, members_model, text_of_json, Json, JsonView};
use crate::text::{self, decimal};
use crate::text_map::TextMap;
use std::time::Duration;
use vstd::prelude::*;
use vstd::utf8::encode_utf8;

verus! {

/// Documented default of `c8y.proxy.bind.address` / `c8y.proxy.bind.port`.
pub const DEFAULT_BASE_URL: &'static str = "http://127.0.0.1:8001/c8y";

/// How many milliseconds to wait before retrying the proxy's spurious 401 once.
pub const UNAUTHORIZED_RETRY_DELAY_MS: u64 = 500;

#[derive(Debug)]
pub struct ProxyConfig {
    /// Base URL of the proxy, including the `/c8y` prefix.
    pub base_url: String,
    pub timeout: Duration,
    /// Path of the client certificate, for a thin-edge deployment that protects its local
    /// endpoints with mTLS (`c8y.proxy.cert_path` / `key_path` on the device).
    pub client_cert: Option<String>,
    pub client_key: Option<String>,
    /// Path of the CA that signed the proxy's server certificate (`c8y.proxy.ca_path`).
    pub ca_cert: Option<String>,
}

impl Default for ProxyConfig {
    fn default() -> (r: Self)
        ensures
            r.base_url@ == "http://127.0.0.1:8001/c8y"@,
            r.timeout == seconds(30),
            r.client_cert is None,
            r.client_key is None,
            r.ca_cert is None,
    {
        ProxyConfig {
            base_url: DEFAULT_BASE_URL.to_owned(),
            timeout: Duration::from_secs(30),
            client_cert: None,
            client_key: None,
            ca_cert: None,
        }
    }
}

#[derive(Debug, PartialEq, Eq)]
pub enum ProxyError {
    /// The HTTP client could not be built.
    Client(String),
    ReadFile { path: String, source: String },
    Request { url: String, source: String },
    /// The mapper could not reach Cumulocity. Keep running on what is already in memory.
    CloudUnreachable,
    Status { url: String, status: u16 },
}

/// Errors that a later attempt may not meet: the cloud cannot be reached, the request failed,
/// or the answer was a 401 or a server error.
pub open spec fn transient(error: ProxyError) -> bool {
    match error {
        ProxyError::CloudUnreachable => true,
        ProxyError::Request { .. } => true,
        ProxyError::Status { status, .. } => status == 401 || status >= 500,
        ProxyError::Client(_) => false,
        ProxyError::ReadFile { .. } => false,
    }
}

impl ProxyError {
    /// Whether the gateway should keep its current device types and simply retry later.
    pub fn is_transient(&self) -> (r: bool)
        ensures
            r == transient(*self),
    {
        match self {
            ProxyError::CloudUnreachable => true,
            ProxyError::Request { .. } => true,
            ProxyError::Status { status, .. } => *status == 401 || *status >= 500,
            ProxyError::Client(_) => false,
            ProxyError::ReadFile { .. } => false,
        }
    }

    /// The error in words.
    pub fn message(&self) -> (r: String)
        ensures
            r@ == (match self {
                ProxyError::Client(s) => "failed to build the proxy HTTP client: "@ + s@,
                ProxyError::ReadFile { path, source } => "cannot read "@ + path@ + ": "@ + source@,
                ProxyError::Request { url, source } => "request to "@ + url@ + " failed: "@
                    + source@,
                ProxyError::CloudUnreachable =>
                "the thin-edge mapper cannot reach Cumulocity (502)"@,
                ProxyError::Status { url, status } => url@ + " returned "@ + decimal(
                    *status as nat,
                ),
            }),
    {
        match self {
            ProxyError::Client(s) => text::concat(
                "failed to build the proxy HTTP client: ",
                s.as_str(),
            ),
            ProxyError::ReadFile { path, source } => {
                let mut out: String = text::concat("cannot read ", path.as_str());
                out.append(": ");
                out.append(source.as_str());
                out
            },
            ProxyError::Request { url, source } => {
                let mut out: String = text::concat("request to ", url.as_str());
                out.append(" failed: ");
                out.append(source.as_str());
                out
            },
            ProxyError::CloudUnreachable =>
            "the thin-edge mapper cannot reach Cumulocity (502)".to_owned(),
            ProxyError::Status { url, status } => {
                let digits: String = text::decimal_text(*status as u128);
                let mut out: String = text::concat(url.as_str(), " returned ");
                out.append(digits.as_str());
                out
            },
        }
    }
}

// Answers ----------------------------------------------------------------------------

/// The error that an HTTP status is: 502 means that the mapper cannot reach the cloud, and
/// anything that is not a success is reported as it is.
pub open spec fn status_error(url: Seq<char>, status: u16, error: Option<ProxyError>) -> bool {
    if status == 502 {
        error == Some(ProxyError::CloudUnreachable)
    } else if 200 <= status < 300 {
        error is None
    } else {
        error matches Some(ProxyError::Status { url: u, status: s }) && u@ == url && s == status
    }
}

/// Whether an answer can be used.
pub fn check_status(url: &str, status: u16) -> (r: Result<(), ProxyError>)
    ensures
        r is Ok == (200 <= status < 300),
        status_error(
            url@,
            status,
            match r {
                Ok(()) => None,
                Err(e) => Some(e),
            },
        ),
{
    if status == 502 {
        return Err(ProxyError::CloudUnreachable);
    }
    if status < 200 || status >= 300 {
        return Err(ProxyError::Status { url: url.to_owned(), status });
    }
    Ok(())
}

/// What is to be done after a request.
#[derive(Debug)]
pub enum AfterRequest<T> {
    /// Ask once more, after [`UNAUTHORIZED_RETRY_DELAY_MS`].
    Retry,
    /// This is the answer.
    Done(Result<T, ProxyError>),
}

/// The proxy's one documented quirk: a spurious 401 from Cumulocity's JWT handling is forwarded
/// verbatim, so the first one is retried. There are no credentials here, so a 401 is never a
/// credential problem.
pub fn after_request<T>(result: Result<T, ProxyError>, is_retry: bool) -> (r: AfterRequest<T>)
    ensures
        r == (if !is_retry && (result matches Err(ProxyError::Status { status, .. }) && status
            == 401) {
            AfterRequest::Retry
        } else {
            AfterRequest::Done(result)
        }),
{
    if !is_retry {
        if let Err(ProxyError::Status { status, .. }) = &result {
            if *status == 401 {
                return AfterRequest::Retry;
            }
        }
    }
    AfterRequest::Done(result)
}

/// The managed object that an identity document names.
pub open spec fn object_id_of(document: JsonView) -> Option<Seq<char>> {
    match member(document, "managedObject"@) {
        Some(mo) => match member(mo, "id"@) {
            Some(id) => text_of_json(id),
            None => None,
        },
        None => None,
    }
}

/// The managed object that an external id resolves to, from the answer to the request at
/// [`C8yProxy::managed_object_id`]; `None` when it does not exist.
pub fn resolved_object_id(answer: Result<Json, ProxyError>) -> (r: Result<
    Option<String>,
    ProxyError,
>)
    ensures
        match answer {
            Ok(document) => r matches Ok(id) && id.deep_view() == object_id_of(document.model()),
            Err(ProxyError::Status { status, .. }) if status == 404 => r == Ok::<
                Option<String>,
                ProxyError,
            >(None),
            Err(e) => r == Err::<Option<String>, ProxyError>(e),
        },
{
    match answer {
        Ok(document) => {
            if let Some(mo) = document.get("managedObject") {
                if let Some(id) = mo.get("id") {
                    if let Some(id) = id.as_str() {
                        return Ok(Some(id.to_owned()));
                    }
                }
            }
            Ok(None)
        },
        Err(ProxyError::Status { url, status }) => {
            if status == 404 {
                Ok(None)
            } else {
                Err(ProxyError::Status { url, status })
            }
        },
        Err(e) => Err(e),
    }
}

/// What came of planting an external id. A `409` is success: the external id is already there,
/// which is the state that was asked for.
pub fn planted_external_id(answer: Result<(), ProxyError>) -> (r: Result<(), ProxyError>)
    ensures
        match answer {
            Err(ProxyError::Status { status, .. }) if status == 409 => r is Ok,
            _ => r == answer,
        },
{
    match answer {
        Err(ProxyError::Status { url, status }) => {
            if status == 409 {
                Ok(())
            } else {
                Err(ProxyError::Status { url, status })
            }
        },
        other => other,
    }
}

// Requests ---------------------------------------------------------------------------

pub open spec fn trim_end_slashes(s: Seq<char>) -> Seq<char>
    decreases s.len(),
{
    if s.len() > 0 && s.last() == '/' {
        trim_end_slashes(s.drop_last())
    } else {
        s
    }
}

/// An upper-case hexadecimal digit.
pub open spec fn hex_digit(n: u8) -> char {
    if n < 10 {
        (('0' as u8) + n) as char
    } else {
        (('A' as u8) + (n - 10)) as char
    }
}

pub open spec fn is_alphanumeric_byte(b: u8) -> bool {
    (0x30 <= b <= 0x39) || (0x41 <= b <= 0x5a) || (0x61 <= b <= 0x7a)
}

/// Bytes with everything but ASCII letters and digits written as `%` and two hexadecimal digits.
pub open spec fn percent_encoded(bytes: Seq<u8>) -> Seq<char>
    decreases bytes.len(),
{
    if bytes.len() == 0 {
        Seq::empty()
    } else {
        let b = bytes.last();
        percent_encoded(bytes.drop_last()) + if is_alphanumeric_byte(b) {
            seq![b as char]
        } else {
            seq!['%', hex_digit(b / 16), hex_digit(b % 16)]
        }
    }
}

/// `percent_encoding::utf8_percent_encode` with the set `NON_ALPHANUMERIC`: the ASCII letters and
/// digits are kept, and every other byte of the UTF-8 encoding is written as `%` and its two
/// upper-case hexadecimal digits.
#[verifier::external_body]
fn urlencode(segment: &str) -> (r: String)
    ensures
        r@ == percent_encoded(encode_utf8(segment@)),
{
    percent_encoding::utf8_percent_encode(segment, percent_encoding::NON_ALPHANUMERIC).to_string()
}

/// The requests to Cumulocity.
#[derive(Debug)]
pub struct C8yProxy {
    base_url: String,
}

impl View for C8yProxy {
    /// The base URL.
    type V = Seq<char>;

    closed spec fn view(&self) -> Seq<char> {
        self.base_url@
    }
}

/// The query of a page.
pub open spec fn page_query(page: u32, page_size: u32) -> Seq<char> {
    "pageSize="@ + decimal(page_size as nat) + "&currentPage="@ + decimal(page as nat)
        + "&withTotalPages=true"@
}

fn page_query_text(page: u32, page_size: u32) -> (r: String)
    ensures
        r@ == page_query(page, page_size),
{
    let size: String = text::decimal_text(page_size as u128);
    let number: String = text::decimal_text(page as u128);
    let mut out: String = text::concat("pageSize=", size.as_str());
    out.append("&currentPage=");
    out.append(number.as_str());
    out.append("&withTotalPages=true");
    out
}

/// What is sent to plant an external id.
pub open spec fn external_id_model(id_type: Seq<char>, external_id: Seq<char>) -> JsonView {
    JsonView::Object(
        Map::empty().insert("type"@, JsonView::String(id_type)).insert(
            "externalId"@,
            JsonView::String(external_id),
        ),
    )
}

impl C8yProxy {
    pub fn new(config: &ProxyConfig) -> (r: Self)
        ensures
            r@ == trim_end_slashes(config.base_url@),
    {
        let v: Vec<char> = text::chars_of(config.base_url.as_str());
        let mut to: usize = v.len();
        proof {
            assert(v@.take(to as int) =~= v@);
        }
        while to > 0 && v[to - 1] == '/'
            invariant
                to <= v@.len(),
                trim_end_slashes(v@.take(to as int)) == trim_end_slashes(v@),
            decreases to,
        {
            proof {
                assert(v@.take(to as int).drop_last() =~= v@.take(to - 1));
            }
            to = to - 1;
        }
        proof {
            assert(v@.subrange(0, to as int) =~= v@.take(to as int));
        }
        C8yProxy { base_url: text::text_of(&v, 0, to) }
    }

    /// URL of one page of managed objects of the given type, with the device type fragment.
    pub fn device_types(&self, mo_type: &str, fragment_type: &str, page: u32, page_size: u32) -> (r:
        String)
        ensures
            r@ == self@ + "/inventory/managedObjects?type="@ + mo_type@ + "&fragmentType="@
                + fragment_type@ + "&"@ + page_query(page, page_size),
    {
        let query: String = page_query_text(page, page_size);
        let mut out: String = text::concat(
            self.base_url.as_str(),
            "/inventory/managedObjects?type=",
        );
        out.append(mo_type);
        out.append("&fragmentType=");
        out.append(fragment_type);
        out.append("&");
        out.append(query.as_str());
        out
    }

    /// URL of one managed object.
    pub fn managed_object(&self, id: &str) -> (r: String)
        ensures
            r@ == self@ + "/inventory/managedObjects/"@ + id@,
    {
        let mut out: String = text::concat(self.base_url.as_str(), "/inventory/managedObjects/");
        out.append(id);
        out
    }

    /// URL of one page of an object's child devices, for reading the servers registered on the
    /// gateway.
    pub fn child_devices(&self, id: &str, page: u32, page_size: u32) -> (r: String)
        ensures
            r@ == self@ + "/inventory/managedObjects/"@ + id@ + "/childDevices?"@ + page_query(
                page,
                page_size,
            ),
    {
        let query: String = page_query_text(page, page_size);
        let mut out: String = self.managed_object(id);
        out.append("/childDevices?");
        out.append(query.as_str());
        out
    }

    /// URL that resolves an external id to a managed object; see [`resolved_object_id`].
    pub fn managed_object_id(&self, id_type: &str, external_id: &str) -> (r: String)
        ensures
            r@ == self@ + "/identity/externalIds/"@ + id_type@ + "/"@ + percent_encoded(
                encode_utf8(external_id@),
            ),
    {
        let encoded: String = urlencode(external_id);
        let mut out: String = text::concat(self.base_url.as_str(), "/identity/externalIds/");
        out.append(id_type);
        out.append("/");
        out.append(encoded.as_str());
        out
    }

    /// URL and body of the request that plants an external id on an existing managed object; see
    /// [`planted_external_id`].
    ///
    /// The one write in this gateway; see the module documentation for why it exists.
    pub fn create_external_id(&self, mo_id: &str, id_type: &str, external_id: &str) -> (r: (
        String,
        Json,
    ))
        ensures
            r.0@ == self@ + "/identity/globalIds/"@ + mo_id@ + "/externalIds"@,
            r.1.model() == external_id_model(id_type@, external_id@),
    {
        broadcast use lemma_object_model;

        let mut out: String = text::concat(self.base_url.as_str(), "/identity/globalIds/");
        out.append(mo_id);
        out.append("/externalIds");
        let mut body: TextMap<Json> = TextMap::new();
        proof {
            assert(members_model(body@) =~= Map::empty());
        }
        json::put(&mut body, "type", Json::text(id_type));
        json::put(&mut body, "externalId", Json::text(external_id));
        (out, Json::Object(body))
    }
}

// Laws -------------------------------------------------------------------------------

/// A character that an encoded path segment may hold.
pub open spec fn is_encoded_char(c: char) -> bool {
    c == '%' || ('0' <= c && c <= '9') || ('A' <= c && c <= 'Z') || ('a' <= c && c <= 'z')
}

/// An encoded segment can go into a URL: it holds nothing but ASCII letters, digits and `%`.
pub proof fn law_encoded_segments_are_safe(bytes: Seq<u8>)
    ensures
        forall|i: int|
            0 <= i < percent_encoded(bytes).len() ==> is_encoded_char(
                #[trigger] percent_encoded(bytes)[i],
            ),
    decreases bytes.len(),
{
    if bytes.len() > 0 {
        let before = percent_encoded(bytes.drop_last());
        law_encoded_segments_are_safe(bytes.drop_last());
        let b = bytes.last();
        let now = percent_encoded(bytes);
        assert(b / 16 < 16 && b % 16 < 16);
        assert forall|i: int| 0 <= i < now.len() implies is_encoded_char(#[trigger] now[i]) by {
            if i < before.len() {
                assert(now[i] == before[i]);
            }
        }
    }
}

/// A request is sent twice at most: the answer to a retry is final.
pub proof fn law_a_retry_is_final<T>(result: Result<T, ProxyError>, r: AfterRequest<T>)
    requires
        call_ensures(after_request::<T>, (result, true), r),
    ensures
        r == AfterRequest::Done(result),
{
}

/// What a later attempt may cure: the cloud is out of reach, the request failed on its way, or the
/// answer was a 401 or a server's error. Nothing else is tried again.
pub proof fn law_only_passing_errors_are_transient(error: ProxyError)
    ensures
        error is CloudUnreachable || error is Request ==> transient(error),
        error is Client || error is ReadFile ==> !transient(error),
        error matches ProxyError::Status { status, .. } ==> (transient(error) <==> status == 401
            || status >= 500),
{
}

/// An answer is good exactly when its status is a success; a 502 means that the cloud is out of
/// reach, and any other status is reported with the address.
pub proof fn law_statuses_are_told_apart(url: &str, status: u16, r: Result<(), ProxyError>)
    requires
        call_ensures(check_status, (url, status), r),
    ensures
        r is Ok <==> 200 <= status < 300,
        status == 502 ==> r is Err && r->Err_0 is CloudUnreachable,
        status != 502 && !(200 <= status < 300) ==> (r matches Err(ProxyError::Status {
            url: u,
            status: s,
        }) && u@ == url@ && s == status),
{
}

/// A request is repeated exactly when its first answer is a 401; every other answer is final.
pub proof fn law_only_a_first_401_is_retried<T>(
    result: Result<T, ProxyError>,
    is_retry: bool,
    r: AfterRequest<T>,
)
    requires
        call_ensures(after_request::<T>, (result, is_retry), r),
    ensures
        r is Retry <==> !is_retry && result is Err && result->Err_0 is Status
            && result->Err_0->Status_status == 401,
        r is Retry || r == AfterRequest::Done(result),
{
}

/// An external id names the object that the answer says; a 404 means that it names none, and any
/// other error is one.
pub proof fn law_external_ids_resolve_to_objects(
    answer: Result<Json, ProxyError>,
    r: Result<Option<String>, ProxyError>,
)
    requires
        call_ensures(resolved_object_id, (answer,), r),
    ensures
        answer matches Ok(document) ==> r is Ok && r->Ok_0.deep_view() == match member(
            document.model(),
            "managedObject"@,
        ) {
            Some(mo) => match member(mo, "id"@) {
                Some(JsonView::String(id)) => Some(id),
                _ => None,
            },
            None => None,
        },
        answer matches Err(e) ==> {
            let missing = e is Status && e->Status_status == 404;
            &&& missing ==> r is Ok && r->Ok_0 is None
            &&& !missing ==> r == Err::<Option<String>, ProxyError>(e)
        },
{
}

/// An external id that is already there counts as planted; any other answer is passed on.
pub proof fn law_planting_twice_is_no_error(
    answer: Result<(), ProxyError>,
    r: Result<(), ProxyError>,
)
    requires
        call_ensures(planted_external_id, (answer,), r),
    ensures
        answer is Ok ==> r is Ok,
        answer matches Err(e) ==> {
            let there = e is Status && e->Status_status == 409;
            &&& there ==> r is Ok
            &&& !there ==> r == answer
        },
{
}

/// The slashes at the end of an address go, and nothing else.
pub proof fn law_addresses_lose_their_last_slashes(s: Seq<char>, slashes: Seq<char>)
    requires
        s.len() > 0 ==> s.last() != '/',
        forall|i: int| 0 <= i < slashes.len() ==> #[trigger] slashes[i] == '/',
    ensures
        trim_end_slashes(s + slashes) == s,
    decreases slashes.len(),
{
    let whole = s + slashes;
    if slashes.len() == 0 {
        assert(whole =~= s);
    } else {
        let less = slashes.drop_last();
        assert(whole.drop_last() =~= s + less);
        assert(whole.last() == slashes[slashes.len() - 1]);
        assert forall|i: int| 0 <= i < less.len() implies #[trigger] less[i] == '/' by {
            assert(slashes[i] == '/');
        }
        law_addresses_lose_their_last_slashes(s, less);
    }
}

/// The number that a hexadecimal digit stands for.
pub open spec fn hex_value(c: char) -> int {
    if '0' <= c && c <= '9' {
        c as u32 - '0' as u32
    } else {
        c as u32 - 'A' as u32 + 10
    }
}

/// Bytes are encoded one by one: an ASCII letter or digit as itself, any other byte as a percent
/// sign and the two hexadecimal digits of its value.
pub proof fn law_bytes_are_encoded_one_by_one(a: Seq<u8>, b: u8)
    ensures
        percent_encoded(Seq::empty()) == Seq::<char>::empty(),
        ({
            let c = b as char;
            let letter = ('0' <= c && c <= '9') || ('A' <= c && c <= 'Z') || ('a' <= c && c <= 'z');
            let all = percent_encoded(a.push(b));
            let n = percent_encoded(a).len() as int;
            &&& all.take(n) == percent_encoded(a)
            &&& letter ==> all.len() == n + 1 && all[n] == c
            &&& !letter ==> all.len() == n + 3 && all[n] == '%' && 16 * hex_value(all[n + 1])
                + hex_value(all[n + 2]) == b
        }),
{
    let all = percent_encoded(a.push(b));
    let n = percent_encoded(a).len() as int;
    assert(a.push(b).drop_last() =~= a);
    assert(all.take(n) =~= percent_encoded(a));
    assert(16 * (b / 16) + b % 16 == b);
}

/// The addresses of the cloud's resources: those below the inventory and the identities, with the
/// object, the type and the page that are asked for.
pub proof fn law_resources_have_their_addresses(
    proxy: C8yProxy,
    id: &str,
    id_type: &str,
    external_id: &str,
    page: u32,
    page_size: u32,
    object: String,
    children: String,
    types: String,
    resolved: String,
    planted: (String, Json),
)
    requires
        call_ensures(C8yProxy::managed_object, (&proxy, id), object),
        call_ensures(C8yProxy::child_devices, (&proxy, id, page, page_size), children),
        call_ensures(C8yProxy::device_types, (&proxy, id, id_type, page, page_size), types),
        call_ensures(C8yProxy::managed_object_id, (&proxy, id_type, external_id), resolved),
        call_ensures(C8yProxy::create_external_id, (&proxy, id, id_type, external_id), planted),
    ensures
        ({
            let query = "pageSize="@ + decimal(page_size as nat) + "&currentPage="@ + decimal(
                page as nat,
            ) + "&withTotalPages=true"@;
            &&& object@ == proxy@ + "/inventory/managedObjects/"@ + id@
            &&& children@ == object@ + "/childDevices?"@ + query
            &&& types@ == proxy@ + "/inventory/managedObjects?type="@ + id@ + "&fragmentType="@
                + id_type@ + "&"@ + query
            &&& resolved@ == proxy@ + "/identity/externalIds/"@ + id_type@ + "/"@ + percent_encoded(
                encode_utf8(external_id@),
            )
            &&& planted.0@ == proxy@ + "/identity/globalIds/"@ + id@ + "/externalIds"@
            &&& json::text_member(planted.1.model(), "type"@) == Some(id_type@)
            &&& json::text_member(planted.1.model(), "externalId"@) == Some(external_id@)
        }),
{
    reveal_strlit("type");
    reveal_strlit("externalId");
    assert("type"@.len() == 4);
    assert("externalId"@.len() == 10);
}

/// The proxy is addressed as configured, without the slashes at the end.
pub proof fn law_the_proxy_is_addressed_as_configured(config: ProxyConfig, r: C8yProxy)
    requires
        call_ensures(C8yProxy::new, (&config,), r),
    ensures
        r@.len() <= config.base_url@.len(),
        r@ == config.base_url@.take(r@.len() as int),
        r@.len() > 0 ==> r@.last() != '/',
        forall|i: int| r@.len() <= i < config.base_url@.len() ==> #[trigger] config.base_url@[i] == '/',
{
    lemma_trimmed_slashes(config.base_url@);
}

proof fn lemma_trimmed_slashes(s: Seq<char>)
    ensures
        trim_end_slashes(s).len() <= s.len(),
        trim_end_slashes(s) == s.take(trim_end_slashes(s).len() as int),
        trim_end_slashes(s).len() > 0 ==> trim_end_slashes(s).last() != '/',
        forall|i: int| trim_end_slashes(s).len() <= i < s.len() ==> #[trigger] s[i] == '/',
    decreases s.len(),
{
    if s.len() > 0 && s.last() == '/' {
        let less = s.drop_last();
        lemma_trimmed_slashes(less);
        let n = trim_end_slashes(less).len() as int;
        assert(less.take(n) =~= s.take(n));
        assert forall|i: int| n <= i < s.len() implies #[trigger] s[i] == '/' by {
            if i < less.len() {
                assert(less[i] == s[i]);
            }
        }
    } else {
        assert(s.take(s.len() as int) =~= s);
    }
}

} // verus!
