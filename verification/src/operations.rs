//! Cumulocity operations addressed at the gateway or at one of its servers.
//!
//! `c8y_OpcuaConfiguration` is a Cumulocity operation name with no thin-edge command
//! equivalent, and the user interface enables the OPC UA controls from its presence in
//! `c8y_SupportedOperations`. Declaring it as a thin-edge command would mean writing a file
//! below `/etc/tedge/operations/c8y/`, a runtime-derived path this gateway will not create.
//! Reading the bridged `c8y/devicecontrol/notifications` topic needs no such file, and the
//! status goes back as one SmartREST record on `c8y/s/us/<external-id>`.
//!
//! This works only because the gateway object is deliberately not marked as a Cumulocity
//! agent: see [`crate::gateway_device`]. Otherwise Cumulocity routes its operations to that
//! object rather than to the thin-edge agent, and nothing arrives on this topic at all.
//!
//! No operation is implemented yet. Advertising an operation and then leaving it pending
//! forever is worse than failing it, so every operation that arrives is failed with a reason
//! naming it.
use crate::config::{ServerConfig, ServerView};
use crate::json::{lemma_object_model, member, members_model, text_of_json, Json, JsonView};
use crate::mqtt::{
    smartrest_topic_of, Message, MessageView, PayloadView, TedgeMqtt, C8Y_OPERATION_TOPIC,
};
use crate::text::{self, replaced};
use crate::text_map::{lemma_finite_sets_have_an_order, ordered_keys};
use vstd::prelude::*;

verus! {

/// Envelope fields of an operation, none of which name the operation itself.
pub open spec fn is_envelope_field(name: Seq<char>) -> bool {
    ||| name == "id"@
    ||| name == "status"@
    ||| name == "deviceId"@
    ||| name == "agentId"@
    ||| name == "creationTime"@
    ||| name == "description"@
    ||| name == "delivery"@
    ||| name == "externalSource"@
    ||| name == "self"@
    ||| name == "failureReason"@
}

fn in_envelope(name: &str) -> (r: bool)
    ensures
        r == is_envelope_field(name@),
{
    text::same(name, "id") || text::same(name, "status") || text::same(name, "deviceId")
        || text::same(name, "agentId") || text::same(name, "creationTime") || text::same(
        name,
        "description",
    ) || text::same(name, "delivery") || text::same(name, "externalSource") || text::same(
        name,
        "self",
    ) || text::same(name, "failureReason")
}

/// The first of the names at or behind `from` that is no envelope field.
pub open spec fn first_fragment(names: Seq<Seq<char>>, from: int) -> Option<Seq<char>>
    decreases names.len() - from,
{
    if from < 0 || from >= names.len() {
        None
    } else if !is_envelope_field(names[from]) {
        Some(names[from])
    } else {
        first_fragment(names, from + 1)
    }
}

/// The field that names what an operation asks for: the first in order that is not part of the
/// envelope.
pub open spec fn fragment_of(operation: JsonView) -> Option<Seq<char>> {
    match operation {
        JsonView::Object(members) => first_fragment(ordered_keys(members.dom()), 0),
        _ => None,
    }
}

/// The one field naming what the operation asks for.
pub fn operation_fragment(operation: &Json) -> (r: Option<&str>)
    ensures
        r.deep_view() == fragment_of(operation.model()),
{
    broadcast use lemma_object_model;

    match operation {
        Json::Object(members) => {
            let n: usize = members.len();
            let ghost names = members.key_seq();
            proof {
                assert(members_model(members@).dom() =~= members@.dom());
            }
            let mut i: usize = 0;
            while i < n
                invariant
                    i <= n == names.len(),
                    names == members.key_seq(),
                    names == ordered_keys(members@.dom()),
                    members_model(members@).dom() == members@.dom(),
                    operation.model() == JsonView::Object(members_model(members@)),
                    first_fragment(names, i as int) == first_fragment(names, 0),
                decreases n - i,
            {
                let name: &String = members.key_at(i);
                if !in_envelope(name.as_str()) {
                    return Some(name.as_str());
                }
                i = i + 1;
            }
            None
        },
        _ => None,
    }
}

/// A SmartREST field in quotation marks, those inside it being doubled.
pub open spec fn quoted_field(value: Seq<char>) -> Seq<char> {
    "\""@ + replaced(value, "\""@, "\"\""@) + "\""@
}

/// Quote a SmartREST field. Commas and quotes would otherwise shift or truncate the record.
pub fn smartrest_field(value: &str) -> (r: String)
    ensures
        r@ == quoted_field(value@),
{
    proof {
        reveal_strlit("\"");
    }
    let inner: String = text::replace(value, "\"", "\"\"");
    let mut out: String = text::concat("\"", inner.as_str());
    out.append("\"");
    out
}

/// The SmartREST record that fails the oldest pending operation of a type, with a reason.
pub open spec fn failure_record_of(fragment: Seq<char>, reason: Seq<char>) -> Seq<char> {
    "502,"@ + fragment + ","@ + quoted_field(reason)
}

/// SmartREST 502: set the oldest pending operation of this type to failed, with a reason.
pub fn failure_record(fragment: &str, reason: &str) -> (r: String)
    ensures
        r@ == failure_record_of(fragment@, reason@),
{
    let field: String = smartrest_field(reason);
    let mut out: String = text::concat("502,", fragment);
    out.append(",");
    out.append(field.as_str());
    out
}

/// The external id of the object that an operation is for.
pub open spec fn addressee(operation: JsonView) -> Option<Seq<char>> {
    match member(operation, "externalSource"@) {
        Some(source) => match member(source, "externalId"@) {
            Some(id) => text_of_json(id),
            None => None,
        },
        None => None,
    }
}

/// Whether an external id is the gateway's own or that of one of its servers.
pub open spec fn is_ours(
    external_id: Seq<char>,
    gateway_external_id: Seq<char>,
    servers: Seq<ServerView>,
) -> bool {
    ||| external_id == gateway_external_id
    ||| exists|i: int|
        0 <= i < servers.len() && (#[trigger] servers[i]).external_id == Some(external_id)
}

/// Whether an operation waits for an answer from this gateway.
pub open spec fn awaits_answer(
    operation: JsonView,
    gateway_external_id: Seq<char>,
    servers: Seq<ServerView>,
) -> bool {
    &&& member(operation, "status"@) == Some(JsonView::String("PENDING"@))
    &&& addressee(operation) matches Some(id) && is_ours(id, gateway_external_id, servers)
    &&& fragment_of(operation) is Some
}

/// The answer to an operation: it is not implemented.
pub open spec fn refusal(external_id: Seq<char>, fragment: Seq<char>) -> MessageView {
    MessageView {
        topic: smartrest_topic_of(external_id),
        payload: PayloadView::Text(
            failure_record_of(
                fragment,
                fragment + " is not implemented by c8y-opcua-gateway-rs"@,
            ),
        ),
        retain: false,
    }
}

fn has_external_id(servers: &[ServerConfig], external_id: &str) -> (r: bool)
    ensures
        r == (exists|i: int|
            0 <= i < servers@.len() && (#[trigger] servers@[i]).deep_view().external_id == Some(
                external_id@,
            )),
{
    let mut i: usize = 0;
    while i < servers.len()
        invariant
            i <= servers@.len(),
            forall|j: int|
                0 <= j < i ==> (#[trigger] servers@[j]).deep_view().external_id != Some(
                    external_id@,
                ),
        decreases servers@.len() - i,
    {
        if let Some(id) = &servers[i].external_id {
            if text::same(id.as_str(), external_id) {
                proof {
                    assert(servers@[i as int].deep_view().external_id == Some(external_id@));
                }
                return true;
            }
        }
        i = i + 1;
    }
    false
}

/// Whether a message on a topic is an operation.
pub fn is_operation_topic(topic: &str) -> (r: bool)
    ensures
        r == (topic@ == "c8y/devicecontrol/notifications"@),
{
    text::same(topic, C8Y_OPERATION_TOPIC)
}

/// The answer to an operation, where one is due: it is pending, it is for the gateway or one
/// of its servers, and it names what it asks for.
pub fn answer(
    mqtt: &TedgeMqtt,
    operation: &Json,
    gateway_external_id: &str,
    servers: &[ServerConfig],
) -> (r: Option<Message>)
    ensures
        r is Some == awaits_answer(
            operation.model(),
            gateway_external_id@,
            servers@.map_values(|s: ServerConfig| s.deep_view()),
        ),
        r matches Some(message) ==> message.deep_view() == refusal(
            addressee(operation.model())->Some_0,
            fragment_of(operation.model())->Some_0,
        ),
{
    let ghost views = servers@.map_values(|s: ServerConfig| s.deep_view());
    let pending: bool = match operation.get("status") {
        Some(status) => match status.as_str() {
            Some(status) => text::same(status, "PENDING"),
            None => false,
        },
        None => false,
    };
    if !pending {
        return None;
    }
    let external_id: &str = match operation.get("externalSource") {
        Some(source) => match source.get("externalId") {
            Some(id) => match id.as_str() {
                Some(id) => id,
                None => {
                    return None;
                },
            },
            None => {
                return None;
            },
        },
        None => {
            return None;
        },
    };
    let of_server: bool = has_external_id(servers, external_id);
    proof {
        if of_server {
            let i = choose|i: int|
                0 <= i < servers@.len() && (#[trigger] servers@[i]).deep_view().external_id
                    == Some(external_id@);
            assert(views[i].external_id == Some(external_id@));
        } else if exists|i: int|
            0 <= i < views.len() && (#[trigger] views[i]).external_id == Some(external_id@) {
            let i = choose|i: int|
                0 <= i < views.len() && (#[trigger] views[i]).external_id == Some(external_id@);
            assert(servers@[i].deep_view().external_id == Some(external_id@));
        }
    }
    if !text::same(external_id, gateway_external_id) && !of_server {
        return None;
    }
    match operation_fragment(operation) {
        Some(fragment) => {
            let reason: String = text::concat(
                fragment,
                " is not implemented by c8y-opcua-gateway-rs",
            );
            let record: String = failure_record(fragment, reason.as_str());
            Some(mqtt.publish_smartrest(external_id, record.as_str()))
        },
        None => None,
    }
}

// Laws -------------------------------------------------------------------------------

/// A text with each doubled quotation mark made one.
pub open spec fn undoubled(s: Seq<char>) -> Seq<char>
    decreases s.len(),
{
    if s.len() == 0 {
        s
    } else if s.len() >= 2 && s[0] == '"' && s[1] == '"' {
        seq!['"'] + undoubled(s.skip(2))
    } else {
        seq![s[0]] + undoubled(s.skip(1))
    }
}

proof fn lemma_undoubled(s: Seq<char>)
    ensures
        undoubled(replaced(s, "\""@, "\"\""@)) == s,
    decreases s.len(),
{
    reveal_strlit("\"");
    reveal_strlit("\"\"");
    if s.len() > 0 {
        let rest = replaced(s.skip(1), "\""@, "\"\""@);
        let now = replaced(s, "\""@, "\"\""@);
        lemma_undoubled(s.skip(1));
        assert("\""@ =~= seq!['"']);
        assert("\"\""@ =~= seq!['"', '"']);
        if s[0] == '"' {
            assert(s.subrange(0, 1) =~= "\""@);
            assert(now =~= seq!['"', '"'] + rest);
            assert(now.skip(2) =~= rest);
        } else {
            assert(s.subrange(0, 1)[0] != "\""@[0]);
            assert(now =~= seq![s[0]] + rest);
            assert(now.skip(1) =~= rest);
        }
        assert(s =~= seq![s[0]] + s.skip(1));
    }
}

/// A quoted field reads back as the value: the marks around it taken off, and the doubled ones
/// inside made one.
pub proof fn law_quoted_field_reads_back(value: Seq<char>)
    ensures
        quoted_field(value).len() >= 2,
        quoted_field(value)[0] == '"',
        quoted_field(value).last() == '"',
        undoubled(quoted_field(value).subrange(1, quoted_field(value).len() - 1)) == value,
{
    reveal_strlit("\"");
    let inner = replaced(value, "\""@, "\"\""@);
    assert(quoted_field(value).subrange(1, quoted_field(value).len() - 1) =~= inner);
    lemma_undoubled(value);
}

/// Different reasons give different records.
pub proof fn law_records_tell_reasons_apart(fragment: Seq<char>, a: Seq<char>, b: Seq<char>)
    requires
        failure_record_of(fragment, a) == failure_record_of(fragment, b),
    ensures
        a == b,
{
    let n = ("502,"@ + fragment + ","@).len() as int;
    assert(failure_record_of(fragment, a).skip(n) =~= quoted_field(a));
    assert(failure_record_of(fragment, b).skip(n) =~= quoted_field(b));
    law_quoted_field_reads_back(a);
    law_quoted_field_reads_back(b);
}

proof fn lemma_first_fragment(names: Seq<Seq<char>>, from: int)
    requires
        0 <= from <= names.len(),
    ensures
        match first_fragment(names, from) {
            Some(name) => exists|i: int|
                from <= i < names.len() && #[trigger] names[i] == name && !is_envelope_field(name)
                    && forall|j: int| from <= j < i ==> is_envelope_field(#[trigger] names[j]),
            None => forall|j: int| from <= j < names.len() ==> is_envelope_field(#[trigger] names[j]),
        },
    decreases names.len() - from,
{
    if from < names.len() {
        if is_envelope_field(names[from]) {
            lemma_first_fragment(names, from + 1);
            if let Some(name) = first_fragment(names, from + 1) {
                let i = choose|i: int|
                    from + 1 <= i < names.len() && #[trigger] names[i] == name
                        && !is_envelope_field(name) && forall|j: int|
                        from + 1 <= j < i ==> is_envelope_field(#[trigger] names[j]);
                assert(names[i] == name);
            }
        } else {
            assert(names[from] == first_fragment(names, from)->Some_0);
        }
    }
}

/// An operation asks for what its first field names that is not part of the envelope, in the order
/// of the fields' names; without such a field it asks for nothing.
pub proof fn law_operations_are_named_by_their_first_fragment(
    members: Map<Seq<char>, JsonView>,
    name: Seq<char>,
)
    requires
        members.dom().finite(),
    ensures
        fragment_of(JsonView::Object(members)) == Some(name) <==> members.contains_key(name)
            && !is_envelope_field(name) && forall|other: Seq<char>| #[trigger]
            members.contains_key(other) && !is_envelope_field(other) && other != name
                ==> text::text_lt(name, other),
        fragment_of(JsonView::Object(members)) is None <==> forall|other: Seq<char>| #[trigger]
            members.contains_key(other) ==> is_envelope_field(other),
{
    let names = ordered_keys(members.dom());
    lemma_finite_sets_have_an_order(members.dom());
    lemma_first_fragment(names, 0);
    assert forall|k: Seq<char>| #[trigger] members.contains_key(k) == names.contains(k) by {
        assert(names.to_set().contains(k) == members.dom().contains(k));
    }
    match first_fragment(names, 0) {
        Some(found) => {
            let i = choose|i: int|
                0 <= i < names.len() && #[trigger] names[i] == found && !is_envelope_field(found)
                    && forall|j: int| 0 <= j < i ==> is_envelope_field(#[trigger] names[j]);
            assert(names.contains(names[i]));
            assert(members.contains_key(found));
            assert forall|other: Seq<char>| #[trigger]
                members.contains_key(other) && !is_envelope_field(other) && other
                    != found implies text::text_lt(found, other) by {
                let k = names.index_of(other);
                assert(names[k] == other);
                if k < i {
                    assert(is_envelope_field(names[k]));
                }
                assert(text::text_lt(names[i], names[k]));
            }
            if members.contains_key(name) && !is_envelope_field(name) && (forall|
                other: Seq<char>,
            | #[trigger]
                members.contains_key(other) && !is_envelope_field(other) && other != name
                    ==> text::text_lt(name, other)) && name != found {
                assert(text::text_lt(name, found));
                assert(text::text_lt(found, name));
                text::lemma_text_lt_asymmetric(name, found);
            }
        },
        None => {
            assert forall|other: Seq<char>| #[trigger]
                members.contains_key(other) implies is_envelope_field(other) by {
                let k = names.index_of(other);
                assert(is_envelope_field(names[k]));
            }
        },
    }
}

/// The envelope of an operation is what every operation has: who it is for, when and by whom it was
/// made, and how it is doing.
pub proof fn law_the_envelope_is_what_every_operation_has(name: Seq<char>)
    ensures
        is_envelope_field(name) <==> seq![
            "id"@,
            "status"@,
            "deviceId"@,
            "agentId"@,
            "creationTime"@,
            "description"@,
            "delivery"@,
            "externalSource"@,
            "self"@,
            "failureReason"@,
        ].contains(name),
{
    let fields = seq![
        "id"@,
        "status"@,
        "deviceId"@,
        "agentId"@,
        "creationTime"@,
        "description"@,
        "delivery"@,
        "externalSource"@,
        "self"@,
        "failureReason"@,
    ];
    assert(fields[0] == "id"@ && fields[1] == "status"@ && fields[2] == "deviceId"@ && fields[3]
        == "agentId"@ && fields[4] == "creationTime"@);
    assert(fields[5] == "description"@ && fields[6] == "delivery"@ && fields[7]
        == "externalSource"@ && fields[8] == "self"@ && fields[9] == "failureReason"@);
    if fields.contains(name) {
        let i = fields.index_of(name);
        assert(fields[i] == name);
    }
}

/// An operation is answered exactly when it is pending, for the gateway or one of its servers, and
/// asks for something; the answer fails it, at the object it is for, and names what it asked for.
pub proof fn law_pending_operations_are_answered(
    mqtt: TedgeMqtt,
    operation: Json,
    gateway_external_id: &str,
    servers: &[ServerConfig],
    r: Option<Message>,
)
    requires
        call_ensures(answer, (&mqtt, &operation, gateway_external_id, servers), r),
    ensures
        ({
            let body = operation.model();
            let source = member(body, "externalSource"@);
            let id = if source is Some {
                member(source->Some_0, "externalId"@)
            } else {
                None
            };
            let ours = id is Some && id->Some_0 is String && (id->Some_0->String_0
                == gateway_external_id@ || exists|i: int|
                0 <= i < servers@.len() && (#[trigger] servers@[i]).external_id is Some
                    && servers@[i].external_id->Some_0@ == id->Some_0->String_0);
            let pending = member(body, "status"@) == Some(JsonView::String("PENDING"@));
            &&& r is Some <==> pending && ours && fragment_of(body) is Some
            &&& r is Some ==> {
                let fragment = fragment_of(body)->Some_0;
                let message = r->Some_0.deep_view();
                &&& message.topic == "c8y/s/us/"@ + id->Some_0->String_0
                &&& !message.retain
                &&& message.payload == PayloadView::Text(
                    "502,"@ + fragment + ","@ + quoted_field(
                        fragment + " is not implemented by c8y-opcua-gateway-rs"@,
                    ),
                )
            }
        }),
{
    let all = servers@.map_values(|s: ServerConfig| s.deep_view());
    assert forall|i: int| 0 <= i < all.len() implies (#[trigger] all[i]).external_id
        == servers@[i].external_id.deep_view() by {}
    if let Some(id) = addressee(operation.model()) {
        if exists|i: int|
            0 <= i < servers@.len() && (#[trigger] servers@[i]).external_id is Some
                && servers@[i].external_id->Some_0@ == id {
            let i = choose|i: int|
                0 <= i < servers@.len() && (#[trigger] servers@[i]).external_id is Some
                    && servers@[i].external_id->Some_0@ == id;
            assert(all[i].external_id == Some(id));
        }
        if exists|i: int| 0 <= i < all.len() && (#[trigger] all[i]).external_id == Some(id) {
            let i = choose|i: int| 0 <= i < all.len() && (#[trigger] all[i]).external_id == Some(
                id,
            );
            assert(servers@[i].external_id is Some);
        }
    }
}

} // verus!
