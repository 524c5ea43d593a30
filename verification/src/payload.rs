//! thin-edge telemetry payloads.
use crate::json::{
    self, empty_object, lemma_object_model, members_model, with_fragments, Json, JsonView,
};
use crate::model::{
    self, fragment_name_of, non_blank_text, series_name_of, AlarmCreation, AlarmView, EventCreation,
    EventView, MeasurementCreation, MeasurementView,
};
use crate::text::{self, replaced, unicode_lowercase};
use crate::text_map::{strictly_increasing, TextMap};
use crate::ua::{rfc3339, to_rfc3339, utc_now, DataValue, DateTime, Number, Variant};
use crate::value::{self, json_of_variant, number_of, text_of_variant};
use vstd::prelude::*;

verus! {

/// Fragment prefix carrying the originating OPC UA node.
const NODE_ID_FRAGMENT_PREFIX: &'static str = "c8y_ua_SourceNodeId_";

const VALUE_PLACEHOLDER: &'static str = "${value}";

// Time -----------------------------------------------------------------------------

/// The time of a data value: source, then server, then now.
pub open spec fn time_of(value: DataValue, now: DateTime) -> DateTime {
    match (value.source_timestamp, value.server_timestamp) {
        (Some(t), _) => t,
        (None, Some(t)) => t,
        (None, None) => now,
    }
}

/// Timestamp of a data value, `now` being the current time.
pub fn timestamp_at(value: &DataValue, now: DateTime) -> (r: String)
    ensures
        r@ == rfc3339(time_of(*value, now).ticks),
{
    let time: DateTime = match value.source_timestamp {
        Some(t) => t,
        None => match value.server_timestamp {
            Some(t) => t,
            None => now,
        },
    };
    to_rfc3339(time)
}

/// Timestamp of a data value: source, then server, then now.
pub fn timestamp(value: &DataValue) -> (r: String)
    ensures
        exists|now: DateTime| r@ == rfc3339((#[trigger] time_of(*value, now)).ticks),
{
    let now: DateTime = utc_now();
    let r: String = timestamp_at(value, now);
    proof {
        assert(r@ == rfc3339(time_of(*value, now).ticks));
    }
    r
}

// Measurements ---------------------------------------------------------------------

/// One measurement message, grouping every series read in the same cycle.
///
/// A cyclic read returns all of a device type's nodes at once, so they belong in one
/// message — the local broker and the mapper both see one publish per cycle instead of
/// one per node.
#[derive(Debug)]
pub struct MeasurementBuilder {
    /// The series of each fragment.
    fragments: TextMap<TextMap<Number>>,
    /// The time of the first series; `None` as long as there is no series.
    time: Option<String>,
}

/// What a measurement message holds so far.
#[verifier::ext_equal]
pub struct BuilderView {
    pub fragments: Map<Seq<char>, Map<Seq<char>, Number>>,
    pub time: Option<Seq<char>>,
}

pub open spec fn fragments_view(m: Map<Seq<char>, TextMap<Number>>) -> Map<
    Seq<char>,
    Map<Seq<char>, Number>,
> {
    m.map_values(|f: TextMap<Number>| f@)
}

impl View for MeasurementBuilder {
    type V = BuilderView;

    closed spec fn view(&self) -> BuilderView {
        BuilderView { fragments: fragments_view(self.fragments@), time: self.time.deep_view() }
    }
}

/// A message without series.
pub open spec fn empty_builder() -> BuilderView {
    BuilderView { fragments: Map::empty(), time: None }
}

/// The fragments with `names` added in turn, each without series unless it is there
/// already.
pub open spec fn with_static(
    fragments: Map<Seq<char>, Map<Seq<char>, Number>>,
    names: Seq<Seq<char>>,
) -> Map<Seq<char>, Map<Seq<char>, Number>>
    decreases names.len(),
{
    if names.len() == 0 {
        fragments
    } else {
        let before = with_static(fragments, names.drop_last());
        if before.contains_key(names.last()) {
            before
        } else {
            before.insert(names.last(), Map::empty())
        }
    }
}

/// The fragments with a series set to a number.
pub open spec fn with_series(
    fragments: Map<Seq<char>, Map<Seq<char>, Number>>,
    fragment: Seq<char>,
    series: Seq<char>,
    number: Number,
) -> Map<Seq<char>, Map<Seq<char>, Number>> {
    let old_series = if fragments.contains_key(fragment) {
        fragments[fragment]
    } else {
        Map::empty()
    };
    fragments.insert(fragment, old_series.insert(series, number))
}

/// The number that a data value holds.
pub open spec fn number_of_value(value: DataValue) -> Option<Number> {
    match value.value {
        Some(variant) => number_of(variant),
        None => None,
    }
}

pub open spec fn or_none(names: Option<Seq<Seq<char>>>) -> Seq<Seq<char>> {
    match names {
        Some(names) => names,
        None => Seq::empty(),
    }
}

/// The message after a value was added. A value that is no number changes nothing; the
/// first one that is dates the message.
pub open spec fn with_value(
    builder: BuilderView,
    creation: MeasurementView,
    node_id: Seq<char>,
    value: DataValue,
    now: DateTime,
) -> BuilderView {
    match number_of_value(value) {
        None => builder,
        Some(number) => BuilderView {
            fragments: with_static(
                with_series(
                    builder.fragments,
                    fragment_name_of(creation, node_id),
                    series_name_of(creation, node_id),
                    number,
                ),
                or_none(creation.static_fragments),
            ),
            time: match builder.time {
                Some(time) => Some(time),
                None => Some(rfc3339(time_of(value, now).ticks)),
            },
        },
    }
}

/// The series of a fragment as JSON.
pub open spec fn series_model(series: Map<Seq<char>, Number>) -> JsonView {
    JsonView::Object(series.map_values(|n: Number| JsonView::Number(n)))
}

/// A finished message: its fragments, and its time in place of a fragment of that name.
pub open spec fn measurement_model(
    fragments: Map<Seq<char>, Map<Seq<char>, Number>>,
    time: Seq<char>,
) -> JsonView {
    JsonView::Object(
        fragments.map_values(|f: Map<Seq<char>, Number>| series_model(f)).insert(
            "time"@,
            JsonView::String(time),
        ),
    )
}

fn series_json(series: &TextMap<Number>) -> (r: Json)
    ensures
        r.model() == series_model(series@),
{
    broadcast use lemma_object_model;

    let mut out: TextMap<Json> = TextMap::new();
    let n: usize = series.len();
    let ghost keys = series.key_seq();
    proof {
        series.lemma_entries();
    }
    let mut i: usize = 0;
    while i < n
        invariant
            i <= n == keys.len(),
            keys == series.key_seq(),
            strictly_increasing(keys),
            forall|j: int|
                0 <= j < i ==> out@.contains_key(#[trigger] keys[j]) && out@[keys[j]].model()
                    == JsonView::Number(series@[keys[j]]),
            forall|k: Seq<char>| #[trigger]
                out@.contains_key(k) ==> exists|j: int| 0 <= j < i && keys[j] == k,
        decreases n - i,
    {
        let number: Number = *series.value_at(i);
        let ghost before = out@;
        out.insert(series.key_at(i).clone(), Json::Number(number));
        proof {
            assert forall|k: Seq<char>| #[trigger] out@.contains_key(k) implies exists|j: int|
                0 <= j < i + 1 && keys[j] == k by {
                if k == keys[i as int] {
                } else {
                    assert(before.contains_key(k));
                }
            }
        }
        i = i + 1;
    }
    proof {
        let model = members_model(out@);
        let expected = series@.map_values(|n: Number| JsonView::Number(n));
        assert forall|k: Seq<char>| #[trigger] expected.contains_key(k) implies model.contains_key(
            k,
        ) && model[k] == expected[k] by {
            let j = keys.index_of(k);
            assert(keys[j] == k);
        }
        assert forall|k: Seq<char>| #[trigger] model.contains_key(k) implies expected.contains_key(
            k,
        ) by {
            let j = choose|j: int| 0 <= j < i && keys[j] == k;
            assert(series@.contains_key(keys[j]));
        }
        assert(model =~= expected);
    }
    Json::Object(out)
}

fn fragments_json(fragments: &TextMap<TextMap<Number>>) -> (r: TextMap<Json>)
    ensures
        members_model(r@) == fragments_view(fragments@).map_values(
            |f: Map<Seq<char>, Number>| series_model(f),
        ),
{
    let mut out: TextMap<Json> = TextMap::new();
    let n: usize = fragments.len();
    let ghost keys = fragments.key_seq();
    proof {
        fragments.lemma_entries();
    }
    let mut i: usize = 0;
    while i < n
        invariant
            i <= n == keys.len(),
            keys == fragments.key_seq(),
            strictly_increasing(keys),
            forall|j: int|
                0 <= j < i ==> out@.contains_key(#[trigger] keys[j]) && out@[keys[j]].model()
                    == series_model(fragments@[keys[j]]@),
            forall|k: Seq<char>| #[trigger]
                out@.contains_key(k) ==> exists|j: int| 0 <= j < i && keys[j] == k,
        decreases n - i,
    {
        let ghost before = out@;
        let series: Json = series_json(fragments.value_at(i));
        out.insert(fragments.key_at(i).clone(), series);
        proof {
            assert forall|k: Seq<char>| #[trigger] out@.contains_key(k) implies exists|j: int|
                0 <= j < i + 1 && keys[j] == k by {
                if k == keys[i as int] {
                } else {
                    assert(before.contains_key(k));
                }
            }
        }
        i = i + 1;
    }
    proof {
        let model = members_model(out@);
        let expected = fragments_view(fragments@).map_values(
            |f: Map<Seq<char>, Number>| series_model(f),
        );
        assert forall|k: Seq<char>| #[trigger] expected.contains_key(k) implies model.contains_key(
            k,
        ) && model[k] == expected[k] by {
            let j = keys.index_of(k);
            assert(keys[j] == k);
        }
        assert forall|k: Seq<char>| #[trigger] model.contains_key(k) implies expected.contains_key(
            k,
        ) by {
            let j = choose|j: int| 0 <= j < i && keys[j] == k;
            assert(fragments@.contains_key(keys[j]));
        }
        assert(model =~= expected);
    }
    out
}

impl MeasurementBuilder {
    pub fn new() -> (r: Self)
        ensures
            r@ == empty_builder(),
    {
        let r = MeasurementBuilder { fragments: TextMap::new(), time: None };
        proof {
            assert(r@ =~= empty_builder());
        }
        r
    }

    /// Add one series, `now` being the current time. Returns false when the value could
    /// not be read as a number.
    pub fn add_at(
        &mut self,
        creation: &MeasurementCreation,
        node_id: &str,
        data_value: &DataValue,
        now: DateTime,
    ) -> (r: bool)
        ensures
            r == number_of_value(*data_value) is Some,
            final(self)@ == with_value(
                old(self)@,
                creation.deep_view(),
                node_id@,
                *data_value,
                now,
            ),
    {
        let number: Number = match &data_value.value {
            Some(variant) => match value::as_number(variant) {
                Some(number) => number,
                None => {
                    return false;
                },
            },
            None => {
                return false;
            },
        };
        let fragment: String = creation.fragment_name(node_id);
        let series: String = creation.series_name(node_id);
        let ghost before = fragments_view(self.fragments@);
        let ghost target = with_series(before, fragment@, series@, number);
        let ghost fragments_before = self.fragments@;
        let mut members: TextMap<Number> = match self.fragments.remove(fragment.as_str()) {
            Some(members) => members,
            None => TextMap::new(),
        };
        members.insert(series, number);
        self.fragments.insert(fragment, members);
        proof {
            assert(fragments_view(self.fragments@) =~= target);
        }
        // A cyclic read hands back one timestamp per node; the first good one dates the
        // batch.
        if self.time.is_none() {
            self.time = Some(timestamp_at(data_value, now));
        }
        let ghost time = self.time;
        if let Some(names) = &creation.static_fragments {
            let ghost all = names.deep_view();
            let mut i: usize = 0;
            proof {
                assert(all.take(0) =~= Seq::empty());
            }
            while i < names.len()
                invariant
                    i <= names@.len(),
                    all == names.deep_view(),
                    self.time == time,
                    fragments_view(self.fragments@) == with_static(target, all.take(i as int)),
                decreases names@.len() - i,
            {
                let ghost now_view = self.fragments@;
                proof {
                    assert(all.take(i + 1).drop_last() =~= all.take(i as int));
                    assert(all.take(i + 1).last() == names@[i as int]@);
                }
                if !self.fragments.contains(names[i].as_str()) {
                    let empty: TextMap<Number> = TextMap::new();
                    self.fragments.insert(names[i].clone(), empty);
                    proof {
                        assert(fragments_view(self.fragments@) =~= fragments_view(now_view).insert(
                            names@[i as int]@,
                            Map::empty(),
                        ));
                    }
                }
                i = i + 1;
            }
            proof {
                assert(all.take(i as int) =~= all);
            }
        }
        true
    }

    /// Add one series. Returns false when the value could not be read as a number.
    pub fn add(
        &mut self,
        creation: &MeasurementCreation,
        node_id: &str,
        data_value: &DataValue,
    ) -> (r: bool)
        ensures
            r == number_of_value(*data_value) is Some,
            exists|now: DateTime|
                final(self)@ == #[trigger] with_value(
                    old(self)@,
                    creation.deep_view(),
                    node_id@,
                    *data_value,
                    now,
                ),
    {
        let now: DateTime = utc_now();
        self.add_at(creation, node_id, data_value, now)
    }

    pub fn is_empty(&self) -> (r: bool)
        ensures
            r == self@.time is None,
    {
        self.time.is_none()
    }

    /// Finish the message, or `None` when nothing publishable was added.
    pub fn build(self) -> (r: Option<Json>)
        ensures
            r is Some == self@.time is Some,
            r matches Some(message) ==> message.model() == measurement_model(
                self@.fragments,
                self@.time->Some_0,
            ),
    {
        broadcast use lemma_object_model;

        match self.time {
            None => None,
            Some(time) => {
                let mut out: TextMap<Json> = fragments_json(&self.fragments);
                json::put(&mut out, "time", Json::String(time));
                Some(Json::Object(out))
            },
        }
    }
}

/// The unit of a series as JSON.
pub open spec fn unit_model(unit: Seq<char>) -> JsonView {
    JsonView::Object(Map::empty().insert("unit"@, JsonView::String(unit)))
}

/// The units of series as members of an object.
pub open spec fn meta_members(units: Seq<(Seq<char>, Seq<char>)>) -> Map<Seq<char>, JsonView>
    decreases units.len(),
{
    if units.len() == 0 {
        Map::empty()
    } else {
        meta_members(units.drop_last()).insert(units.last().0, unit_model(units.last().1))
    }
}

pub open spec fn units_seq(units: Seq<(String, String)>) -> Seq<(Seq<char>, Seq<char>)> {
    units.map_values(|u: (String, String)| (u.0@, u.1@))
}

/// Retained `m/<type>/meta` payload declaring the unit of each series.
pub fn measurement_meta(series_units: &[(String, String)]) -> (r: Option<Json>)
    ensures
        r is Some == (series_units@.len() > 0),
        r matches Some(meta) ==> meta.model() == JsonView::Object(
            meta_members(units_seq(series_units@)),
        ),
{
    broadcast use lemma_object_model;

    if series_units.len() == 0 {
        return None;
    }
    let mut out: TextMap<Json> = TextMap::new();
    let ghost all = units_seq(series_units@);
    let mut i: usize = 0;
    proof {
        assert(members_model(out@) =~= meta_members(all.take(0)));
    }
    while i < series_units.len()
        invariant
            i <= series_units@.len(),
            all == units_seq(series_units@),
            members_model(out@) == meta_members(all.take(i as int)),
        decreases series_units@.len() - i,
    {
        let mut unit: TextMap<Json> = TextMap::new();
        proof {
            assert(members_model(unit@) =~= Map::empty());
            assert(all.take(i + 1).drop_last() =~= all.take(i as int));
            assert(all.take(i + 1).last() == (
                series_units@[i as int].0@,
                series_units@[i as int].1@,
            ));
        }
        json::put(&mut unit, "unit", Json::String(series_units[i].1.clone()));
        proof {
            lemma_object_model(unit);
        }
        json::put(&mut out, series_units[i].0.as_str(), Json::Object(unit));
        i = i + 1;
    }
    proof {
        assert(all.take(i as int) =~= all);
    }
    Some(Json::Object(out))
}

// Events and alarms ----------------------------------------------------------------

pub open spec fn or_empty(s: Option<Seq<char>>) -> Seq<char> {
    match s {
        Some(s) => s,
        None => Seq::empty(),
    }
}

/// The value of a data value; the empty value where it has none.
pub open spec fn variant_of(value: DataValue) -> Variant {
    match value.value {
        Some(variant) => variant,
        None => Variant::Empty,
    }
}

/// A time as JSON, `null` where there is none.
pub open spec fn time_model(time: Option<DateTime>) -> JsonView {
    match time {
        Some(t) => JsonView::String(rfc3339(t.ticks)),
        None => JsonView::Null,
    }
}

/// The `c8y_DataValue` fragment: the value and what came with it.
pub open spec fn data_value_model(value: DataValue) -> JsonView {
    JsonView::Object(
        Map::empty().insert("value"@, json_of_variant(variant_of(value))).insert(
            "statusCode"@,
            match value.status {
                Some(status) => JsonView::Integer(status as i128),
                None => JsonView::Null,
            },
        ).insert("sourceTimestamp"@, time_model(value.source_timestamp)).insert(
            "serverTimestamp"@,
            time_model(value.server_timestamp),
        ),
    )
}

/// The fragment that names the node a message comes from.
pub open spec fn node_fragment(node_id: Seq<char>) -> Seq<char> {
    "c8y_ua_SourceNodeId_"@ + node_id
}

/// The text of an event: the configured one, with `${value}` replaced by the value.
pub open spec fn text_of_event(creation: EventView, value: DataValue) -> Seq<char> {
    replaced(or_empty(creation.text), "${value}"@, text_of_variant(variant_of(value)))
}

/// The payload of an event.
pub open spec fn event_model(
    creation: EventView,
    node_id: Seq<char>,
    value: DataValue,
    now: DateTime,
) -> JsonView {
    let text = text_of_event(creation, value);
    let members = Map::empty().insert(
        "time"@,
        JsonView::String(rfc3339(time_of(value, now).ticks)),
    ).insert("text"@, JsonView::String(text)).insert(
        node_fragment(node_id),
        empty_object(),
    ).insert("c8y_DataValue"@, data_value_model(value));
    JsonView::Object(with_fragments(members, or_none(creation.static_fragments)))
}

/// The severity that thin-edge is told: in lower case, `major` where none is configured.
pub open spec fn severity_of(creation: AlarmView) -> Seq<char> {
    unicode_lowercase(
        match non_blank_text(creation.severity) {
            Some(severity) => severity,
            None => "major"@,
        },
    )
}

/// The payload of a raised alarm.
pub open spec fn alarm_model(
    creation: AlarmView,
    node_id: Seq<char>,
    value: DataValue,
    now: DateTime,
) -> JsonView {
    let members = Map::empty().insert(
        "time"@,
        JsonView::String(rfc3339(time_of(value, now).ticks)),
    ).insert("text"@, JsonView::String(or_empty(creation.text))).insert(
        "severity"@,
        JsonView::String(severity_of(creation)),
    ).insert(node_fragment(node_id), empty_object());
    JsonView::Object(with_fragments(members, or_none(creation.static_fragments)))
}

/// An optional time as JSON.
fn time_json(time: Option<DateTime>) -> (r: Json)
    ensures
        r.model() == time_model(time),
{
    match time {
        Some(t) => Json::String(to_rfc3339(t)),
        None => Json::Null,
    }
}

fn data_value_json(data_value: &DataValue) -> (r: Json)
    ensures
        r.model() == data_value_model(*data_value),
{
    broadcast use lemma_object_model;

    let mut out: TextMap<Json> = TextMap::new();
    proof {
        assert(members_model(out@) =~= Map::empty());
    }
    let value: Json = match &data_value.value {
        Some(variant) => value::as_json(variant),
        None => Json::Null,
    };
    json::put(&mut out, "value", value);
    let status: Json = match data_value.status {
        Some(status) => Json::Integer(status as i128),
        None => Json::Null,
    };
    json::put(&mut out, "statusCode", status);
    json::put(&mut out, "sourceTimestamp", time_json(data_value.source_timestamp));
    json::put(&mut out, "serverTimestamp", time_json(data_value.server_timestamp));
    Json::Object(out)
}

fn add_static_fragments(out: &mut TextMap<Json>, fragments: &Option<Vec<String>>)
    ensures
        members_model(final(out)@) == with_fragments(
            members_model(old(out)@),
            or_none(fragments.deep_view()),
        ),
{
    if let Some(names) = fragments {
        let ghost start = members_model(out@);
        let ghost all = names.deep_view();
        let mut i: usize = 0;
        proof {
            assert(all.take(0) =~= Seq::empty());
        }
        while i < names.len()
            invariant
                i <= names@.len(),
                all == names.deep_view(),
                members_model(out@) == with_fragments(start, all.take(i as int)),
            decreases names@.len() - i,
        {
            proof {
                assert(all.take(i + 1).drop_last() =~= all.take(i as int));
                assert(all.take(i + 1).last() == names@[i as int]@);
            }
            if !out.contains(names[i].as_str()) {
                json::put(out, names[i].as_str(), Json::empty());
            }
            i = i + 1;
        }
        proof {
            assert(all.take(i as int) =~= all);
        }
    }
}

/// The text of an event: the configured one, with `${value}` replaced by the value.
pub(crate) fn event_text(creation: &EventCreation, data_value: &DataValue) -> (r: String)
    ensures
        r@ == text_of_event(creation.deep_view(), *data_value),
{
    let rendered: String = match &data_value.value {
        Some(variant) => value::as_text(variant),
        None => String::new(),
    };
    let template: &str = match &creation.text {
        Some(text) => text.as_str(),
        None => "",
    };
    proof {
        reveal_strlit("${value}");
        reveal_strlit("");
        assert(""@ =~= Seq::empty());
    }
    text::replace(template, VALUE_PLACEHOLDER, rendered.as_str())
}

/// `te/…/e/<type>` payload, `now` being the current time. `${value}` in the configured
/// text is replaced by the value.
pub fn event_at(
    creation: &EventCreation,
    node_id: &str,
    data_value: &DataValue,
    now: DateTime,
) -> (r: Json)
    ensures
        r.model() == event_model(creation.deep_view(), node_id@, *data_value, now),
{
    broadcast use lemma_object_model;

    let text: String = event_text(creation, data_value);
    let mut out: TextMap<Json> = TextMap::new();
    proof {
        assert(members_model(out@) =~= Map::empty());
    }
    json::put(&mut out, "time", Json::String(timestamp_at(data_value, now)));
    json::put(&mut out, "text", Json::String(text));
    let fragment: String = text::concat(NODE_ID_FRAGMENT_PREFIX, node_id);
    json::put(&mut out, fragment.as_str(), Json::empty());
    json::put(&mut out, "c8y_DataValue", data_value_json(data_value));
    add_static_fragments(&mut out, &creation.static_fragments);
    Json::Object(out)
}

/// `te/…/e/<type>` payload. `${value}` in the configured text is replaced by the value.
pub fn event(creation: &EventCreation, node_id: &str, data_value: &DataValue) -> (r: Json)
    ensures
        exists|now: DateTime|
            r.model() == #[trigger] event_model(
                creation.deep_view(),
                node_id@,
                *data_value,
                now,
            ),
{
    let now: DateTime = utc_now();
    event_at(creation, node_id, data_value, now)
}

/// thin-edge expects a lower-case severity; device types store the Cumulocity spelling.
fn severity(creation: &AlarmCreation) -> (r: String)
    ensures
        r@ == severity_of(creation.deep_view()),
{
    let configured: &str = match model::non_blank(model::as_text(&creation.severity)) {
        Some(severity) => severity,
        None => "major",
    };
    text::to_lowercase(configured)
}

/// `te/…/a/<type>` payload for a raised alarm, `now` being the current time. Clearing is
/// an empty retained publish instead.
pub fn alarm_at(
    creation: &AlarmCreation,
    node_id: &str,
    data_value: &DataValue,
    now: DateTime,
) -> (r: Json)
    ensures
        r.model() == alarm_model(creation.deep_view(), node_id@, *data_value, now),
{
    broadcast use lemma_object_model;

    let text: String = match &creation.text {
        Some(text) => text.clone(),
        None => String::new(),
    };
    let mut out: TextMap<Json> = TextMap::new();
    proof {
        assert(members_model(out@) =~= Map::empty());
    }
    json::put(&mut out, "time", Json::String(timestamp_at(data_value, now)));
    json::put(&mut out, "text", Json::String(text));
    json::put(&mut out, "severity", Json::String(severity(creation)));
    let fragment: String = text::concat(NODE_ID_FRAGMENT_PREFIX, node_id);
    json::put(&mut out, fragment.as_str(), Json::empty());
    add_static_fragments(&mut out, &creation.static_fragments);
    Json::Object(out)
}

/// `te/…/a/<type>` payload for a raised alarm. Clearing is an empty retained publish
/// instead.
pub fn alarm(creation: &AlarmCreation, node_id: &str, data_value: &DataValue) -> (r: Json)
    ensures
        exists|now: DateTime|
            r.model() == #[trigger] alarm_model(
                creation.deep_view(),
                node_id@,
                *data_value,
                now,
            ),
{
    let now: DateTime = utc_now();
    alarm_at(creation, node_id, data_value, now)
}

// Laws -----------------------------------------------------------------------------

/// The members of an event that static fragments are added to.
spec fn event_members(
    creation: EventView,
    node_id: Seq<char>,
    value: DataValue,
    now: DateTime,
) -> Map<Seq<char>, JsonView> {
    Map::empty().insert("time"@, JsonView::String(rfc3339(time_of(value, now).ticks))).insert(
        "text"@,
        JsonView::String(text_of_event(creation, value)),
    ).insert(node_fragment(node_id), empty_object()).insert(
        "c8y_DataValue"@,
        data_value_model(value),
    )
}

/// An event has its text, its time, its node and its value, whatever static fragments it
/// is configured with.
pub proof fn law_event_says_what_happened(
    creation: EventView,
    node_id: Seq<char>,
    value: DataValue,
    now: DateTime,
)
    ensures
        json::member(event_model(creation, node_id, value, now), "text"@) == Some(
            JsonView::String(text_of_event(creation, value)),
        ),
        json::member(event_model(creation, node_id, value, now), "time"@) == Some(
            JsonView::String(rfc3339(time_of(value, now).ticks)),
        ),
        json::member(event_model(creation, node_id, value, now), node_fragment(node_id)) == Some(
            empty_object(),
        ),
        json::member(event_model(creation, node_id, value, now), "c8y_DataValue"@) == Some(
            data_value_model(value),
        ),
{
    reveal_strlit("text");
    reveal_strlit("time");
    reveal_strlit("c8y_DataValue");
    reveal_strlit("c8y_ua_SourceNodeId_");
    let members = event_members(creation, node_id, value, now);
    let names = or_none(creation.static_fragments);
    assert("text"@[2] == 'x');
    assert("time"@[2] == 'm');
    assert("c8y_DataValue"@[0] == 'c');
    assert(node_fragment(node_id)[0] == 'c');
    assert("text"@[0] == 't');
    assert("time"@[0] == 't');
    assert(node_fragment(node_id)[4] == 'u');
    assert("c8y_DataValue"@[4] == 'D');
    json::lemma_fragments_keep_members(members, names, "text"@);
    json::lemma_fragments_keep_members(members, names, "time"@);
    json::lemma_fragments_keep_members(members, names, "c8y_DataValue"@);
    json::lemma_fragments_keep_members(members, names, node_fragment(node_id));
}

/// A raised alarm has its text, its time, its severity and its node, whatever static
/// fragments it is configured with.
pub proof fn law_alarm_says_what_happened(
    creation: AlarmView,
    node_id: Seq<char>,
    value: DataValue,
    now: DateTime,
)
    ensures
        json::member(alarm_model(creation, node_id, value, now), "text"@) == Some(
            JsonView::String(or_empty(creation.text)),
        ),
        json::member(alarm_model(creation, node_id, value, now), "time"@) == Some(
            JsonView::String(rfc3339(time_of(value, now).ticks)),
        ),
        json::member(alarm_model(creation, node_id, value, now), "severity"@) == Some(
            JsonView::String(severity_of(creation)),
        ),
        json::member(alarm_model(creation, node_id, value, now), node_fragment(node_id)) == Some(
            empty_object(),
        ),
{
    reveal_strlit("text");
    reveal_strlit("time");
    reveal_strlit("severity");
    reveal_strlit("c8y_ua_SourceNodeId_");
    let members = Map::<Seq<char>, JsonView>::empty().insert(
        "time"@,
        JsonView::String(rfc3339(time_of(value, now).ticks)),
    ).insert("text"@, JsonView::String(or_empty(creation.text))).insert(
        "severity"@,
        JsonView::String(severity_of(creation)),
    ).insert(node_fragment(node_id), empty_object());
    let names = or_none(creation.static_fragments);
    assert("text"@[2] == 'x');
    assert("time"@[2] == 'm');
    assert("severity"@[0] == 's');
    assert(node_fragment(node_id)[0] == 'c');
    assert("text"@[0] == 't');
    assert("time"@[0] == 't');
    json::lemma_fragments_keep_members(members, names, "text"@);
    json::lemma_fragments_keep_members(members, names, "time"@);
    json::lemma_fragments_keep_members(members, names, "severity"@);
    json::lemma_fragments_keep_members(members, names, node_fragment(node_id));
}

/// The number of a series in a message, where there is one.
pub open spec fn series_at(
    fragments: Map<Seq<char>, Map<Seq<char>, Number>>,
    fragment: Seq<char>,
    series: Seq<char>,
) -> Option<Number> {
    if fragments.contains_key(fragment) && fragments[fragment].contains_key(series) {
        Some(fragments[fragment][series])
    } else {
        None
    }
}

proof fn lemma_static_fragments_keep_series(
    fragments: Map<Seq<char>, Map<Seq<char>, Number>>,
    names: Seq<Seq<char>>,
)
    ensures
        forall|f: Seq<char>, s: Seq<char>|
            series_at(with_static(fragments, names), f, s) == #[trigger] series_at(fragments, f, s),
        forall|f: Seq<char>|
            with_static(fragments, names).contains_key(f) <==> #[trigger] fragments.contains_key(f)
                || names.contains(f),
    decreases names.len(),
{
    if names.len() > 0 {
        let first = names.drop_last();
        lemma_static_fragments_keep_series(fragments, first);
        assert(names =~= first.push(names.last()));
        assert forall|f: Seq<char>| names.contains(f) <==> first.contains(f) || f == names.last() by {
            if first.contains(f) {
                assert(names[first.index_of(f)] == f);
            }
            if f == names.last() {
                assert(names[names.len() - 1] == f);
            }
            if names.contains(f) {
                let i = names.index_of(f);
                if i < first.len() {
                    assert(first[i] == f);
                }
            }
        }
        let before = with_static(fragments, first);
        let after = with_static(fragments, names);
        assert forall|f: Seq<char>, s: Seq<char>|
            series_at(after, f, s) == #[trigger] series_at(fragments, f, s) by {
            assert(series_at(before, f, s) == series_at(fragments, f, s));
        }
        assert forall|f: Seq<char>| after.contains_key(f) <==> #[trigger] fragments.contains_key(f)
            || names.contains(f) by {
            assert(before.contains_key(f) <==> fragments.contains_key(f) || first.contains(f));
        }
    } else {
        assert forall|f: Seq<char>| !names.contains(f) by {}
    }
}

/// A value that holds a number sets its series of its fragment to that number, whatever the
/// message held before; every other series is as it was.
pub proof fn law_the_latest_value_of_a_series_counts(
    builder: BuilderView,
    creation: MeasurementView,
    node_id: Seq<char>,
    value: DataValue,
    now: DateTime,
    fragment: Seq<char>,
    series: Seq<char>,
)
    requires
        number_of_value(value) is Some,
    ensures
        ({
            let after = with_value(builder, creation, node_id, value, now);
            if fragment == fragment_name_of(creation, node_id) && series == series_name_of(
                creation,
                node_id,
            ) {
                series_at(after.fragments, fragment, series) == number_of_value(value)
            } else {
                series_at(after.fragments, fragment, series) == series_at(
                    builder.fragments,
                    fragment,
                    series,
                )
            }
        }),
{
    let set = with_series(
        builder.fragments,
        fragment_name_of(creation, node_id),
        series_name_of(creation, node_id),
        number_of_value(value)->Some_0,
    );
    lemma_static_fragments_keep_series(set, or_none(creation.static_fragments));
    assert(series_at(
        with_static(set, or_none(creation.static_fragments)),
        fragment,
        series,
    ) == series_at(set, fragment, series));
}

/// The fragments of a message are those of its series and the static ones, and none goes.
pub proof fn law_static_fragments_are_added(
    builder: BuilderView,
    creation: MeasurementView,
    node_id: Seq<char>,
    value: DataValue,
    now: DateTime,
    fragment: Seq<char>,
)
    requires
        number_of_value(value) is Some,
    ensures
        with_value(builder, creation, node_id, value, now).fragments.contains_key(fragment) <==> {
            ||| builder.fragments.contains_key(fragment)
            ||| fragment == fragment_name_of(creation, node_id)
            ||| creation.static_fragments matches Some(names) && names.contains(fragment)
        },
{
    let set = with_series(
        builder.fragments,
        fragment_name_of(creation, node_id),
        series_name_of(creation, node_id),
        number_of_value(value)->Some_0,
    );
    lemma_static_fragments_keep_series(set, or_none(creation.static_fragments));
    assert(set.contains_key(fragment) <==> builder.fragments.contains_key(fragment) || fragment
        == fragment_name_of(creation, node_id));
}

/// The first number dates the message, and later ones leave its time; what is no number changes
/// nothing.
pub proof fn law_the_first_number_dates_the_message(
    builder: BuilderView,
    creation: MeasurementView,
    node_id: Seq<char>,
    value: DataValue,
    now: DateTime,
)
    ensures
        number_of_value(value) is None ==> with_value(builder, creation, node_id, value, now)
            == builder,
        number_of_value(value) is Some && builder.time is Some ==> with_value(
            builder,
            creation,
            node_id,
            value,
            now,
        ).time == builder.time,
        number_of_value(value) is Some && builder.time is None ==> with_value(
            builder,
            creation,
            node_id,
            value,
            now,
        ).time == Some(rfc3339(time_of(value, now).ticks)),
        empty_builder().time is None,
{
}

/// A value is dated by its source, else by its server, and only where neither does by now.
pub proof fn law_the_source_dates_a_value(value: DataValue, now: DateTime)
    ensures
        value.source_timestamp matches Some(t) ==> time_of(value, now) == t,
        value.source_timestamp is None && value.server_timestamp is Some ==> time_of(value, now)
            == value.server_timestamp->Some_0,
        value.source_timestamp is None && value.server_timestamp is None ==> time_of(value, now)
            == now,
{
}

/// A finished message holds the number of each series under its fragment, and its time.
pub proof fn law_messages_hold_their_series(
    fragments: Map<Seq<char>, Map<Seq<char>, Number>>,
    time: Seq<char>,
    fragment: Seq<char>,
    series: Seq<char>,
)
    requires
        fragment != "time"@,
    ensures
        json::member(measurement_model(fragments, time), "time"@) == Some(JsonView::String(time)),
        json::member(measurement_model(fragments, time), fragment) is Some
            == fragments.contains_key(fragment),
        fragments.contains_key(fragment) ==> match json::member(
            json::member(measurement_model(fragments, time), fragment)->Some_0,
            series,
        ) {
            Some(v) => series_at(fragments, fragment, series) is Some && v == JsonView::Number(
                series_at(fragments, fragment, series)->Some_0,
            ),
            None => series_at(fragments, fragment, series) is None,
        },
{
}

/// A series has the last unit that is given for it.
pub proof fn law_the_last_unit_of_a_series_is_declared(
    units: Seq<(Seq<char>, Seq<char>)>,
    i: int,
)
    requires
        0 <= i < units.len(),
        forall|j: int| i < j < units.len() ==> (#[trigger] units[j]).0 != units[i].0,
    ensures
        meta_members(units).contains_key(units[i].0),
        json::text_member(meta_members(units)[units[i].0], "unit"@) == Some(units[i].1),
    decreases units.len(),
{
    if i < units.len() - 1 {
        let first = units.drop_last();
        assert(units[units.len() - 1].0 != units[i].0);
        assert forall|j: int| i < j < first.len() implies (#[trigger] first[j]).0 != first[i].0 by {
            assert(units[j].0 != units[i].0);
        }
        law_the_last_unit_of_a_series_is_declared(first, i);
    }
}

/// A series that no unit is given for is not declared.
pub proof fn law_no_other_unit_is_declared(
    units: Seq<(Seq<char>, Seq<char>)>,
    series: Seq<char>,
)
    requires
        forall|i: int| 0 <= i < units.len() ==> (#[trigger] units[i]).0 != series,
    ensures
        !meta_members(units).contains_key(series),
    decreases units.len(),
{
    if units.len() > 0 {
        let first = units.drop_last();
        assert forall|i: int| 0 <= i < first.len() implies (#[trigger] first[i]).0 != series by {
            assert(units[i].0 != series);
        }
        law_no_other_unit_is_declared(first, series);
        assert(units[units.len() - 1].0 != series);
    }
}

/// The data of a value stand under their names: the value, its status and its two times, each
/// `null` where there is none.
pub proof fn law_the_data_of_a_value_are_told(value: DataValue)
    ensures
        json::member(data_value_model(value), "value"@) == Some(
            json_of_variant(variant_of(value)),
        ),
        json::member(data_value_model(value), "statusCode"@) == Some(
            match value.status {
                Some(status) => JsonView::Integer(status as i128),
                None => JsonView::Null,
            },
        ),
        json::member(data_value_model(value), "sourceTimestamp"@) == Some(
            match value.source_timestamp {
                Some(t) => JsonView::String(rfc3339(t.ticks)),
                None => JsonView::Null,
            },
        ),
        json::member(data_value_model(value), "serverTimestamp"@) == Some(
            match value.server_timestamp {
                Some(t) => JsonView::String(rfc3339(t.ticks)),
                None => JsonView::Null,
            },
        ),
        value.value matches Some(v) ==> variant_of(value) == v,
        value.value is None ==> variant_of(value) == Variant::Empty,
{
    reveal_strlit("value");
    reveal_strlit("statusCode");
    reveal_strlit("sourceTimestamp");
    reveal_strlit("serverTimestamp");
    assert("value"@.len() == 5);
    assert("statusCode"@.len() == 10);
    assert("sourceTimestamp"@[1] == 'o');
    assert("serverTimestamp"@[1] == 'e');
}

/// The placeholder in an event's text becomes the value: what stands before the first one stays,
/// and what stands behind it is treated alike. A text without one is published as it is, and no
/// text as an empty one.
pub proof fn law_the_placeholder_becomes_the_value(
    creation: EventView,
    before: Seq<char>,
    after: Seq<char>,
    value: DataValue,
)
    ensures
        creation.text == Some(before + "${value}"@ + after) && (forall|i: int|
            0 <= i < before.len() ==> !#[trigger] text::occurs_at(
                before + "${value}"@ + after,
                "${value}"@,
                i,
            )) ==> text_of_event(creation, value) == before + text_of_variant(variant_of(value))
            + text_of_event(EventView { text: Some(after), ..creation }, value),
        (creation.text matches Some(t) && forall|i: int|
            0 <= i <= t.len() ==> !#[trigger] text::occurs_at(t, "${value}"@, i))
            ==> text_of_event(creation, value) == creation.text->Some_0,
        creation.text is None ==> text_of_event(creation, value) == Seq::<char>::empty(),
{
    reveal_strlit("${value}");
    let pattern = "${value}"@;
    let with = text_of_variant(variant_of(value));
    if creation.text == Some(before + pattern + after) && (forall|i: int|
        0 <= i < before.len() ==> !#[trigger] text::occurs_at(before + pattern + after, pattern, i)) {
        text::law_the_pattern_is_replaced(before, after, pattern, with);
    }
    if let Some(t) = creation.text {
        if forall|i: int| 0 <= i <= t.len() ==> !#[trigger] text::occurs_at(t, pattern, i) {
            text::law_only_the_pattern_is_replaced(t, pattern, with);
        }
    }
}

/// An alarm has the configured severity in lower case, and that of a major one where none is
/// configured.
pub proof fn law_alarms_are_major_unless_configured(a: AlarmView)
    ensures
        a.severity matches Some(s) && !text::is_blank(s) ==> severity_of(a) == unicode_lowercase(
            text::trimmed(a.severity->Some_0),
        ),
        a.severity is None || text::is_blank(a.severity->Some_0) ==> severity_of(a)
            == unicode_lowercase("major"@),
{
}

/// Static fragments are members of an event and of a raised alarm, each an empty object unless
/// the name is taken.
pub proof fn law_static_fragments_are_members(
    event: EventView,
    alarm: AlarmView,
    node_id: Seq<char>,
    value: DataValue,
    now: DateTime,
    name: Seq<char>,
)
    ensures
        event.static_fragments matches Some(names) && names.contains(name) ==> json::member(
            event_model(event, node_id, value, now),
            name,
        ) is Some,
        alarm.static_fragments matches Some(names) && names.contains(name) ==> json::member(
            alarm_model(alarm, node_id, value, now),
            name,
        ) is Some,
        event.static_fragments is None ==> (json::member(
            event_model(event, node_id, value, now),
            name,
        ) is Some <==> name == "time"@ || name == "text"@ || name == node_fragment(node_id) || name
            == "c8y_DataValue"@),
        alarm.static_fragments is None ==> (json::member(
            alarm_model(alarm, node_id, value, now),
            name,
        ) is Some <==> name == "time"@ || name == "text"@ || name == node_fragment(node_id) || name
            == "severity"@),
{
    if let Some(names) = event.static_fragments {
        json::law_fragments_are_added(event_members(event, node_id, value, now), names, name);
    }
    if let Some(names) = alarm.static_fragments {
        let members = Map::empty().insert(
            "time"@,
            JsonView::String(rfc3339(time_of(value, now).ticks)),
        ).insert("text"@, JsonView::String(or_empty(alarm.text))).insert(
            "severity"@,
            JsonView::String(severity_of(alarm)),
        ).insert(node_fragment(node_id), empty_object());
        json::law_fragments_are_added(members, names, name);
    }
}

/// The node that an event or alarm comes from is told by a fragment of its own.
pub proof fn law_messages_name_their_node(
    event: EventView,
    alarm: AlarmView,
    node_id: Seq<char>,
    value: DataValue,
    now: DateTime,
)
    ensures
        json::member(
            event_model(event, node_id, value, now),
            "c8y_ua_SourceNodeId_"@ + node_id,
        ) is Some,
        json::member(
            alarm_model(alarm, node_id, value, now),
            "c8y_ua_SourceNodeId_"@ + node_id,
        ) is Some,
{
    law_event_says_what_happened(event, node_id, value, now);
    law_alarm_says_what_happened(alarm, node_id, value, now);
}

/// What is built holds the series and the time of the message, and nothing is built as long as
/// there is no series.
pub proof fn law_messages_are_built_from_their_series(
    builder: MeasurementBuilder,
    r: Option<Json>,
    fragment: Seq<char>,
    series: Seq<char>,
)
    requires
        call_ensures(MeasurementBuilder::build, (builder,), r),
        fragment != "time"@,
    ensures
        r is Some <==> builder@.time is Some,
        r matches Some(message) ==> {
            &&& json::text_member(message.model(), "time"@) == builder@.time
            &&& series_at(builder@.fragments, fragment, series) matches Some(n) ==> {
                &&& json::member(message.model(), fragment) matches Some(of_fragment)
                &&& json::member(of_fragment, series) == Some(JsonView::Number(n))
            }
        },
{
    if r is Some {
        law_messages_hold_their_series(
            builder@.fragments,
            builder@.time->Some_0,
            fragment,
            series,
        );
    }
}

} // verus!
