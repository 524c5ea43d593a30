//! The device type model.
use crate::json::Json;
use crate::text::{
    self, all_digits, ascii_lowercase, decimal, digits_value, is_blank, is_digit, pieces,
    same_ignoring_case, trimmed,
};
use crate::text_map::TextMap;
use crate::ua::Double;
use vstd::prelude::*;

verus! {

/// Managed object `type` of a device type.
pub const DEVICE_TYPE_MO_TYPE: &'static str = "c8y_OpcuaDeviceType";

/// Fragment inside the managed object that carries the device type itself.
pub const DEVICE_TYPE_FRAGMENT: &'static str = "com_cumulocity_opcua_common_model_mapping_DeviceType";

/// The Cumulocity managed-object envelope around a device type.
#[derive(Debug)]
pub struct ManagedObject {
    pub id: String,
    pub name: Option<String>,
    pub last_updated: Option<String>,
    pub device_type: Option<DeviceType>,
    pub fragments: TextMap<Json>,
}

/// What the inventory API says about a page of managed objects.
#[derive(Debug, Clone, Copy)]
pub struct Statistics {
    pub total_pages: Option<u32>,
    pub current_page: Option<u32>,
    pub page_size: Option<u32>,
}

#[derive(Debug)]
pub struct DeviceType {
    pub name: String,
    pub description: Option<String>,
    pub enabled: bool,
    pub mappings: Vec<MappingEntry>,
    pub apply_constraints: Option<ApplyConstraints>,
    pub subscription_type: Option<SubscriptionType>,
    pub overridden_subscriptions: Vec<OverriddenSubscription>,
    pub referenced_root_node_id: Option<String>,
    pub referenced_namespace_table: Vec<String>,
    pub referenced_server_id: Option<String>,
    pub referenced_server_name: Option<String>,
    pub ua_event_mappings: Option<Json>,
}

#[derive(Debug)]
pub struct MappingEntry {
    pub name: Option<String>,
    pub browse_path: Vec<String>,
    pub referenced_node_id: Option<String>,
    pub measurement_creation: Option<MeasurementCreation>,
    pub event_creation: Option<EventCreation>,
    pub alarm_creation: Option<AlarmCreation>,
    pub custom_action: Option<Json>,
}

#[derive(Debug)]
pub struct MeasurementCreation {
    pub type_: Option<String>,
    pub series: Option<String>,
    pub fragment_name: Option<String>,
    pub unit: Option<String>,
    pub static_fragments: Option<Vec<String>>,
}

#[derive(Debug)]
pub struct EventCreation {
    pub type_: Option<String>,
    pub text: Option<String>,
    pub static_fragments: Option<Vec<String>>,
}

#[derive(Debug)]
pub struct AlarmCreation {
    pub type_: Option<String>,
    pub text: Option<String>,
    pub severity: Option<String>,
    pub static_fragments: Option<Vec<String>>,
}

#[derive(Debug)]
pub struct ApplyConstraints {
    pub matches_server_ids: Vec<String>,
    pub matches_node_ids: Vec<String>,
    pub server_object_has_fragment: Option<String>,
    pub browse_path_matches_regex: Option<String>,
    pub server_has_node_with_values: Option<Json>,
}

#[derive(Debug)]
pub struct OverriddenSubscription {
    pub browse_path: Vec<String>,
    pub subscription_type: Option<SubscriptionType>,
}

#[derive(Debug)]
pub struct SubscriptionType {
    pub type_: Option<String>,
    pub cyclic_read_parameters: Option<CyclicReadParameters>,
    pub subscription_parameters: Option<SubscriptionParameters>,
}

/// Per-monitored-item parameters, as authored in the OPC UA UI.
#[derive(Debug)]
pub struct SubscriptionParameters {
    /// Requested sampling interval in milliseconds. `None` lets the server choose.
    pub sampling_rate: Option<Double>,
    pub queue_size: Option<u32>,
    /// `None`, `Absolute` or `Percent`.
    pub deadband_type: Option<String>,
    pub deadband_value: Option<Double>,
    /// OPC UA numeric range, for subscribing to a slice of an array node.
    pub ranges: Option<String>,
    /// `Status`, `StatusValue` or `StatusValueTimestamp`.
    pub data_change_trigger: Option<String>,
    pub discard_oldest: Option<bool>,
}

#[derive(Debug, Clone, Copy)]
pub struct CyclicReadParameters {
    pub rate: Option<u64>,
    /// In whole milliseconds.
    pub max_age: Option<u64>,
}

/// How a device type or a single mapping entry wants its values delivered.
#[derive(Debug, Clone, Copy, PartialEq, Eq, Structural)]
pub enum SubscriptionKind {
    /// OPC UA monitored items on a subscription.
    Subscription,
    /// Periodic Read service calls.
    CyclicRead,
    /// Explicitly no delivery.
    NoDelivery,
}

/// OPC UA `DeadbandType`, restricted to the two forms that carry a value.
#[derive(Debug, Clone, Copy, PartialEq, Eq, Structural)]
pub enum Deadband {
    Absolute,
    Percent,
}

/// OPC UA `DataChangeTrigger`.
#[derive(Debug, Clone, Copy, PartialEq, Eq, Structural)]
pub enum DataChangeTrigger {
    Status,
    StatusValue,
    StatusValueTimestamp,
}

// What the creations are -----------------------------------------------------------

pub struct MeasurementView {
    pub type_: Option<Seq<char>>,
    pub series: Option<Seq<char>>,
    pub fragment_name: Option<Seq<char>>,
    pub unit: Option<Seq<char>>,
    pub static_fragments: Option<Seq<Seq<char>>>,
}

pub struct EventView {
    pub type_: Option<Seq<char>>,
    pub text: Option<Seq<char>>,
    pub static_fragments: Option<Seq<Seq<char>>>,
}

pub struct AlarmView {
    pub type_: Option<Seq<char>>,
    pub text: Option<Seq<char>>,
    pub severity: Option<Seq<char>>,
    pub static_fragments: Option<Seq<Seq<char>>>,
}

impl DeepView for MeasurementCreation {
    type V = MeasurementView;

    open spec fn deep_view(&self) -> MeasurementView {
        MeasurementView {
            type_: self.type_.deep_view(),
            series: self.series.deep_view(),
            fragment_name: self.fragment_name.deep_view(),
            unit: self.unit.deep_view(),
            static_fragments: self.static_fragments.deep_view(),
        }
    }
}

impl DeepView for EventCreation {
    type V = EventView;

    open spec fn deep_view(&self) -> EventView {
        EventView {
            type_: self.type_.deep_view(),
            text: self.text.deep_view(),
            static_fragments: self.static_fragments.deep_view(),
        }
    }
}

impl DeepView for AlarmCreation {
    type V = AlarmView;

    open spec fn deep_view(&self) -> AlarmView {
        AlarmView {
            type_: self.type_.deep_view(),
            text: self.text.deep_view(),
            severity: self.severity.deep_view(),
            static_fragments: self.static_fragments.deep_view(),
        }
    }
}

impl Clone for MeasurementCreation {
    fn clone(&self) -> (r: Self)
        ensures
            r.deep_view() == self.deep_view(),
    {
        MeasurementCreation {
            type_: text::copy_text_option(&self.type_),
            series: text::copy_text_option(&self.series),
            fragment_name: text::copy_text_option(&self.fragment_name),
            unit: text::copy_text_option(&self.unit),
            static_fragments: text::copy_texts_option(&self.static_fragments),
        }
    }
}

impl Clone for EventCreation {
    fn clone(&self) -> (r: Self)
        ensures
            r.deep_view() == self.deep_view(),
    {
        EventCreation {
            type_: text::copy_text_option(&self.type_),
            text: text::copy_text_option(&self.text),
            static_fragments: text::copy_texts_option(&self.static_fragments),
        }
    }
}

impl Clone for AlarmCreation {
    fn clone(&self) -> (r: Self)
        ensures
            r.deep_view() == self.deep_view(),
    {
        AlarmCreation {
            type_: text::copy_text_option(&self.type_),
            text: text::copy_text_option(&self.text),
            severity: text::copy_text_option(&self.severity),
            static_fragments: text::copy_texts_option(&self.static_fragments),
        }
    }
}

impl Clone for SubscriptionParameters {
    fn clone(&self) -> (r: Self)
        ensures
            r == *self,
    {
        SubscriptionParameters {
            sampling_rate: self.sampling_rate,
            queue_size: self.queue_size,
            deadband_type: text::copy_text_option(&self.deadband_type),
            deadband_value: self.deadband_value,
            ranges: text::copy_text_option(&self.ranges),
            data_change_trigger: text::copy_text_option(&self.data_change_trigger),
            discard_oldest: self.discard_oldest,
        }
    }
}

impl Default for SubscriptionParameters {
    fn default() -> (r: Self)
        ensures
            r == default_parameters(),
    {
        SubscriptionParameters {
            sampling_rate: None,
            queue_size: None,
            deadband_type: None,
            deadband_value: None,
            ranges: None,
            data_change_trigger: None,
            discard_oldest: None,
        }
    }
}

/// Parameters of which none is set.
pub open spec fn default_parameters() -> SubscriptionParameters {
    SubscriptionParameters {
        sampling_rate: None,
        queue_size: None,
        deadband_type: None,
        deadband_value: None,
        ranges: None,
        data_change_trigger: None,
        discard_oldest: None,
    }
}

impl Default for ApplyConstraints {
    fn default() -> (r: Self)
        ensures
            r.matches_server_ids@.len() == 0,
            r.matches_node_ids@.len() == 0,
            r.server_object_has_fragment is None,
            r.browse_path_matches_regex is None,
            r.server_has_node_with_values is None,
    {
        ApplyConstraints {
            matches_server_ids: Vec::new(),
            matches_node_ids: Vec::new(),
            server_object_has_fragment: None,
            browse_path_matches_regex: None,
            server_has_node_with_values: None,
        }
    }
}

// Subscription types ---------------------------------------------------------------

/// A text without the white space around it, unless nothing else is in it.
pub open spec fn non_blank_text(s: Option<Seq<char>>) -> Option<Seq<char>> {
    match s {
        Some(s) if !is_blank(s) => Some(trimmed(s)),
        _ => None,
    }
}

pub fn non_blank(s: Option<&str>) -> (r: Option<&str>)
    ensures
        r is Some == non_blank_text(s.deep_view()) is Some,
        r matches Some(t) ==> non_blank_text(s.deep_view()) == Some(t@),
{
    match s {
        Some(s) => {
            let t: &str = text::trim(s);
            if text::is_empty(t) {
                None
            } else {
                Some(t)
            }
        },
        None => None,
    }
}

/// The text in an option, borrowed.
pub fn as_text(s: &Option<String>) -> (r: Option<&str>)
    ensures
        r.deep_view() == s.deep_view(),
{
    match s {
        Some(s) => Some(s.as_str()),
        None => None,
    }
}

/// What the `type` of a subscription type says.
pub open spec fn subscription_kind(type_: Option<Seq<char>>) -> SubscriptionKind {
    match type_ {
        Some(t) if same_ignoring_case(trimmed(t), "Subscription"@) => SubscriptionKind::Subscription,
        Some(t) if same_ignoring_case(trimmed(t), "CyclicRead"@) => SubscriptionKind::CyclicRead,
        _ => SubscriptionKind::NoDelivery,
    }
}

impl SubscriptionType {
    pub fn kind(&self) -> (r: SubscriptionKind)
        ensures
            r == subscription_kind(self.type_.deep_view()),
    {
        match &self.type_ {
            Some(t) => {
                let t: &str = text::trim(t.as_str());
                if text::eq_ignore_ascii_case(t, "Subscription") {
                    SubscriptionKind::Subscription
                } else if text::eq_ignore_ascii_case(t, "CyclicRead") {
                    SubscriptionKind::CyclicRead
                } else {
                    SubscriptionKind::NoDelivery
                }
            },
            None => SubscriptionKind::NoDelivery,
        }
    }
}

/// An index of a numeric range: decimal digits, of 32 bits.
pub open spec fn is_range_index(s: Seq<char>) -> bool {
    s.len() > 0 && all_digits(s) && digits_value(s) <= u32::MAX
}

/// A dimension of a numeric range: an index `n`, or `n:m` with `n` below `m`.
pub open spec fn is_range_dimension(s: Seq<char>) -> bool {
    let p = pieces(s, ':');
    ||| p.len() == 1 && is_range_index(p[0])
    ||| p.len() == 2 && is_range_index(p[0]) && is_range_index(p[1]) && digits_value(p[0])
        < digits_value(p[1])
}

/// A numeric range: one or more dimensions, joined by commas.
pub open spec fn is_range(s: Seq<char>) -> bool {
    forall|i: int|
        0 <= i < pieces(s, ',').len() ==> is_range_dimension(#[trigger] pieces(s, ',')[i])
}

/// The index that a text is, if it is one.
fn range_index(s: &str) -> (r: Option<u64>)
    ensures
        r is Some == is_range_index(s@),
        r matches Some(n) ==> n == digits_value(s@),
{
    let v: Vec<char> = text::chars_of(s);
    if v.len() > 0 && v[0] == '+' {
        proof {
            assert(!is_digit(s@[0]));
        }
        return None;
    }
    text::parse_unsigned(s, u32::MAX as u64)
}

fn is_dimension(s: &str) -> (r: bool)
    ensures
        r == is_range_dimension(s@),
{
    let parts: Vec<String> = text::split(s, ':');
    proof {
        assert(forall|i: int|
            0 <= i < parts@.len() ==> parts.deep_view()[i] == (#[trigger] parts@[i])@);
    }
    if parts.len() == 1 {
        range_index(parts[0].as_str()).is_some()
    } else if parts.len() == 2 {
        match (range_index(parts[0].as_str()), range_index(parts[1].as_str())) {
            (Some(n), Some(m)) => n < m,
            _ => false,
        }
    } else {
        false
    }
}

/// An OPC UA NumericRange: `n`, `n:m`, or those joined by commas for each dimension.
///
/// An index may have any number of digits, as long as it has 32 bits, and there may be any number
/// of dimensions. A request takes no more than ten of either.
pub fn is_numeric_range(s: &str) -> (r: bool)
    ensures
        r == is_range(s@),
{
    let dimensions: Vec<String> = text::split(s, ',');
    let mut i: usize = 0;
    while i < dimensions.len()
        invariant
            i <= dimensions@.len(),
            dimensions.deep_view() == pieces(s@, ','),
            forall|j: int|
                0 <= j < i ==> is_range_dimension(#[trigger] pieces(s@, ',')[j]),
        decreases dimensions@.len() - i,
    {
        proof {
            assert(pieces(s@, ',')[i as int] == dimensions@[i as int]@);
        }
        if !is_dimension(dimensions[i].as_str()) {
            return false;
        }
        i = i + 1;
    }
    true
}

/// The deadband that parameters ask for: it takes a value and one of the two types
/// that use it.
pub open spec fn deadband_of(p: SubscriptionParameters) -> Option<(Deadband, Double)> {
    match (p.deadband_type.deep_view(), p.deadband_value) {
        (Some(t), Some(value)) => if t == "Absolute"@ {
            Some((Deadband::Absolute, value))
        } else if t == "Percent"@ {
            Some((Deadband::Percent, value))
        } else {
            None
        },
        _ => None,
    }
}

/// The trigger that parameters name; `StatusValue` where they name none.
pub open spec fn trigger_of(p: SubscriptionParameters) -> DataChangeTrigger {
    match p.data_change_trigger.deep_view() {
        Some(t) if t == "Status"@ => DataChangeTrigger::Status,
        Some(t) if t == "StatusValueTimestamp"@ => DataChangeTrigger::StatusValueTimestamp,
        _ => DataChangeTrigger::StatusValue,
    }
}

/// One of the three deadband types. `None` means no filter at all.
pub open spec fn is_deadband_type(t: Seq<char>) -> bool {
    t == "None"@ || t == "Absolute"@ || t == "Percent"@
}

/// Parameters that the OPC UA services accept: a deadband type with a value is one of the
/// three, the trigger is one of the three, and the range is a numeric range. That a request takes
/// at most ten dimensions, and ten digits for an index, makes no range invalid.
pub open spec fn valid_parameters(p: SubscriptionParameters) -> bool {
    &&& p.deadband_value is Some && p.deadband_type is Some ==> is_deadband_type(
        p.deadband_type->Some_0@,
    )
    &&& p.data_change_trigger.deep_view() matches Some(t) ==> t == "Status"@ || t
        == "StatusValue"@ || t == "StatusValueTimestamp"@
    &&& non_blank_text(p.ranges.deep_view()) matches Some(r) ==> is_range(r)
}

impl SubscriptionParameters {
    /// Whether every parameter is one the OPC UA services accept.
    ///
    /// An entry whose parameters are invalid is refused here rather than letting the
    /// server reject the monitored item.
    pub fn is_valid(&self) -> (r: bool)
        ensures
            r == valid_parameters(*self),
    {
        if let (Some(kind), Some(_)) = (&self.deadband_type, self.deadband_value) {
            let t: &str = kind.as_str();
            if !(text::same(t, "None") || text::same(t, "Absolute") || text::same(t, "Percent")) {
                return false;
            }
        }
        if let Some(trigger) = &self.data_change_trigger {
            let t: &str = trigger.as_str();
            if !(text::same(t, "Status") || text::same(t, "StatusValue") || text::same(
                t,
                "StatusValueTimestamp",
            )) {
                return false;
            }
        }
        match self.index_range() {
            Some(range) => is_numeric_range(range),
            None => true,
        }
    }

    /// The deadband filter, or `None` when no usable one is configured.
    ///
    /// `Absolute`/`Percent` need a value; `None` means no filter at all.
    pub fn deadband(&self) -> (r: Option<(Deadband, Double)>)
        ensures
            r == deadband_of(*self),
    {
        match (&self.deadband_type, self.deadband_value) {
            (Some(t), Some(value)) => if text::same(t.as_str(), "Absolute") {
                Some((Deadband::Absolute, value))
            } else if text::same(t.as_str(), "Percent") {
                Some((Deadband::Percent, value))
            } else {
                None
            },
            _ => None,
        }
    }

    pub fn data_change_trigger(&self) -> (r: DataChangeTrigger)
        ensures
            r == trigger_of(*self),
    {
        match &self.data_change_trigger {
            Some(t) => if text::same(t.as_str(), "Status") {
                DataChangeTrigger::Status
            } else if text::same(t.as_str(), "StatusValueTimestamp") {
                DataChangeTrigger::StatusValueTimestamp
            } else {
                DataChangeTrigger::StatusValue
            },
            None => DataChangeTrigger::StatusValue,
        }
    }

    pub fn discard_oldest(&self) -> (r: bool)
        ensures
            r == (self.discard_oldest != Some(false)),
    {
        self.discard_oldest.unwrap_or(true)
    }

    pub fn index_range(&self) -> (r: Option<&str>)
        ensures
            r is Some == non_blank_text(self.ranges.deep_view()) is Some,
            r matches Some(t) ==> non_blank_text(self.ranges.deep_view()) == Some(t@),
    {
        non_blank(as_text(&self.ranges))
    }
}

impl CyclicReadParameters {
    pub fn rate_ms(&self) -> (r: Option<u64>)
        ensures
            r == (match self.rate {
                Some(rate) if rate > 0 => Some(rate),
                _ => None,
            }),
    {
        match self.rate {
            Some(rate) if rate > 0 => Some(rate),
            _ => None,
        }
    }

    pub fn max_age(&self) -> (r: u64)
        ensures
            r == (match self.max_age {
                Some(age) => age,
                None => 0,
            }),
    {
        self.max_age.unwrap_or(0)
    }
}

// Names of measurements ------------------------------------------------------------

pub open spec fn is_ascii_alphanumeric(c: char) -> bool {
    ('0' <= c && c <= '9') || ('A' <= c && c <= 'Z') || ('a' <= c && c <= 'z')
}

/// The ASCII letters and digits of a text.
pub open spec fn simplified(node_id: Seq<char>) -> Seq<char> {
    node_id.filter(|c: char| is_ascii_alphanumeric(c))
}

fn simplify(node_id: &str) -> (r: String)
    ensures
        r@ == simplified(node_id@),
{
    let v: Vec<char> = text::chars_of(node_id);
    let mut out: String = String::new();
    let mut i: usize = 0;
    proof {
        reveal(Seq::filter);
        assert(v@.take(0) =~= Seq::<char>::empty());
    }
    while i < v.len()
        invariant
            i <= v@.len(),
            v@ == node_id@,
            out@ == simplified(node_id@.take(i as int)),
        decreases v@.len() - i,
    {
        let c: char = v[i];
        proof {
            reveal(Seq::filter);
            assert(node_id@.take(i + 1).drop_last() =~= node_id@.take(i as int));
        }
        if ('0' <= c && c <= '9') || ('A' <= c && c <= 'Z') || ('a' <= c && c <= 'z') {
            out.push(c);
        }
        i = i + 1;
    }
    proof {
        assert(node_id@.take(i as int) =~= node_id@);
    }
    out
}

/// The name of a measurement's series: as configured, or derived from the node.
pub open spec fn series_name_of(m: MeasurementView, node_id: Seq<char>) -> Seq<char> {
    match non_blank_text(m.series) {
        Some(name) => name,
        None => "series_"@ + simplified(node_id),
    }
}

/// The name of a measurement's fragment: as configured, or derived from the node.
pub open spec fn fragment_name_of(m: MeasurementView, node_id: Seq<char>) -> Seq<char> {
    match non_blank_text(m.fragment_name) {
        Some(name) => name,
        None => "measurement_"@ + simplified(node_id),
    }
}

impl MeasurementCreation {
    /// Series name, falling back to a node-derived name.
    pub fn series_name(&self, node_id: &str) -> (r: String)
        ensures
            r@ == series_name_of(self.deep_view(), node_id@),
    {
        match non_blank(as_text(&self.series)) {
            Some(name) => name.to_owned(),
            None => {
                let simple: String = simplify(node_id);
                text::concat("series_", simple.as_str())
            },
        }
    }

    /// Fragment name, falling back to a node-derived name.
    pub fn fragment_name(&self, node_id: &str) -> (r: String)
        ensures
            r@ == fragment_name_of(self.deep_view(), node_id@),
    {
        match non_blank(as_text(&self.fragment_name)) {
            Some(name) => name.to_owned(),
            None => {
                let simple: String = simplify(node_id);
                text::concat("measurement_", simple.as_str())
            },
        }
    }
}

// Laws -----------------------------------------------------------------------------

/// A configured text counts without the white space around it; one that is not there or blank
/// counts for nothing.
pub proof fn law_blank_texts_count_for_nothing(s: Seq<char>)
    ensures
        !is_blank(s) ==> non_blank_text(Some(s)) == Some(trimmed(s)),
        is_blank(s) ==> non_blank_text(Some(s)) is None,
        non_blank_text(None) is None,
{
}

/// The word of a subscription type decides the kind of delivery, whatever its case and the white
/// space around it; any other word, and none, is no delivery.
pub proof fn law_the_word_decides_the_delivery(type_: Option<Seq<char>>)
    ensures
        subscription_kind(type_) == SubscriptionKind::Subscription <==> type_ is Some
            && ascii_lowercase(trimmed(type_->Some_0)) == "subscription"@,
        subscription_kind(type_) == SubscriptionKind::CyclicRead <==> type_ is Some
            && ascii_lowercase(trimmed(type_->Some_0)) == "cyclicread"@,
{
    reveal_strlit("Subscription");
    reveal_strlit("subscription");
    reveal_strlit("CyclicRead");
    reveal_strlit("cyclicread");
    assert(ascii_lowercase("Subscription"@) =~= "subscription"@);
    assert(ascii_lowercase("CyclicRead"@) =~= "cyclicread"@);
    assert("subscription"@.len() != "cyclicread"@.len());
}

/// A deadband of a type that uses a value is asked for exactly with that type and value, and
/// nothing else is a deadband.
pub proof fn law_deadbands_are_as_authored(p: SubscriptionParameters)
    ensures
        p.deadband_type.deep_view() == Some("Absolute"@) && p.deadband_value is Some
            ==> deadband_of(p) == Some((Deadband::Absolute, p.deadband_value->Some_0)),
        p.deadband_type.deep_view() == Some("Percent"@) && p.deadband_value is Some ==> deadband_of(
            p,
        ) == Some((Deadband::Percent, p.deadband_value->Some_0)),
        p.deadband_value is None ==> deadband_of(p) is None,
        p.deadband_type.deep_view() != Some("Absolute"@) && p.deadband_type.deep_view() != Some(
            "Percent"@,
        ) ==> deadband_of(p) is None,
{
    reveal_strlit("Absolute");
    reveal_strlit("Percent");
    assert("Absolute"@.len() != "Percent"@.len());
}

/// The trigger is the one that is named, and changes of status or value where none is.
pub proof fn law_triggers_are_as_authored(p: SubscriptionParameters)
    ensures
        p.data_change_trigger.deep_view() == Some("Status"@) <==> trigger_of(p)
            == DataChangeTrigger::Status,
        p.data_change_trigger.deep_view() == Some("StatusValueTimestamp"@) <==> trigger_of(p)
            == DataChangeTrigger::StatusValueTimestamp,
        p.data_change_trigger is None || p.data_change_trigger.deep_view() == Some(
            "StatusValue"@,
        ) ==> trigger_of(p) == DataChangeTrigger::StatusValue,
{
    reveal_strlit("Status");
    reveal_strlit("StatusValue");
    reveal_strlit("StatusValueTimestamp");
    assert("Status"@.len() == 6);
    assert("StatusValue"@.len() == 11);
    assert("StatusValueTimestamp"@.len() == 20);
}

/// Parameters are invalid for one of three reasons: a deadband value with a type that is none, a
/// trigger that is none, or a range that is none. Parameters without any of these are valid.
pub proof fn law_parameters_are_refused_for_a_reason(p: SubscriptionParameters)
    ensures
        p.deadband_value is None && p.data_change_trigger is None && p.ranges is None
            ==> valid_parameters(p),
        valid_parameters(p) && p.deadband_value is Some && p.deadband_type is Some ==> (
        deadband_of(p) is Some || p.deadband_type->Some_0@ == "None"@),
        valid_parameters(p) && p.data_change_trigger is Some ==> (trigger_of(p)
            != DataChangeTrigger::StatusValue || p.data_change_trigger->Some_0@ == "StatusValue"@),
        valid_parameters(p) && p.ranges is Some && !is_blank(p.ranges->Some_0@) ==> is_range(
            trimmed(p.ranges->Some_0@),
        ),
        !valid_parameters(p) ==> {
            ||| p.deadband_value is Some && p.deadband_type is Some && deadband_of(p) is None
                && p.deadband_type->Some_0@ != "None"@
            ||| p.data_change_trigger is Some && trigger_of(p) == DataChangeTrigger::StatusValue
                && p.data_change_trigger->Some_0@ != "StatusValue"@
            ||| p.ranges is Some && !is_blank(p.ranges->Some_0@) && !is_range(
                trimmed(p.ranges->Some_0@),
            )
        },
{
    law_triggers_are_as_authored(p);
}

proof fn lemma_digits_hold_no(s: Seq<char>, c: char)
    requires
        all_digits(s),
        !is_digit(c),
    ensures
        pieces(s, c) == seq![s],
{
    text::law_the_parts_make_up_the_text(s, c);
    lemma_one_piece(s, c, 0);
}

proof fn lemma_one_piece(s: Seq<char>, c: char, from: int)
    requires
        0 <= from <= s.len(),
        all_digits(s),
        !is_digit(c),
    ensures
        text::position_from(s, c, from) == s.len(),
    decreases s.len() - from,
{
    if from < s.len() {
        assert(is_digit(s[from]));
        lemma_one_piece(s, c, from + 1);
    }
}

proof fn lemma_position_behind(s: Seq<char>, c: char, from: int, at: int)
    requires
        0 <= from <= at < s.len(),
        s[at] == c,
        forall|i: int| from <= i < at ==> #[trigger] s[i] != c,
    ensures
        text::position_from(s, c, from) == at,
    decreases at - from,
{
    if from < at {
        lemma_position_behind(s, c, from + 1, at);
    }
}

/// An index in decimal is a range, and two are one with a colon between them where the first is
/// the smaller one.
pub proof fn law_indices_and_increasing_pairs_are_ranges(n: nat, m: nat)
    ensures
        is_range(decimal(n)) <==> n <= u32::MAX,
        is_range(decimal(n) + seq![':'] + decimal(m)) <==> n < m <= u32::MAX,
{
    let a = decimal(n);
    let b = decimal(m);
    text::lemma_decimal(n);
    text::lemma_decimal(m);
    lemma_digits_hold_no(a, ',');
    lemma_digits_hold_no(a, ':');
    lemma_digits_hold_no(b, ':');
    assert(pieces(a, ',')[0] == a);
    assert(pieces(a, ':')[0] == a);
    if is_range(a) {
        assert(is_range_dimension(pieces(a, ',')[0]));
    }
    let s = a + seq![':'] + b;
    assert(s[a.len() as int] == ':');
    assert forall|i: int| 0 <= i < a.len() implies #[trigger] s[i] != ':' by {
        assert(is_digit(a[i]));
    }
    lemma_position_behind(s, ':', 0, a.len() as int);
    assert(s.take(a.len() as int) =~= a);
    assert(s.skip(a.len() as int + 1) =~= b);
    assert(pieces(s, ':') =~= seq![a, b]);
    assert forall|i: int| 0 <= i < s.len() implies #[trigger] s[i] != ',' by {
        if i < a.len() {
            assert(is_digit(a[i]));
        } else if i > a.len() {
            assert(is_digit(b[i - a.len() - 1]));
        }
    }
    lemma_no_separator(s, ',', 0);
    assert(pieces(s, ',') =~= seq![s]);
    assert(pieces(s, ',')[0] == s);
    if is_range(s) {
        assert(is_range_dimension(pieces(s, ',')[0]));
    }
}

proof fn lemma_no_separator(s: Seq<char>, c: char, from: int)
    requires
        0 <= from <= s.len(),
        forall|i: int| 0 <= i < s.len() ==> #[trigger] s[i] != c,
    ensures
        text::position_from(s, c, from) == s.len(),
    decreases s.len() - from,
{
    if from < s.len() {
        lemma_no_separator(s, c, from + 1);
    }
}

/// A range of several dimensions is one where each dimension is.
pub proof fn law_each_dimension_of_a_range_is_one(first: Seq<char>, rest: Seq<char>)
    requires
        !first.contains(','),
    ensures
        is_range(first + seq![','] + rest) <==> is_range(first) && is_range(rest),
{
    let s = first + seq![','] + rest;
    assert(s[first.len() as int] == ',');
    assert forall|i: int| 0 <= i < first.len() implies #[trigger] s[i] != ',' by {
        assert(first[i] == s[i]);
    }
    lemma_position_behind(s, ',', 0, first.len() as int);
    assert(s.take(first.len() as int) =~= first);
    assert(s.skip(first.len() as int + 1) =~= rest);
    assert(pieces(s, ',') =~= seq![first] + pieces(rest, ','));
    assert forall|i: int| 0 <= i < first.len() implies #[trigger] first[i] != ',' by {}
    lemma_no_separator(first, ',', 0);
    assert(pieces(first, ',') =~= seq![first]);
    assert(pieces(s, ',')[0] == first);
    assert(pieces(first, ',')[0] == first);
    if is_range(s) {
        assert(is_range_dimension(pieces(s, ',')[0]));
        assert forall|i: int| 0 <= i < pieces(rest, ',').len() implies is_range_dimension(
            #[trigger] pieces(rest, ',')[i],
        ) by {
            assert(pieces(s, ',')[i + 1] == pieces(rest, ',')[i]);
        }
    }
    if is_range(first) && is_range(rest) {
        assert(is_range_dimension(pieces(first, ',')[0]));
        assert forall|i: int| 0 <= i < pieces(s, ',').len() implies is_range_dimension(
            #[trigger] pieces(s, ',')[i],
        ) by {
            if i > 0 {
                assert(pieces(s, ',')[i] == pieces(rest, ',')[i - 1]);
            }
        }
    }
}

/// The names of a measurement's series and fragment are the configured ones, without the white
/// space around them; only where none is configured they are made from the node.
pub proof fn law_configured_names_are_used(m: MeasurementView, node_id: Seq<char>)
    ensures
        m.series matches Some(s) && !is_blank(s) ==> series_name_of(m, node_id) == trimmed(
            m.series->Some_0,
        ),
        m.series is None || is_blank(m.series->Some_0) ==> series_name_of(m, node_id)
            == "series_"@ + simplified(node_id),
        m.fragment_name matches Some(s) && !is_blank(s) ==> fragment_name_of(m, node_id)
            == trimmed(m.fragment_name->Some_0),
        m.fragment_name is None || is_blank(m.fragment_name->Some_0) ==> fragment_name_of(
            m,
            node_id,
        ) == "measurement_"@ + simplified(node_id),
{
}

/// A name made from a node keeps the ASCII letters and digits of its id, in their order, and
/// nothing else.
pub proof fn law_derived_names_keep_letters_and_digits(s: Seq<char>, c: char)
    ensures
        simplified(Seq::empty()) == Seq::<char>::empty(),
        ('0' <= c && c <= '9') || ('A' <= c && c <= 'Z') || ('a' <= c && c <= 'z') ==> simplified(
            s.push(c),
        ) == simplified(s).push(c),
        !(('0' <= c && c <= '9') || ('A' <= c && c <= 'Z') || ('a' <= c && c <= 'z'))
            ==> simplified(s.push(c)) == simplified(s),
{
    reveal(Seq::filter);
    assert(s.push(c).drop_last() =~= s);
}

} // verus!
