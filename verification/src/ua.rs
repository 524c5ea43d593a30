//! OPC UA values as plain data, and what the OPC UA type library computes on them.
use crate::text::{self, all_digits, decimal, digits_value, pieces};
use vstd::prelude::*;

verus! {

// Numbers ------------------------------------------------------------------------

/// A double, by its IEEE 754 bit pattern.
#[derive(Debug, Clone, Copy, PartialEq, Eq, Structural)]
pub struct Double {
    pub bits: u64,
}

/// The bit pattern of a double that is neither infinite nor a NaN: its exponent
/// field is not all ones.
pub open spec fn is_finite(d: Double) -> bool {
    (d.bits as int) % 0x8000_0000_0000_0000 < 0x7ff0_0000_0000_0000
}

/// The bit pattern of a finite double above zero: no sign, and not all zeros.
pub open spec fn is_positive(d: Double) -> bool {
    0 < d.bits < 0x7ff0_0000_0000_0000
}

impl Double {
    pub fn finite(self) -> (r: bool)
        ensures
            r == is_finite(self),
    {
        self.bits % 0x8000_0000_0000_0000 < 0x7ff0_0000_0000_0000
    }

    pub fn positive(self) -> (r: bool)
        ensures
            r == is_positive(self),
    {
        0 < self.bits && self.bits < 0x7ff0_0000_0000_0000
    }
}

/// A finite number. An integer stands for the double nearest to it.
#[derive(Debug, Clone, Copy, PartialEq, Eq, Structural)]
pub enum Number {
    Integer(i128),
    Real(Double),
}

// Node ids -------------------------------------------------------------------------

/// The part of a node id that is unique within its namespace.
#[derive(Debug, PartialEq, Eq)]
pub enum Identifier {
    Numeric(u32),
    String(String),
    /// The sixteen bytes of the GUID's binary encoding, the first being the most
    /// significant.
    Guid(u128),
    ByteString(Vec<u8>),
}

/// A node of a server's address space.
#[derive(Debug, PartialEq, Eq)]
pub struct NodeId {
    pub namespace: u16,
    pub identifier: Identifier,
}

pub enum IdentifierView {
    Numeric(u32),
    String(Seq<char>),
    Guid(u128),
    ByteString(Seq<u8>),
}

pub struct NodeIdView {
    pub namespace: u16,
    pub identifier: IdentifierView,
}

impl DeepView for Identifier {
    type V = IdentifierView;

    open spec fn deep_view(&self) -> IdentifierView {
        match self {
            Identifier::Numeric(n) => IdentifierView::Numeric(*n),
            Identifier::String(s) => IdentifierView::String(s@),
            Identifier::Guid(g) => IdentifierView::Guid(*g),
            Identifier::ByteString(b) => IdentifierView::ByteString(b@),
        }
    }
}

impl DeepView for NodeId {
    type V = NodeIdView;

    open spec fn deep_view(&self) -> NodeIdView {
        NodeIdView { namespace: self.namespace, identifier: self.identifier.deep_view() }
    }
}

fn same_bytes(a: &Vec<u8>, b: &Vec<u8>) -> (r: bool)
    ensures
        r == (a@ == b@),
{
    if a.len() != b.len() {
        return false;
    }
    let mut i: usize = 0;
    while i < a.len()
        invariant
            i <= a@.len(),
            a@.len() == b@.len(),
            forall|j: int| 0 <= j < i ==> a@[j] == b@[j],
        decreases a@.len() - i,
    {
        if a[i] != b[i] {
            return false;
        }
        i = i + 1;
    }
    proof {
        assert(a@ =~= b@);
    }
    true
}

fn copy_bytes(b: &Vec<u8>) -> (r: Vec<u8>)
    ensures
        r@ == b@,
{
    let mut out: Vec<u8> = Vec::new();
    let mut i: usize = 0;
    while i < b.len()
        invariant
            i <= b@.len(),
            out@ == b@.take(i as int),
        decreases b@.len() - i,
    {
        out.push(b[i]);
        proof {
            assert(b@.take(i + 1) =~= b@.take(i as int).push(b@[i as int]));
        }
        i = i + 1;
    }
    proof {
        assert(b@.take(i as int) =~= b@);
    }
    out
}

impl Clone for NodeId {
    fn clone(&self) -> (r: NodeId)
        ensures
            r.deep_view() == self.deep_view(),
    {
        let identifier: Identifier = match &self.identifier {
            Identifier::Numeric(n) => Identifier::Numeric(*n),
            Identifier::String(s) => Identifier::String(s.clone()),
            Identifier::Guid(g) => Identifier::Guid(*g),
            Identifier::ByteString(b) => Identifier::ByteString(copy_bytes(b)),
        };
        NodeId { namespace: self.namespace, identifier }
    }
}

impl NodeId {
    pub fn new(namespace: u16, identifier: Identifier) -> (r: NodeId)
        ensures
            r.deep_view() == (NodeIdView { namespace, identifier: identifier.deep_view() }),
    {
        NodeId { namespace, identifier }
    }

    /// Whether both name the same node.
    pub fn same(&self, other: &NodeId) -> (r: bool)
        ensures
            r == (self.deep_view() == other.deep_view()),
    {
        if self.namespace != other.namespace {
            return false;
        }
        match (&self.identifier, &other.identifier) {
            (Identifier::Numeric(a), Identifier::Numeric(b)) => *a == *b,
            (Identifier::String(a), Identifier::String(b)) => text::same(a.as_str(), b.as_str()),
            (Identifier::Guid(a), Identifier::Guid(b)) => *a == *b,
            (Identifier::ByteString(a), Identifier::ByteString(b)) => same_bytes(a, b),
            _ => false,
        }
    }
}

/// What `opcua_types::Guid` reads from a text.
pub uninterp spec fn guid_of_text(s: Seq<char>) -> Option<u128>;

/// How `opcua_types::Guid` is written.
pub uninterp spec fn guid_text(guid: u128) -> Seq<char>;

/// What `opcua_types::ByteString::from_base64` reads from a text.
pub uninterp spec fn bytes_of_base64(s: Seq<char>) -> Option<Seq<u8>>;

/// What `opcua_types::ByteString::as_base64` writes.
pub uninterp spec fn base64_text(bytes: Seq<u8>) -> Seq<char>;

/// `opcua_types::Guid::from_str`: which texts are GUIDs, and which GUID each is,
/// depends on the text alone.
#[verifier::external_body]
pub(crate) fn parse_guid(s: &str) -> (r: Option<u128>)
    ensures
        r == guid_of_text(s@),
{
    let guid = s.parse::<opcua_types::Guid>().ok()?;
    Some(u128::from_be_bytes(guid.to_bytes()))
}

/// `opcua_types::ByteString::from_base64`: which texts are accepted, and which
/// bytes each denotes, depends on the text alone.
#[verifier::external_body]
pub(crate) fn parse_base64(s: &str) -> (r: Option<Vec<u8>>)
    ensures
        r is Some == bytes_of_base64(s@) is Some,
        r matches Some(b) ==> bytes_of_base64(s@) == Some(b@),
{
    opcua_types::ByteString::from_base64(s)?.value
}

pub open spec fn identifier_text(id: IdentifierView) -> Seq<char> {
    match id {
        IdentifierView::Numeric(n) => "i="@ + decimal(n as nat),
        IdentifierView::String(s) => "s="@ + s,
        IdentifierView::Guid(g) => "g="@ + guid_text(g),
        IdentifierView::ByteString(b) => "b="@ + base64_text(b),
    }
}

pub open spec fn namespace_prefix(namespace: u16) -> Seq<char> {
    if namespace == 0 {
        Seq::empty()
    } else {
        "ns="@ + decimal(namespace as nat) + ";"@
    }
}

/// The text form of a node id: `ns=<namespace>;` unless the namespace is zero, then
/// the kind of identifier and the identifier.
pub open spec fn node_id_text(id: NodeIdView) -> Seq<char> {
    namespace_prefix(id.namespace) + identifier_text(id.identifier)
}

/// The `Display` of `opcua_types::NodeId`. Besides the form of the text, it is
/// claimed that `Guid` and `ByteString` read back what they have written.
#[verifier::external_body]
pub(crate) fn node_id_string(id: &NodeId) -> (r: String)
    ensures
        r@ == node_id_text(id.deep_view()),
        id.identifier matches Identifier::Guid(g) ==> r@ == namespace_prefix(id.namespace) + "g="@
            + guid_text(g),
        id.identifier matches Identifier::Guid(g) ==> guid_of_text(
            r@.skip(namespace_prefix(id.namespace).len() as int + 2),
        ) == Some(g),
        id.identifier matches Identifier::ByteString(b) ==> r@ == namespace_prefix(id.namespace)
            + "b="@ + base64_text(b@),
        id.identifier matches Identifier::ByteString(b) ==> bytes_of_base64(
            r@.skip(namespace_prefix(id.namespace).len() as int + 2),
        ) == Some(b@),
{
    let identifier = match &id.identifier {
        Identifier::Numeric(n) => opcua_types::Identifier::Numeric(*n),
        Identifier::String(s) => opcua_types::Identifier::String(s.as_str().into()),
        Identifier::Guid(g) => {
            opcua_types::Identifier::Guid(opcua_types::Guid::from_bytes(g.to_be_bytes()))
        }
        Identifier::ByteString(b) => opcua_types::Identifier::ByteString(b.clone().into()),
    };
    opcua_types::NodeId { namespace: id.namespace, identifier }.to_string()
}

/// A browse name: a name within a namespace.
#[derive(Debug, PartialEq, Eq)]
pub struct QualifiedName {
    pub namespace_index: u16,
    pub name: String,
}

pub struct QualifiedNameView {
    pub namespace_index: u16,
    pub name: Seq<char>,
}

impl DeepView for QualifiedName {
    type V = QualifiedNameView;

    open spec fn deep_view(&self) -> QualifiedNameView {
        QualifiedNameView { namespace_index: self.namespace_index, name: self.name@ }
    }
}

impl Clone for QualifiedName {
    fn clone(&self) -> (r: QualifiedName)
        ensures
            r.deep_view() == self.deep_view(),
    {
        QualifiedName { namespace_index: self.namespace_index, name: self.name.clone() }
    }
}

/// Whether two browse paths are the same.
pub fn same_path(a: &Vec<QualifiedName>, b: &Vec<QualifiedName>) -> (r: bool)
    ensures
        r == (a.deep_view() == b.deep_view()),
{
    if a.len() != b.len() {
        proof {
            assert(a.deep_view().len() == a@.len());
            assert(b.deep_view().len() == b@.len());
        }
        return false;
    }
    let mut i: usize = 0;
    while i < a.len()
        invariant
            i <= a@.len(),
            a@.len() == b@.len(),
            forall|j: int| 0 <= j < i ==> a.deep_view()[j] == b.deep_view()[j],
        decreases a@.len() - i,
    {
        if a[i].namespace_index != b[i].namespace_index || !text::same(
            a[i].name.as_str(),
            b[i].name.as_str(),
        ) {
            proof {
                assert(a.deep_view()[i as int] != b.deep_view()[i as int]);
            }
            return false;
        }
        i = i + 1;
    }
    proof {
        assert(a.deep_view() =~= b.deep_view());
    }
    true
}

/// A copy of a browse path.
pub fn copy_path(path: &Vec<QualifiedName>) -> (r: Vec<QualifiedName>)
    ensures
        r.deep_view() == path.deep_view(),
{
    let mut out: Vec<QualifiedName> = Vec::new();
    let mut i: usize = 0;
    while i < path.len()
        invariant
            i <= path@.len(),
            out@.len() == i,
            forall|j: int| 0 <= j < i ==> #[trigger] out@[j].deep_view() == path@[j].deep_view(),
        decreases path@.len() - i,
    {
        out.push(path[i].clone());
        i = i + 1;
    }
    proof {
        assert(out.deep_view() =~= path.deep_view());
    }
    out
}

// Numeric ranges --------------------------------------------------------------------

/// An index that an OPC UA numeric range may hold: one to ten digits.
pub open spec fn is_ua_index(s: Seq<char>) -> bool {
    1 <= s.len() <= 10 && all_digits(s)
}

/// A dimension of an OPC UA numeric range: an index, or two in increasing order, of 32 bits.
pub open spec fn is_ua_dimension(s: Seq<char>) -> bool {
    let p = pieces(s, ':');
    ||| p.len() == 1 && is_ua_index(p[0]) && digits_value(p[0]) <= u32::MAX
    ||| p.len() == 2 && is_ua_index(p[0]) && is_ua_index(p[1]) && digits_value(p[0])
        < digits_value(p[1]) <= u32::MAX
}

/// An OPC UA numeric range: nothing, or at most ten dimensions.
pub open spec fn is_ua_range(s: Seq<char>) -> bool {
    let p = pieces(s, ',');
    s.len() == 0 || (p.len() <= 10 && forall|i: int|
        0 <= i < p.len() ==> is_ua_dimension(#[trigger] p[i]))
}

/// `opcua_types::NumericRange::from_str`, of which it is claimed which texts it accepts:
/// nothing, or up to ten dimensions joined by commas, each an index or two increasing indices
/// joined by a colon, an index having at most ten digits and 32 bits.
#[verifier::external_body]
pub(crate) fn parses_as_range(s: &str) -> (r: bool)
    ensures
        r == is_ua_range(s@),
{
    s.parse::<opcua_types::NumericRange>().is_ok()
}

// Values ---------------------------------------------------------------------------

/// A point in time: ticks of 100 ns since the start of the year 1601.
#[derive(Debug, Clone, Copy, PartialEq, Eq, Structural)]
pub struct DateTime {
    pub ticks: i64,
}

/// What `opcua_types::DateTime::to_rfc3339` writes for a point in time.
pub uninterp spec fn rfc3339(ticks: i64) -> Seq<char>;

/// `opcua_types::DateTime::to_rfc3339`, the text of which depends on the point in
/// time alone.
#[verifier::external_body]
pub(crate) fn to_rfc3339(time: DateTime) -> (r: String)
    ensures
        r@ == rfc3339(time.ticks),
{
    opcua_types::DateTime::from(time.ticks).to_rfc3339()
}

/// `opcua_types::DateTime::now`. Nothing is claimed of what the clock shows.
#[verifier::external_body]
pub(crate) fn utc_now() -> DateTime {
    DateTime { ticks: opcua_types::DateTime::now().ticks() }
}

/// A status code is good when its severity, the two highest bits, is zero.
pub open spec fn is_good(status: u32) -> bool {
    status < 0x4000_0000
}

/// `opcua_types::StatusCode::is_good`: the severity bits are both zero.
#[verifier::external_body]
pub(crate) fn status_is_good(status: u32) -> (r: bool)
    ensures
        r == is_good(status),
{
    opcua_types::StatusCode::from(status).is_good()
}

/// A value of a node.
#[derive(Debug)]
pub enum Variant {
    Empty,
    Boolean(bool),
    SByte(i8),
    Byte(u8),
    Int16(i16),
    UInt16(u16),
    Int32(i32),
    UInt32(u32),
    Int64(i64),
    UInt64(u64),
    /// A single or double precision number: its value, and its shortest notation in
    /// its own precision.
    Real { value: Double, notation: String },
    /// A text, and the double that it denotes once trimmed, where it denotes one.
    String { text: String, number: Option<Double> },
    DateTime(DateTime),
    LocalizedText(String),
    /// Any other value, by its debug notation.
    Other(String),
}

/// What a value of a node is.
pub enum VariantView {
    Empty,
    Boolean(bool),
    SByte(i8),
    Byte(u8),
    Int16(i16),
    UInt16(u16),
    Int32(i32),
    UInt32(u32),
    Int64(i64),
    UInt64(u64),
    Real { value: Double, notation: Seq<char> },
    String { text: Seq<char>, number: Option<Double> },
    DateTime(DateTime),
    LocalizedText(Seq<char>),
    Other(Seq<char>),
}

impl DeepView for Variant {
    type V = VariantView;

    open spec fn deep_view(&self) -> VariantView {
        match self {
            Variant::Empty => VariantView::Empty,
            Variant::Boolean(v) => VariantView::Boolean(*v),
            Variant::SByte(v) => VariantView::SByte(*v),
            Variant::Byte(v) => VariantView::Byte(*v),
            Variant::Int16(v) => VariantView::Int16(*v),
            Variant::UInt16(v) => VariantView::UInt16(*v),
            Variant::Int32(v) => VariantView::Int32(*v),
            Variant::UInt32(v) => VariantView::UInt32(*v),
            Variant::Int64(v) => VariantView::Int64(*v),
            Variant::UInt64(v) => VariantView::UInt64(*v),
            Variant::Real { value, notation } => VariantView::Real {
                value: *value,
                notation: notation@,
            },
            Variant::String { text, number } => VariantView::String {
                text: text@,
                number: *number,
            },
            Variant::DateTime(t) => VariantView::DateTime(*t),
            Variant::LocalizedText(s) => VariantView::LocalizedText(s@),
            Variant::Other(s) => VariantView::Other(s@),
        }
    }
}

impl Clone for Variant {
    fn clone(&self) -> (r: Self)
        ensures
            r == *self,
    {
        match self {
            Variant::Empty => Variant::Empty,
            Variant::Boolean(v) => Variant::Boolean(*v),
            Variant::SByte(v) => Variant::SByte(*v),
            Variant::Byte(v) => Variant::Byte(*v),
            Variant::Int16(v) => Variant::Int16(*v),
            Variant::UInt16(v) => Variant::UInt16(*v),
            Variant::Int32(v) => Variant::Int32(*v),
            Variant::UInt32(v) => Variant::UInt32(*v),
            Variant::Int64(v) => Variant::Int64(*v),
            Variant::UInt64(v) => Variant::UInt64(*v),
            Variant::Real { value, notation } => Variant::Real {
                value: *value,
                notation: notation.clone(),
            },
            Variant::String { text, number } => Variant::String {
                text: text.clone(),
                number: *number,
            },
            Variant::DateTime(t) => Variant::DateTime(*t),
            Variant::LocalizedText(s) => Variant::LocalizedText(s.clone()),
            Variant::Other(s) => Variant::Other(s.clone()),
        }
    }
}

impl Variant {
    /// Whether both are the same value: of one type, and equal. Numbers are compared by their bit
    /// patterns.
    pub fn same(&self, other: &Variant) -> (r: bool)
        ensures
            r == (self.deep_view() == other.deep_view()),
    {
        match (self, other) {
            (Variant::Empty, Variant::Empty) => true,
            (Variant::Boolean(a), Variant::Boolean(b)) => *a == *b,
            (Variant::SByte(a), Variant::SByte(b)) => *a == *b,
            (Variant::Byte(a), Variant::Byte(b)) => *a == *b,
            (Variant::Int16(a), Variant::Int16(b)) => *a == *b,
            (Variant::UInt16(a), Variant::UInt16(b)) => *a == *b,
            (Variant::Int32(a), Variant::Int32(b)) => *a == *b,
            (Variant::UInt32(a), Variant::UInt32(b)) => *a == *b,
            (Variant::Int64(a), Variant::Int64(b)) => *a == *b,
            (Variant::UInt64(a), Variant::UInt64(b)) => *a == *b,
            (
                Variant::Real { value: a, notation: x },
                Variant::Real { value: b, notation: y },
            ) => a.bits == b.bits && text::same(x.as_str(), y.as_str()),
            (
                Variant::String { text: a, number: x },
                Variant::String { text: b, number: y },
            ) => *x == *y && text::same(a.as_str(), b.as_str()),
            (Variant::DateTime(a), Variant::DateTime(b)) => a.ticks == b.ticks,
            (Variant::LocalizedText(a), Variant::LocalizedText(b)) => text::same(
                a.as_str(),
                b.as_str(),
            ),
            (Variant::Other(a), Variant::Other(b)) => text::same(a.as_str(), b.as_str()),
            _ => false,
        }
    }
}

/// A value as a server delivers it.
#[derive(Debug)]
pub struct DataValue {
    pub value: Option<Variant>,
    pub status: Option<u32>,
    pub source_timestamp: Option<DateTime>,
    pub server_timestamp: Option<DateTime>,
}

} // verus!
