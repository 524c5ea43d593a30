//! Browse path and node id texts.
//!
//! Device types are authored against namespace *URIs*, while a session addresses
//! namespaces by *index*. Everything here translates between the two with the
//! namespace table read from the server, so that nothing else needs to know about
//! URIs.
use crate::text::{
    self, ascii_lowercase, decimal, is_digit, lemma_decimal, lemma_parse_decimal, parsed_unsigned,
    starts_with,
};
use crate::ua::{
    bytes_of_base64, guid_of_text, identifier_text, namespace_prefix, node_id_string, node_id_text,
    parse_base64, parse_guid, Identifier, IdentifierView, NodeId, NodeIdView, QualifiedName,
    QualifiedNameView,
};
use vstd::prelude::*;

verus! {

/// Errors raised while loading or resolving device types.
#[derive(Debug, PartialEq, Eq)]
pub enum MappingError {
    InvalidNodeId(String),
    UnknownNamespace(String),
}

pub enum MappingErrorView {
    InvalidNodeId(Seq<char>),
    UnknownNamespace(Seq<char>),
}

impl DeepView for MappingError {
    type V = MappingErrorView;

    open spec fn deep_view(&self) -> MappingErrorView {
        match self {
            MappingError::InvalidNodeId(s) => MappingErrorView::InvalidNodeId(s@),
            MappingError::UnknownNamespace(s) => MappingErrorView::UnknownNamespace(s@),
        }
    }
}

impl MappingError {
    /// The error in words.
    pub fn message(&self) -> (r: String)
        ensures
            r@ == (match self {
                MappingError::InvalidNodeId(s) => "invalid node id `"@ + s@ + "`"@,
                MappingError::UnknownNamespace(s) => "namespace uri `"@ + s@
                    + "` is not in the server namespace table"@,
            }),
    {
        match self {
            MappingError::InvalidNodeId(s) => {
                let mut out: String = text::concat("invalid node id `", s.as_str());
                out.append("`");
                out
            },
            MappingError::UnknownNamespace(s) => {
                let mut out: String = text::concat("namespace uri `", s.as_str());
                out.append("` is not in the server namespace table");
                out
            },
        }
    }
}

/// The namespace table of a session: namespace index to URI.
#[derive(Debug)]
pub struct NamespaceTable(Vec<String>);

impl View for NamespaceTable {
    type V = Seq<Seq<char>>;

    closed spec fn view(&self) -> Seq<Seq<char>> {
        self.0.deep_view()
    }
}

/// The first position at or behind `from` that holds `uri`.
pub open spec fn position_of(uris: Seq<Seq<char>>, uri: Seq<char>, from: int) -> Option<int>
    decreases uris.len() - from,
{
    if from < 0 || from >= uris.len() {
        None
    } else if uris[from] == uri {
        Some(from)
    } else {
        position_of(uris, uri, from + 1)
    }
}

/// The index of a namespace: the first position of its URI, where an index can
/// express it.
pub open spec fn namespace_index(uris: Seq<Seq<char>>, uri: Seq<char>) -> Option<u16> {
    match position_of(uris, uri, 0) {
        Some(i) => if i <= u16::MAX {
            Some(i as u16)
        } else {
            None
        },
        None => None,
    }
}

impl NamespaceTable {
    pub fn new(uris: Vec<String>) -> (r: Self)
        ensures
            r@ == uris.deep_view(),
    {
        NamespaceTable(uris)
    }

    pub fn index_of(&self, uri: &str) -> (r: Option<u16>)
        ensures
            r == namespace_index(self@, uri@),
    {
        let mut i: usize = 0;
        while i < self.0.len()
            invariant
                i <= self.0@.len(),
                self@.len() == self.0@.len(),
                position_of(self@, uri@, i as int) == position_of(self@, uri@, 0),
            decreases self.0@.len() - i,
        {
            proof {
                assert(self@[i as int] == self.0@[i as int]@);
            }
            if text::same(self.0[i].as_str(), uri) {
                return if i <= 0xffff {
                    Some(i as u16)
                } else {
                    None
                };
            }
            i = i + 1;
        }
        None
    }

    pub fn uri_of(&self, index: u16) -> (r: Option<&str>)
        ensures
            r is Some == (index < self@.len()),
            r matches Some(uri) ==> uri@ == self@[index as int],
    {
        let i: usize = index as usize;
        if i < self.0.len() {
            Some(self.0[i].as_str())
        } else {
            None
        }
    }

    pub fn uris(&self) -> (r: &[String])
        ensures
            r@.len() == self@.len(),
            forall|i: int| 0 <= i < r@.len() ==> #[trigger] r@[i]@ == self@[i],
    {
        self.0.as_slice()
    }
}

/// A browse path segment of the form `regex(...)`.
pub open spec fn is_regex_segment(segment: Seq<char>) -> bool {
    starts_with(segment, "regex("@) && segment.last() == ')'
}

/// True when a browse path segment uses the unsupported `regex(...)` form.
pub fn is_regex(segment: &str) -> (r: bool)
    ensures
        r == is_regex_segment(segment@),
{
    proof {
        reveal_strlit("regex(");
    }
    let v: Vec<char> = text::chars_of(segment);
    text::has_prefix(segment, "regex(") && v[v.len() - 1] == ')'
}

/// The namespace that a prefix names, by its index or its URI.
pub open spec fn resolved_prefix(uris: Seq<Seq<char>>, prefix: Seq<char>) -> Option<u16> {
    match parsed_unsigned(prefix, u16::MAX as nat) {
        Some(index) => Some(index as u16),
        None => namespace_index(uris, prefix),
    }
}

/// The browse name of a segment, taken apart at the last colon before `end` that
/// has a namespace in front of it; the whole segment in namespace zero where there
/// is no such colon.
pub open spec fn split_before(
    uris: Seq<Seq<char>>,
    segment: Seq<char>,
    end: int,
) -> QualifiedNameView
    decreases end,
{
    if end <= 0 {
        QualifiedNameView { namespace_index: 0, name: segment }
    } else {
        match resolved_prefix(uris, segment.take(end - 1)) {
            Some(index) if segment[end - 1] == ':' => QualifiedNameView {
                namespace_index: index,
                name: segment.skip(end),
            },
            _ => split_before(uris, segment, end - 1),
        }
    }
}

/// The browse name that a segment `<nsUriOrIndex>:<name>` denotes.
pub open spec fn qualified_name(uris: Seq<Seq<char>>, segment: Seq<char>) -> QualifiedNameView {
    split_before(uris, segment, segment.len() as int)
}

/// Convert one `<nsUriOrIndex>:<name>` browse path segment into a [`QualifiedName`].
///
/// A namespace URI contains colons of its own, so the delimiter is found by walking
/// backwards from the last colon until the prefix resolves to a namespace. A segment
/// whose prefix never resolves is treated as namespace 0, which keeps plain names
/// such as `Objects` working.
pub fn to_qualified_name(table: &NamespaceTable, segment: &str) -> (r: QualifiedName)
    ensures
        r.deep_view() == qualified_name(table@, segment@),
{
    let v: Vec<char> = text::chars_of(segment);
    let mut end: usize = v.len();
    while end > 0
        invariant
            end <= v@.len(),
            v@ == segment@,
            split_before(table@, segment@, end as int) == qualified_name(table@, segment@),
        decreases end,
    {
        if v[end - 1] == ':' {
            let prefix: String = text::text_of(&v, 0, end - 1);
            proof {
                assert(v@.subrange(0, end - 1) =~= segment@.take(end - 1));
            }
            let index: Option<u16> = match text::parse_unsigned(prefix.as_str(), 0xffff) {
                Some(index) => Some(index as u16),
                None => table.index_of(prefix.as_str()),
            };
            if let Some(namespace_index) = index {
                proof {
                    assert(v@.subrange(end as int, v@.len() as int) =~= segment@.skip(end as int));
                }
                return QualifiedName {
                    namespace_index,
                    name: text::text_of(&v, end, v.len()),
                };
            }
        }
        end = end - 1;
    }
    QualifiedName { namespace_index: 0, name: segment.to_owned() }
}

/// The browse names of a whole path.
pub open spec fn qualified_names(uris: Seq<Seq<char>>, path: Seq<Seq<char>>) -> Seq<
    QualifiedNameView,
> {
    path.map_values(|segment: Seq<char>| qualified_name(uris, segment))
}

/// Convert a whole browse path into qualified names.
pub fn to_qualified_names(table: &NamespaceTable, browse_path: &[String]) -> (r: Vec<QualifiedName>)
    ensures
        r.deep_view() == qualified_names(table@, browse_path@.map_values(|s: String| s@)),
{
    let mut out: Vec<QualifiedName> = Vec::new();
    let mut i: usize = 0;
    while i < browse_path.len()
        invariant
            i <= browse_path@.len(),
            out@.len() == i,
            forall|j: int|
                0 <= j < i ==> #[trigger] out@[j].deep_view() == qualified_name(
                    table@,
                    browse_path@[j]@,
                ),
        decreases browse_path@.len() - i,
    {
        out.push(to_qualified_name(table, browse_path[i].as_str()));
        i = i + 1;
    }
    proof {
        assert(out.deep_view() =~= qualified_names(
            table@,
            browse_path@.map_values(|s: String| s@),
        ));
    }
    out
}

/// The identifier that a text such as `i=84` or `s=Temp` denotes.
pub open spec fn parsed_identifier(s: Seq<char>) -> Option<IdentifierView> {
    if s.len() < 2 || s[1] != '=' {
        None
    } else if s[0] == 'i' {
        match parsed_unsigned(s.skip(2), u32::MAX as nat) {
            Some(n) => Some(IdentifierView::Numeric(n as u32)),
            None => None,
        }
    } else if s[0] == 's' {
        Some(IdentifierView::String(s.skip(2)))
    } else if s[0] == 'g' {
        match guid_of_text(s.skip(2)) {
            Some(g) => Some(IdentifierView::Guid(g)),
            None => None,
        }
    } else if s[0] == 'b' {
        match bytes_of_base64(s.skip(2)) {
            Some(b) => Some(IdentifierView::ByteString(b)),
            None => None,
        }
    } else {
        None
    }
}

fn parse_identifier(s: &str) -> (r: Option<Identifier>)
    ensures
        r.deep_view() == parsed_identifier(s@),
{
    let v: Vec<char> = text::chars_of(s);
    if v.len() < 2 || v[1] != '=' {
        return None;
    }
    let value: &str = text::skip(s, 2);
    let kind: char = v[0];
    if kind == 'i' {
        match text::parse_unsigned(value, 0xffff_ffff) {
            Some(n) => Some(Identifier::Numeric(n as u32)),
            None => None,
        }
    } else if kind == 's' {
        Some(Identifier::String(value.to_owned()))
    } else if kind == 'g' {
        match parse_guid(value) {
            Some(g) => Some(Identifier::Guid(g)),
            None => None,
        }
    } else if kind == 'b' {
        match parse_base64(value) {
            Some(b) => Some(Identifier::ByteString(b)),
            None => None,
        }
    } else {
        None
    }
}

/// What is left of a node id text, once its namespace is known, is its identifier.
pub open spec fn with_identifier(whole: Seq<char>, rest: Seq<char>, namespace: u16) -> Result<
    NodeIdView,
    MappingErrorView,
> {
    match parsed_identifier(rest) {
        Some(identifier) => Ok(NodeIdView { namespace, identifier }),
        None => Err(MappingErrorView::InvalidNodeId(whole)),
    }
}

/// The node id that `rest`, the end of the text `whole`, denotes: at most `heads`
/// parts that end in a semicolon, then an identifier. `nsu=` names a namespace by
/// its URI, `ns=` by its index, `svr=` is passed over; the case of these words does
/// not matter. Any other part belongs to the identifier.
pub open spec fn parsed_parts(
    uris: Seq<Seq<char>>,
    whole: Seq<char>,
    rest: Seq<char>,
    namespace: u16,
    heads: nat,
) -> Result<NodeIdView, MappingErrorView>
    decreases heads,
{
    let end = text::position_from(rest, ';', 0);
    let head = rest.take(end);
    let lower = ascii_lowercase(head);
    let tail = rest.skip(end + 1);
    if heads == 0 || end == rest.len() {
        with_identifier(whole, rest, namespace)
    } else if starts_with(lower, "nsu="@) {
        match namespace_index(uris, head.skip(4)) {
            Some(index) => parsed_parts(uris, whole, tail, index, (heads - 1) as nat),
            None => Err(MappingErrorView::UnknownNamespace(head.skip(4))),
        }
    } else if starts_with(lower, "ns="@) {
        match parsed_unsigned(lower.skip(3), u16::MAX as nat) {
            Some(index) => parsed_parts(uris, whole, tail, index as u16, (heads - 1) as nat),
            None => Err(MappingErrorView::InvalidNodeId(whole)),
        }
    } else if starts_with(lower, "svr="@) {
        parsed_parts(uris, whole, tail, namespace, (heads - 1) as nat)
    } else {
        with_identifier(whole, rest, namespace)
    }
}

/// The node id that a text denotes.
pub open spec fn parsed_node_id(uris: Seq<Seq<char>>, s: Seq<char>) -> Result<
    NodeIdView,
    MappingErrorView,
> {
    parsed_parts(uris, s, s, 0, 3)
}

/// The position of the first semicolon; the length where there is none.
fn semicolon(v: &Vec<char>, from: usize) -> (r: usize)
    requires
        from <= v@.len(),
    ensures
        from <= r <= v@.len(),
        r - from == text::position_from(v@.skip(from as int), ';', 0),
{
    let ghost rest = v@.skip(from as int);
    let mut i: usize = from;
    while i < v.len() && v[i] != ';'
        invariant
            from <= i <= v@.len(),
            rest == v@.skip(from as int),
            text::position_from(rest, ';', i - from) == text::position_from(rest, ';', 0),
        decreases v@.len() - i,
    {
        i = i + 1;
    }
    i
}

/// Parse a node id, accepting both the `ns=<index>;…` and the `nsu=<uri>;…` forms.
///
/// The `nsu=` form is what device types store in `referencedRootNodeId`; it is
/// resolved against the live namespace table.
pub fn parse_node_id(table: &NamespaceTable, s: &str) -> (r: Result<NodeId, MappingError>)
    ensures
        r matches Ok(id) ==> parsed_node_id(table@, s@) == Ok::<NodeIdView, MappingErrorView>(
            id.deep_view(),
        ),
        r matches Err(e) ==> parsed_node_id(table@, s@) == Err::<NodeIdView, MappingErrorView>(
            e.deep_view(),
        ),
{
    proof {
        reveal_strlit("nsu=");
        reveal_strlit("ns=");
        reveal_strlit("svr=");
    }
    let v: Vec<char> = text::chars_of(s);
    let mut namespace: u16 = 0;
    let mut from: usize = 0;
    let mut heads: u8 = 3;
    proof {
        assert(v@.skip(0) =~= s@);
    }
    while heads > 0
        invariant
            from <= v@.len(),
            v@ == s@,
            heads <= 3,
            "nsu="@.len() == 4,
            "ns="@.len() == 3,
            parsed_parts(table@, s@, v@.skip(from as int), namespace, heads as nat)
                == parsed_node_id(table@, s@),
        ensures
            from <= v@.len(),
            with_identifier(s@, v@.skip(from as int), namespace) == parsed_node_id(table@, s@),
        decreases heads,
    {
        let ghost rest = v@.skip(from as int);
        let end: usize = semicolon(&v, from);
        if end == v.len() {
            break;
        }
        let head: String = text::text_of(&v, from, end);
        let lower: String = text::lowercase(head.as_str());
        proof {
            assert(head@ =~= rest.take(end - from));
            assert(rest.skip(end - from + 1) =~= v@.skip(end + 1));
        }
        if text::has_prefix(lower.as_str(), "nsu=") {
            let uri: &str = text::skip(head.as_str(), 4);
            match table.index_of(uri) {
                Some(index) => {
                    namespace = index;
                },
                None => {
                    return Err(MappingError::UnknownNamespace(uri.to_owned()));
                },
            }
        } else if text::has_prefix(lower.as_str(), "ns=") {
            let index: &str = text::skip(lower.as_str(), 3);
            match text::parse_unsigned(index, 0xffff) {
                Some(index) => {
                    namespace = index as u16;
                },
                None => {
                    return Err(MappingError::InvalidNodeId(s.to_owned()));
                },
            }
        } else if !text::has_prefix(lower.as_str(), "svr=") {
            break;
        }
        from = end + 1;
        heads = heads - 1;
    }
    let rest: String = text::text_of(&v, from, v.len());
    proof {
        assert(rest@ =~= v@.skip(from as int));
    }
    match parse_identifier(rest.as_str()) {
        Some(identifier) => Ok(NodeId { namespace, identifier }),
        None => Err(MappingError::InvalidNodeId(s.to_owned())),
    }
}

// Laws -----------------------------------------------------------------------------

proof fn lemma_no_char(s: Seq<char>, c: char, from: int)
    requires
        0 <= from <= s.len(),
        forall|i: int| from <= i < s.len() ==> s[i] != c,
    ensures
        text::position_from(s, c, from) == s.len(),
    decreases s.len() - from,
{
    if from < s.len() {
        lemma_no_char(s, c, from + 1);
    }
}

proof fn lemma_first_char(s: Seq<char>, c: char, from: int, at: int)
    requires
        0 <= from <= at < s.len(),
        forall|i: int| from <= i < at ==> s[i] != c,
        s[at] == c,
    ensures
        text::position_from(s, c, from) == at,
    decreases at - from,
{
    if from < at {
        lemma_first_char(s, c, from + 1, at);
    }
}

/// A text that starts like an identifier is one, whatever semicolons it holds.
proof fn lemma_identifier_is_not_a_head(
    uris: Seq<Seq<char>>,
    whole: Seq<char>,
    rest: Seq<char>,
    namespace: u16,
    heads: nat,
)
    requires
        rest.len() >= 2,
        rest[1] == '=',
    ensures
        parsed_parts(uris, whole, rest, namespace, heads) == with_identifier(
            whole,
            rest,
            namespace,
        ),
{
    reveal_strlit("nsu=");
    reveal_strlit("ns=");
    reveal_strlit("svr=");
    let end = text::position_from(rest, ';', 0);
    lemma_position_bounds(rest, ';', 0);
    let head = rest.take(end);
    let lower = ascii_lowercase(head);
    if heads > 0 && end < rest.len() {
        if end >= 2 {
            assert(lower[1] == '=');
        }
        if starts_with(lower, "nsu="@) {
            assert(lower.subrange(0, 4)[1] == 's');
        }
        if starts_with(lower, "ns="@) {
            assert(lower.subrange(0, 3)[1] == 's');
        }
        if starts_with(lower, "svr="@) {
            assert(lower.subrange(0, 4)[1] == 'v');
        }
    }
}

proof fn lemma_position_bounds(s: Seq<char>, c: char, from: int)
    requires
        0 <= from <= s.len(),
    ensures
        from <= text::position_from(s, c, from) <= s.len(),
    decreases s.len() - from,
{
    if from < s.len() && s[from] != c {
        lemma_position_bounds(s, c, from + 1);
    }
}

/// The text of a node id is read back as that node id, against any namespace table,
/// where the text of its identifier is.
proof fn lemma_text_reads_back(uris: Seq<Seq<char>>, id: NodeIdView)
    requires
        identifier_text(id.identifier).len() >= 2,
        identifier_text(id.identifier)[1] == '=',
        parsed_identifier(identifier_text(id.identifier)) == Some(id.identifier),
    ensures
        parsed_node_id(uris, node_id_text(id)) == Ok::<NodeIdView, MappingErrorView>(id),
{
    let whole = node_id_text(id);
    let rest = identifier_text(id.identifier);
    if id.namespace == 0 {
        assert(whole =~= rest);
        lemma_identifier_is_not_a_head(uris, whole, whole, 0, 3);
    } else {
        reveal_strlit("nsu=");
        reveal_strlit("ns=");
        reveal_strlit(";");
        let digits = decimal(id.namespace as nat);
        lemma_decimal(id.namespace as nat);
        lemma_parse_decimal(id.namespace as nat, u16::MAX as nat);
        let end = 3 + digits.len() as int;
        assert(whole[end] == ';');
        assert forall|i: int| 0 <= i < end implies whole[i] != ';' by {
            if i >= 3 {
                assert(whole[i] == digits[i - 3]);
                assert(is_digit(digits[i - 3]));
            }
        }
        lemma_first_char(whole, ';', 0, end);
        let head = whole.take(end);
        let lower = ascii_lowercase(head);
        assert forall|i: int| 0 <= i < head.len() implies #[trigger] lower[i] == head[i] by {
            if i >= 3 {
                assert(head[i] == digits[i - 3]);
                assert(is_digit(digits[i - 3]));
            }
        }
        assert(lower =~= head);
        assert(lower.skip(3) =~= digits);
        assert(whole.skip(end + 1) =~= rest);
        assert(lower.subrange(0, 3) =~= "ns="@);
        if starts_with(lower, "nsu="@) {
            assert(lower.subrange(0, 4)[2] == 'u');
        }
        assert(parsed_node_id(uris, whole) == parsed_parts(uris, whole, rest, id.namespace, 2));
        lemma_identifier_is_not_a_head(uris, whole, rest, id.namespace, 2);
    }
}

/// The text form of a node id. It names the same node against any namespace table.
pub fn node_id_to_text(id: &NodeId) -> (r: String)
    ensures
        r@ == node_id_text(id.deep_view()),
        forall|uris: Seq<Seq<char>>| #[trigger]
            parsed_node_id(uris, r@) == Ok::<NodeIdView, MappingErrorView>(id.deep_view()),
{
    let r: String = node_id_string(id);
    proof {
        let view = id.deep_view();
        reveal_strlit("i=");
        reveal_strlit("s=");
        reveal_strlit("g=");
        reveal_strlit("b=");
        let rest = identifier_text(view.identifier);
        assert(r@.skip(namespace_prefix(id.namespace).len() as int + 2) =~= rest.skip(2));
        match view.identifier {
            IdentifierView::Numeric(n) => {
                assert(rest.skip(2) =~= decimal(n as nat));
                lemma_parse_decimal(n as nat, u32::MAX as nat);
            },
            IdentifierView::String(s) => {
                assert(rest.skip(2) =~= s);
            },
            _ => {},
        }
        assert forall|uris: Seq<Seq<char>>| #[trigger]
            parsed_node_id(uris, r@) == Ok::<NodeIdView, MappingErrorView>(view) by {
            lemma_text_reads_back(uris, view);
        }
    }
    r
}

/// A segment made of a namespace that the table knows, a colon and a name without
/// colons is that name in that namespace, however many colons the URI holds.
pub proof fn law_segment_is_split_behind_the_namespace(
    uris: Seq<Seq<char>>,
    namespace: Seq<char>,
    name: Seq<char>,
)
    requires
        resolved_prefix(uris, namespace) is Some,
        !name.contains(':'),
    ensures
        qualified_name(uris, namespace + seq![':'] + name) == (QualifiedNameView {
            namespace_index: resolved_prefix(uris, namespace)->Some_0,
            name,
        }),
{
    let segment = namespace + seq![':'] + name;
    lemma_split_skips_name(uris, segment, namespace.len() as int + 1, segment.len() as int);
    assert(segment.take(namespace.len() as int) =~= namespace);
    assert(segment.skip(namespace.len() as int + 1) =~= name);
}

proof fn lemma_split_skips_name(uris: Seq<Seq<char>>, segment: Seq<char>, from: int, end: int)
    requires
        0 <= from <= end <= segment.len(),
        forall|i: int| from <= i < segment.len() ==> segment[i] != ':',
    ensures
        split_before(uris, segment, end) == split_before(uris, segment, from),
    decreases end - from,
{
    if end > from {
        lemma_split_skips_name(uris, segment, from, end - 1);
    }
}

/// A segment without a colon is a name in namespace zero.
pub proof fn law_plain_name_is_in_namespace_zero(uris: Seq<Seq<char>>, name: Seq<char>)
    requires
        !name.contains(':'),
    ensures
        qualified_name(uris, name) == (QualifiedNameView { namespace_index: 0, name }),
{
    lemma_split_skips_name(uris, name, 0, name.len() as int);
}

proof fn lemma_first_uri(uris: Seq<Seq<char>>, uri: Seq<char>, from: int)
    requires
        0 <= from <= uris.len(),
    ensures
        match position_of(uris, uri, from) {
            Some(i) => from <= i < uris.len() && uris[i] == uri && forall|j: int|
                from <= j < i ==> #[trigger] uris[j] != uri,
            None => forall|j: int| from <= j < uris.len() ==> #[trigger] uris[j] != uri,
        },
    decreases uris.len() - from,
{
    if from < uris.len() && uris[from] != uri {
        lemma_first_uri(uris, uri, from + 1);
    }
}

/// A namespace has the index at which its URI stands first in the table, and none where it does
/// not stand there.
pub proof fn law_namespaces_are_found_by_their_uri(uris: Seq<Seq<char>>, uri: Seq<char>, i: int)
    ensures
        0 <= i < uris.len() && i <= u16::MAX && uris[i] == uri && (forall|j: int|
            0 <= j < i ==> #[trigger] uris[j] != uri) ==> namespace_index(uris, uri) == Some(
            i as u16,
        ),
        !uris.contains(uri) ==> namespace_index(uris, uri) is None,
        namespace_index(uris, uri) matches Some(k) ==> k < uris.len() && uris[k as int] == uri,
{
    lemma_first_uri(uris, uri, 0);
    if let Some(k) = position_of(uris, uri, 0) {
        assert(uris.contains(uris[k]));
        if 0 <= i < uris.len() && uris[i] == uri && (forall|j: int|
            0 <= j < i ==> #[trigger] uris[j] != uri) {
            if k < i {
                assert(uris[k] != uri);
            }
        }
    } else if 0 <= i < uris.len() {
        assert(uris[i] != uri);
    }
}

/// A prefix names a namespace by its index where it is a number that an index can express, else by
/// its URI.
pub proof fn law_prefixes_name_namespaces(uris: Seq<Seq<char>>, n: nat, prefix: Seq<char>)
    ensures
        n <= u16::MAX ==> resolved_prefix(uris, decimal(n)) == Some(n as u16),
        (prefix.len() == 0 || exists|i: int|
            0 <= i < prefix.len() && !is_digit(#[trigger] prefix[i]) && (i > 0 || prefix[i] != '+'))
            ==> resolved_prefix(uris, prefix) == namespace_index(uris, prefix),
{
    if n <= u16::MAX {
        text::lemma_parse_decimal(n, u16::MAX as nat);
    }
    text::law_digits_denote_numbers(prefix, 0, u16::MAX as nat);
}

/// A segment is taken apart at its last colon that has a namespace in front of it, whatever colons
/// come before; where there is none, the whole segment is a name in namespace zero.
pub proof fn law_the_last_namespace_in_front_counts(
    uris: Seq<Seq<char>>,
    segment: Seq<char>,
    at: int,
)
    requires
        -1 <= at < segment.len(),
        at >= 0 ==> segment[at] == ':' && resolved_prefix(uris, segment.take(at)) is Some,
        forall|i: int|
            at < i < segment.len() && segment[i] == ':' ==> resolved_prefix(
                uris,
                #[trigger] segment.take(i),
            ) is None,
    ensures
        at >= 0 ==> qualified_name(uris, segment).namespace_index == resolved_prefix(
            uris,
            segment.take(at),
        )->Some_0 && qualified_name(uris, segment).name == segment.skip(at + 1),
        at < 0 ==> qualified_name(uris, segment).namespace_index == 0 && qualified_name(
            uris,
            segment,
        ).name == segment,
{
    lemma_split_at(uris, segment, at, segment.len() as int);
}

proof fn lemma_split_at(uris: Seq<Seq<char>>, segment: Seq<char>, at: int, end: int)
    requires
        -1 <= at < end <= segment.len() || (at == -1 && end == 0),
        at >= 0 ==> segment[at] == ':' && resolved_prefix(uris, segment.take(at)) is Some,
        forall|i: int|
            at < i < segment.len() && segment[i] == ':' ==> resolved_prefix(
                uris,
                #[trigger] segment.take(i),
            ) is None,
    ensures
        at >= 0 ==> split_before(uris, segment, end) == (QualifiedNameView {
            namespace_index: resolved_prefix(uris, segment.take(at))->Some_0,
            name: segment.skip(at + 1),
        }),
        at < 0 ==> split_before(uris, segment, end) == (QualifiedNameView {
            namespace_index: 0,
            name: segment,
        }),
    decreases end,
{
    if end > 0 && end - 1 != at {
        assert(segment[end - 1] == ':' ==> resolved_prefix(uris, segment.take(end - 1)) is None);
        lemma_split_at(uris, segment, at, end - 1);
    }
}

/// A path is read segment by segment.
pub proof fn law_paths_are_read_segment_by_segment(
    uris: Seq<Seq<char>>,
    path: Seq<Seq<char>>,
    i: int,
)
    requires
        0 <= i < path.len(),
    ensures
        qualified_names(uris, path).len() == path.len(),
        qualified_names(uris, path)[i] == qualified_name(uris, path[i]),
{
}

/// A segment is a regular expression exactly when it is written as one.
pub proof fn law_regular_expressions_are_written_as_such(inner: Seq<char>, segment: Seq<char>)
    ensures
        is_regex_segment("regex("@ + inner + seq![')']),
        is_regex_segment(segment) ==> exists|x: Seq<char>|
            segment == #[trigger] ("regex("@ + x) + seq![')'],
{
    reveal_strlit("regex(");
    let s = "regex("@ + inner + seq![')'];
    assert(s.subrange(0, 6) =~= "regex("@);
    if is_regex_segment(segment) {
        let x = segment.subrange(6, segment.len() - 1);
        assert(segment.subrange(0, 6)[5] == '(');
        assert(segment[5] == '(');
        assert(segment =~= ("regex("@ + x) + seq![')']);
    }
}

/// An identifier is read by the letter in front of it: a number, a text as it is, a GUID or bytes.
/// Anything else is none.
pub proof fn law_identifiers_are_read_by_their_letter(n: nat, s: Seq<char>)
    ensures
        n <= u32::MAX ==> parsed_identifier("i="@ + decimal(n)) == Some(
            IdentifierView::Numeric(n as u32),
        ),
        parsed_identifier("s="@ + s) == Some(IdentifierView::String(s)),
        parsed_identifier("g="@ + s) == match guid_of_text(s) {
            Some(g) => Some(IdentifierView::Guid(g)),
            None => None,
        },
        parsed_identifier("b="@ + s) == match bytes_of_base64(s) {
            Some(b) => Some(IdentifierView::ByteString(b)),
            None => None,
        },
        parsed_identifier(s) is Some ==> s.len() >= 2 && s[1] == '=' && (s[0] == 'i' || s[0] == 's'
            || s[0] == 'g' || s[0] == 'b'),
        n > u32::MAX ==> parsed_identifier("i="@ + decimal(n)) is None,
{
    reveal_strlit("i=");
    reveal_strlit("s=");
    reveal_strlit("g=");
    reveal_strlit("b=");
    let t = "i="@ + decimal(n);
    assert(t.skip(2) =~= decimal(n));
    assert(("s="@ + s).skip(2) =~= s);
    assert(("g="@ + s).skip(2) =~= s);
    assert(("b="@ + s).skip(2) =~= s);
    text::lemma_decimal(n);
    if n <= u32::MAX {
        text::lemma_parse_decimal(n, u32::MAX as nat);
    } else {
        assert(is_digit(decimal(n)[0]));
    }
}

/// What a node id text denotes once its namespace is known.
pub open spec fn in_namespace(
    whole: Seq<char>,
    rest: Seq<char>,
    namespace: u16,
) -> Result<NodeIdView, MappingErrorView> {
    match parsed_identifier(rest) {
        Some(identifier) => Ok(NodeIdView { namespace, identifier }),
        None => Err(MappingErrorView::InvalidNodeId(whole)),
    }
}

/// An identifier alone is one in namespace zero.
pub proof fn law_identifiers_are_in_namespace_zero(uris: Seq<Seq<char>>, rest: Seq<char>)
    requires
        rest.len() >= 2,
        rest[1] == '=',
    ensures
        parsed_node_id(uris, rest) == in_namespace(rest, rest, 0),
{
    lemma_identifier_is_not_a_head(uris, rest, rest, 0, 3);
}

proof fn lemma_head(head: Seq<char>, rest: Seq<char>)
    requires
        !head.contains(';'),
    ensures
        text::position_from(head + seq![';'] + rest, ';', 0) == head.len(),
        (head + seq![';'] + rest).take(head.len() as int) == head,
        (head + seq![';'] + rest).skip(head.len() as int + 1) == rest,
{
    let s = head + seq![';'] + rest;
    assert forall|i: int| 0 <= i < head.len() implies s[i] != ';' by {
        assert(s[i] == head[i]);
    }
    lemma_first_char(s, ';', 0, head.len() as int);
    assert(s.take(head.len() as int) =~= head);
    assert(s.skip(head.len() as int + 1) =~= rest);
}

/// A node id with `ns=` is in the namespace of that index, whatever the case of the word. An index
/// that a namespace cannot have makes the text invalid.
pub proof fn law_node_ids_name_their_namespace_by_index(
    uris: Seq<Seq<char>>,
    head: Seq<char>,
    n: nat,
    rest: Seq<char>,
)
    requires
        ascii_lowercase(head) == "ns="@ + decimal(n),
        rest.len() >= 2,
        rest[1] == '=',
    ensures
        n <= u16::MAX ==> parsed_node_id(uris, head + seq![';'] + rest) == in_namespace(
            head + seq![';'] + rest,
            rest,
            n as u16,
        ),
        n > u16::MAX ==> parsed_node_id(uris, head + seq![';'] + rest) == Err::<
            NodeIdView,
            MappingErrorView,
        >(MappingErrorView::InvalidNodeId(head + seq![';'] + rest)),
{
    reveal_strlit("ns=");
    reveal_strlit("nsu=");
    let lower = ascii_lowercase(head);
    let digits = decimal(n);
    text::lemma_decimal(n);
    assert(lower.len() == head.len());
    assert("ns="@.len() == 3);
    assert(lower.len() == 3 + digits.len());
    assert forall|i: int| 0 <= i < head.len() implies head[i] != ';' by {
        assert(lower[i] == text::ascii_lower(head[i]));
        if i >= 3 {
            assert(lower[i] == ("ns="@ + digits)[i]);
            assert(is_digit(digits[i - 3]));
        }
    }
    lemma_head(head, rest);
    let s = head + seq![';'] + rest;
    assert(lower.subrange(0, 3) =~= "ns="@);
    assert(lower[2] == '=');
    if starts_with(lower, "nsu="@) {
        assert(lower.subrange(0, 4)[2] == 'u');
    }
    assert(lower.skip(3) =~= decimal(n));
    if n <= u16::MAX {
        text::lemma_parse_decimal(n, u16::MAX as nat);
        lemma_identifier_is_not_a_head(uris, s, rest, n as u16, 2);
    } else {
        assert(is_digit(decimal(n)[0]));
    }
}

/// A node id with `nsu=` is in the namespace of that URI, whatever the case of the word; an URI
/// that the table does not hold is reported.
pub proof fn law_node_ids_name_their_namespace_by_uri(
    uris: Seq<Seq<char>>,
    word: Seq<char>,
    uri: Seq<char>,
    rest: Seq<char>,
)
    requires
        ascii_lowercase(word) == "nsu="@,
        !uri.contains(';'),
        rest.len() >= 2,
        rest[1] == '=',
    ensures
        parsed_node_id(uris, word + uri + seq![';'] + rest) == match namespace_index(uris, uri) {
            Some(index) => in_namespace(word + uri + seq![';'] + rest, rest, index),
            None => Err(MappingErrorView::UnknownNamespace(uri)),
        },
{
    reveal_strlit("nsu=");
    let head = word + uri;
    let lower = ascii_lowercase(head);
    assert(word.len() == ascii_lowercase(word).len());
    assert forall|i: int| 0 <= i < head.len() implies head[i] != ';' by {
        if i < 4 {
            assert(ascii_lowercase(word)[i] == text::ascii_lower(word[i]));
        } else {
            assert(head[i] == uri[i - 4]);
        }
    }
    lemma_head(head, rest);
    let s = head + seq![';'] + rest;
    assert(lower.subrange(0, 4) =~= ascii_lowercase(word));
    assert(head.skip(4) =~= uri);
    if let Some(index) = namespace_index(uris, uri) {
        lemma_identifier_is_not_a_head(uris, s, rest, index, 2);
    }
}

/// The server part of a node id is passed over.
pub proof fn law_the_server_of_a_node_id_is_passed_over(
    uris: Seq<Seq<char>>,
    word: Seq<char>,
    server: Seq<char>,
    rest: Seq<char>,
)
    requires
        ascii_lowercase(word) == "svr="@,
        !server.contains(';'),
        rest.len() >= 2,
        rest[1] == '=',
    ensures
        parsed_node_id(uris, word + server + seq![';'] + rest) == in_namespace(
            word + server + seq![';'] + rest,
            rest,
            0,
        ),
{
    reveal_strlit("nsu=");
    reveal_strlit("ns=");
    reveal_strlit("svr=");
    let head = word + server;
    let lower = ascii_lowercase(head);
    assert(word.len() == ascii_lowercase(word).len());
    assert forall|i: int| 0 <= i < head.len() implies head[i] != ';' by {
        if i < 4 {
            assert(ascii_lowercase(word)[i] == text::ascii_lower(word[i]));
        } else {
            assert(head[i] == server[i - 4]);
        }
    }
    lemma_head(head, rest);
    let s = head + seq![';'] + rest;
    assert(lower.subrange(0, 4) =~= ascii_lowercase(word));
    assert(lower[0] == ascii_lowercase(word)[0]);
    if starts_with(lower, "nsu="@) {
        assert(lower.subrange(0, 4)[0] == 'n');
    }
    if starts_with(lower, "ns="@) {
        assert(lower.subrange(0, 3)[0] == 'n');
    }
    lemma_identifier_is_not_a_head(uris, s, rest, 0, 2);
}

/// A text that is neither a head nor an identifier is reported as it is.
pub proof fn law_invalid_node_ids_are_reported(uris: Seq<Seq<char>>, s: Seq<char>)
    requires
        !s.contains(';'),
        parsed_identifier(s) is None,
    ensures
        parsed_node_id(uris, s) == Err::<NodeIdView, MappingErrorView>(
            MappingErrorView::InvalidNodeId(s),
        ),
{
    assert forall|i: int| 0 <= i < s.len() implies s[i] != ';' by {}
    lemma_no_char(s, ';', 0);
}

/// The table tells the URI at an index, and the index of a URI.
pub proof fn law_tables_tell_uris_and_indices(
    table: NamespaceTable,
    index: u16,
    uri: Option<&str>,
    name: &str,
    found: Option<u16>,
)
    requires
        call_ensures(NamespaceTable::uri_of, (&table, index), uri),
        call_ensures(NamespaceTable::index_of, (&table, name), found),
    ensures
        uri is Some <==> index < table@.len(),
        uri matches Some(u) ==> u@ == table@[index as int],
        found == namespace_index(table@, name@),
        found matches Some(i) ==> i < table@.len() && table@[i as int] == name@,
{
    law_namespaces_are_found_by_their_uri(table@, name@, 0);
}

} // verus!
