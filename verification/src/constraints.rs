//! `applyConstraints`: which servers a device type applies to.
use crate::model::{ApplyConstraints, DeviceType};
use crate::namespace::{self, parsed_node_id, MappingErrorView, NamespaceTable};
use crate::text::{self, is_blank, trimmed};
use crate::ua::{NodeId, NodeIdView};
use vstd::prelude::*;

verus! {

/// The texts that are not blank, each without the white space around it.
pub open spec fn non_blank_texts(values: Seq<Seq<char>>) -> Seq<Seq<char>>
    decreases values.len(),
{
    if values.len() == 0 {
        Seq::empty()
    } else {
        let before = non_blank_texts(values.drop_last());
        if is_blank(values.last()) {
            before
        } else {
            before.push(trimmed(values.last()))
        }
    }
}

fn non_blank(values: &Vec<String>) -> (r: Vec<String>)
    ensures
        r.deep_view() == non_blank_texts(values.deep_view()),
{
    let mut out: Vec<String> = Vec::new();
    let mut i: usize = 0;
    proof {
        assert(out.deep_view() =~= non_blank_texts(values.deep_view().take(0)));
    }
    while i < values.len()
        invariant
            i <= values@.len(),
            out.deep_view() == non_blank_texts(values.deep_view().take(i as int)),
        decreases values@.len() - i,
    {
        let ghost before = out.deep_view();
        let t: &str = text::trim(values[i].as_str());
        proof {
            let upto = values.deep_view().take(i + 1);
            assert(upto.drop_last() =~= values.deep_view().take(i as int));
            assert(upto.last() == values@[i as int]@);
        }
        if !text::is_empty(t) {
            out.push(t.to_owned());
            proof {
                assert(out.deep_view() =~= before.push(t@));
            }
        }
        i = i + 1;
    }
    proof {
        assert(values.deep_view().take(i as int) =~= values.deep_view());
    }
    out
}

/// Whether `matchesServerIds` lets a device type apply to a server: it names none,
/// it names this one, or it names no server that the gateway knows.
pub open spec fn server_ids_match(
    wanted: Seq<Seq<char>>,
    server_id: Seq<char>,
    known: Seq<Seq<char>>,
) -> bool {
    ||| wanted.len() == 0
    ||| wanted.contains(server_id)
    ||| forall|i: int| 0 <= i < wanted.len() ==> !known.contains(#[trigger] wanted[i])
}

fn matches_server_ids(
    constraints: &ApplyConstraints,
    server_id: &str,
    known_server_ids: &[String],
) -> (r: bool)
    ensures
        r == server_ids_match(
            non_blank_texts(constraints.matches_server_ids.deep_view()),
            server_id@,
            known_server_ids@.map_values(|s: String| s@),
        ),
{
    let wanted: Vec<String> = non_blank(&constraints.matches_server_ids);
    let ghost names = wanted.deep_view();
    let ghost known = known_server_ids@.map_values(|s: String| s@);
    proof {
        assert(names.len() == wanted@.len());
    }
    if wanted.len() == 0 {
        return true;
    }
    if text::is_one_of(server_id, wanted.as_slice()) {
        proof {
            let i = choose|i: int| 0 <= i < wanted@.len() && #[trigger] wanted@[i]@ == server_id@;
            assert(names[i] == server_id@);
        }
        return true;
    }
    proof {
        if names.contains(server_id@) {
            let i = names.index_of(server_id@);
            assert(wanted@[i]@ == server_id@);
        }
    }
    // Nothing in the constraint may name a server this gateway knows: it was then
    // authored against a server registry that is not used here, and the server's own
    // device type list does the scoping instead.
    let mut i: usize = 0;
    while i < wanted.len()
        invariant
            i <= wanted@.len(),
            names == wanted.deep_view(),
            names == non_blank_texts(constraints.matches_server_ids.deep_view()),
            names.len() == wanted@.len(),
            !names.contains(server_id@),
            names.len() > 0,
            known == known_server_ids@.map_values(|s: String| s@),
            forall|j: int| 0 <= j < i ==> !known.contains(#[trigger] names[j]),
        decreases wanted@.len() - i,
    {
        proof {
            assert(names[i as int] == wanted@[i as int]@);
        }
        if text::is_one_of(wanted[i].as_str(), known_server_ids) {
            proof {
                let j = choose|j: int|
                    0 <= j < known_server_ids@.len() && #[trigger] known_server_ids@[j]@
                        == wanted@[i as int]@;
                assert(known[j] == names[i as int]);
                assert(known.contains(names[i as int]));
            }
            return false;
        }
        proof {
            if known.contains(names[i as int]) {
                let j = known.index_of(names[i as int]);
                assert(known_server_ids@[j]@ == wanted@[i as int]@);
            }
        }
        i = i + 1;
    }
    true
}

/// Whether a text denotes the given node.
pub open spec fn denotes(uris: Seq<Seq<char>>, s: Seq<char>, id: NodeIdView) -> bool {
    parsed_node_id(uris, s) matches Ok(other) && other == id
}

/// Whether `matchesNodeIds` lets a device type apply: it names none, or it names the
/// root that the device type was authored against.
pub open spec fn node_ids_match(
    uris: Seq<Seq<char>>,
    wanted: Seq<Seq<char>>,
    root: Option<Seq<char>>,
) -> bool {
    ||| wanted.len() == 0
    ||| (root matches Some(root) && parsed_node_id(uris, root) matches Ok(id) && exists|i: int|
        0 <= i < wanted.len() && denotes(uris, #[trigger] wanted[i], id))
}

/// `matchesNodeIds` is compared against the root the device type was authored against.
fn matches_node_ids(
    constraints: &ApplyConstraints,
    device_type: &DeviceType,
    table: &NamespaceTable,
) -> (r: bool)
    ensures
        r == node_ids_match(
            table@,
            non_blank_texts(constraints.matches_node_ids.deep_view()),
            device_type.referenced_root_node_id.deep_view(),
        ),
{
    let wanted: Vec<String> = non_blank(&constraints.matches_node_ids);
    let ghost names = wanted.deep_view();
    proof {
        assert(names.len() == wanted@.len());
    }
    if wanted.len() == 0 {
        return true;
    }
    let root: &str = match &device_type.referenced_root_node_id {
        Some(root) => root.as_str(),
        None => {
            return false;
        },
    };
    let id: NodeId = match namespace::parse_node_id(table, root) {
        Ok(id) => id,
        Err(_) => {
            return false;
        },
    };
    let mut i: usize = 0;
    while i < wanted.len()
        invariant
            i <= wanted@.len(),
            names == wanted.deep_view(),
            names == non_blank_texts(constraints.matches_node_ids.deep_view()),
            names.len() == wanted@.len(),
            device_type.referenced_root_node_id.deep_view() == Some(root@),
            parsed_node_id(table@, root@) == Ok::<NodeIdView, MappingErrorView>(id.deep_view()),
            forall|j: int| 0 <= j < i ==> !denotes(table@, #[trigger] names[j], id.deep_view()),
        decreases wanted@.len() - i,
    {
        proof {
            assert(names[i as int] == wanted@[i as int]@);
        }
        if let Ok(candidate) = namespace::parse_node_id(table, wanted[i].as_str()) {
            if candidate.same(&id) {
                proof {
                    assert(denotes(table@, names[i as int], id.deep_view()));
                }
                return true;
            }
        }
        i = i + 1;
    }
    false
}

/// Whether a device type applies to a server.
pub open spec fn device_type_applies(
    device_type: DeviceType,
    server_id: Seq<char>,
    known: Seq<Seq<char>>,
    uris: Seq<Seq<char>>,
) -> bool {
    &&& device_type.enabled
    &&& device_type.apply_constraints matches Some(constraints) ==> {
        &&& server_ids_match(
            non_blank_texts(constraints.matches_server_ids.deep_view()),
            server_id,
            known,
        )
        &&& node_ids_match(
            uris,
            non_blank_texts(constraints.matches_node_ids.deep_view()),
            device_type.referenced_root_node_id.deep_view(),
        )
    }
}

/// Whether a device type applies to a given server.
///
/// `known_server_ids` is every server this gateway is configured with. It is needed
/// because servers are configured locally and need no managed object: a
/// `matchesServerIds` authored in the OPC UA UI holds managed object ids, which never
/// equal a local server id. Scoping such a device type out entirely would make every
/// UI-authored device type unusable, so a constraint that names no known server is
/// ignored instead.
///
/// `referencedServerId` records the server a device type was authored against; it is
/// a hint, not a filter. Constraints that cannot be evaluated without an address
/// space are ignored; see [`unsupported`].
pub fn applies(
    _device_type_id: &str,
    device_type: &DeviceType,
    server_id: &str,
    known_server_ids: &[String],
    table: &NamespaceTable,
) -> (r: bool)
    ensures
        r == device_type_applies(
            *device_type,
            server_id@,
            known_server_ids@.map_values(|s: String| s@),
            table@,
        ),
{
    if !device_type.enabled {
        return false;
    }
    match &device_type.apply_constraints {
        None => true,
        Some(constraints) => matches_server_ids(constraints, server_id, known_server_ids)
            && matches_node_ids(constraints, device_type, table),
    }
}

/// Whether `matchesServerIds` is ignored for a server because it names no configured one. Scope
/// the device type with the server's own device type list instead.
pub fn ignores_server_ids(
    constraints: &ApplyConstraints,
    server_id: &str,
    known_server_ids: &[String],
) -> (r: bool)
    ensures
        ({
            let wanted = non_blank_texts(constraints.matches_server_ids.deep_view());
            let known = known_server_ids@.map_values(|s: String| s@);
            r == (wanted.len() > 0 && !wanted.contains(server_id@) && forall|i: int|
                0 <= i < wanted.len() ==> !known.contains(#[trigger] wanted[i]))
        }),
{
    let wanted: Vec<String> = non_blank(&constraints.matches_server_ids);
    let ghost names = wanted.deep_view();
    proof {
        assert(names.len() == wanted@.len());
    }
    if wanted.len() == 0 {
        return false;
    }
    if text::is_one_of(server_id, wanted.as_slice()) {
        proof {
            let i = choose|i: int| 0 <= i < wanted@.len() && #[trigger] wanted@[i]@ == server_id@;
            assert(names[i] == server_id@);
        }
        return false;
    }
    proof {
        if names.contains(server_id@) {
            let i = names.index_of(server_id@);
            assert(wanted@[i]@ == server_id@);
        }
    }
    matches_server_ids(constraints, server_id, known_server_ids)
}

/// A constraint that the gateway does not evaluate.
#[derive(Debug, Clone, Copy, PartialEq, Eq, Structural)]
pub enum Unsupported {
    /// `browsePathMatchesRegex`, which needs an address space scan.
    BrowsePathMatchesRegex,
    /// `serverObjectHasFragment`.
    ServerObjectHasFragment,
    /// `serverHasNodeWithValues`.
    ServerHasNodeWithValues,
}

/// An optional text that says something.
pub open spec fn says_something(s: Option<Seq<char>>) -> bool {
    s matches Some(s) && !is_blank(s)
}

fn is_set(s: &Option<String>) -> (r: bool)
    ensures
        r == says_something(s.deep_view()),
{
    match s {
        Some(s) => !text::blank(s.as_str()),
        None => false,
    }
}

/// Whether a constraint that the gateway does not evaluate is set.
pub open spec fn is_unsupported(constraints: ApplyConstraints, which: Unsupported) -> bool {
    match which {
        Unsupported::BrowsePathMatchesRegex => says_something(
            constraints.browse_path_matches_regex.deep_view(),
        ),
        Unsupported::ServerObjectHasFragment => says_something(
            constraints.server_object_has_fragment.deep_view(),
        ),
        Unsupported::ServerHasNodeWithValues => constraints.server_has_node_with_values is Some,
    }
}

/// One constraint, where it is set.
pub open spec fn if_unsupported(constraints: ApplyConstraints, which: Unsupported) -> Seq<
    Unsupported,
> {
    if is_unsupported(constraints, which) {
        seq![which]
    } else {
        Seq::empty()
    }
}

/// The constraints that are set and will be ignored, each once, so that a device type
/// is never used in a way that the operator cannot see.
pub fn report_unsupported(constraints: &ApplyConstraints) -> (r: Vec<Unsupported>)
    ensures
        r@ == if_unsupported(*constraints, Unsupported::BrowsePathMatchesRegex) + if_unsupported(
            *constraints,
            Unsupported::ServerObjectHasFragment,
        ) + if_unsupported(*constraints, Unsupported::ServerHasNodeWithValues),
{
    let mut out: Vec<Unsupported> = Vec::new();
    if is_set(&constraints.browse_path_matches_regex) {
        out.push(Unsupported::BrowsePathMatchesRegex);
    }
    if is_set(&constraints.server_object_has_fragment) {
        out.push(Unsupported::ServerObjectHasFragment);
    }
    if constraints.server_has_node_with_values.is_some() {
        out.push(Unsupported::ServerHasNodeWithValues);
    }
    proof {
        assert(out@ =~= if_unsupported(*constraints, Unsupported::BrowsePathMatchesRegex)
            + if_unsupported(*constraints, Unsupported::ServerObjectHasFragment) + if_unsupported(
            *constraints,
            Unsupported::ServerHasNodeWithValues,
        ));
    }
    out
}

// Laws -----------------------------------------------------------------------------

/// A disabled device type applies nowhere.
pub proof fn law_disabled_never_applies(
    device_type: DeviceType,
    server_id: Seq<char>,
    known: Seq<Seq<char>>,
    uris: Seq<Seq<char>>,
)
    requires
        !device_type.enabled,
    ensures
        !device_type_applies(device_type, server_id, known, uris),
{
}

/// Whether a device type applies does not depend on the server that it was authored
/// against.
pub proof fn law_referenced_server_is_no_filter(
    a: DeviceType,
    b: DeviceType,
    server_id: Seq<char>,
    known: Seq<Seq<char>>,
    uris: Seq<Seq<char>>,
)
    requires
        a == (DeviceType {
            referenced_server_id: a.referenced_server_id,
            referenced_server_name: a.referenced_server_name,
            ..b
        }),
    ensures
        device_type_applies(a, server_id, known, uris) == device_type_applies(
            b,
            server_id,
            known,
            uris,
        ),
{
}

/// A device type whose `matchesServerIds` names no configured server applies to all
/// servers or to none: the constraint does not tell them apart.
pub proof fn law_unknown_servers_do_not_scope(
    device_type: DeviceType,
    constraints: ApplyConstraints,
    a: Seq<char>,
    b: Seq<char>,
    known: Seq<Seq<char>>,
    uris: Seq<Seq<char>>,
)
    requires
        device_type.apply_constraints == Some(constraints),
        forall|i: int|
            #![trigger non_blank_texts(constraints.matches_server_ids.deep_view())[i]]
            0 <= i < non_blank_texts(constraints.matches_server_ids.deep_view()).len()
                ==> !known.contains(
                non_blank_texts(constraints.matches_server_ids.deep_view())[i],
            ),
    ensures
        device_type_applies(device_type, a, known, uris) == device_type_applies(
            device_type,
            b,
            known,
            uris,
        ),
{
}

/// Between configured servers `matchesServerIds` does scope: where it names one of
/// them, the device type applies to no server that it does not name.
pub proof fn law_known_servers_scope(
    device_type: DeviceType,
    constraints: ApplyConstraints,
    server_id: Seq<char>,
    named: Seq<char>,
    known: Seq<Seq<char>>,
    uris: Seq<Seq<char>>,
)
    requires
        device_type.apply_constraints == Some(constraints),
        non_blank_texts(constraints.matches_server_ids.deep_view()).contains(named),
        known.contains(named),
        !non_blank_texts(constraints.matches_server_ids.deep_view()).contains(server_id),
    ensures
        !device_type_applies(device_type, server_id, known, uris),
{
}

proof fn lemma_named(values: Seq<Seq<char>>, name: Seq<char>)
    ensures
        non_blank_texts(values).contains(name) <==> exists|i: int|
            0 <= i < values.len() && !is_blank(#[trigger] values[i]) && trimmed(values[i]) == name,
    decreases values.len(),
{
    if values.len() > 0 {
        let first = values.drop_last();
        lemma_named(first, name);
        let before = non_blank_texts(first);
        let after = non_blank_texts(values);
        if before.contains(name) {
            assert(after[before.index_of(name)] == name);
            let i = choose|i: int|
                0 <= i < first.len() && !is_blank(#[trigger] first[i]) && trimmed(first[i]) == name;
            assert(values[i] == first[i]);
        }
        if !is_blank(values.last()) && trimmed(values.last()) == name {
            assert(after[after.len() - 1] == name);
            assert(values[values.len() - 1] == values.last());
        }
        if after.contains(name) {
            let k = after.index_of(name);
            if k < before.len() {
                assert(before[k] == name);
            } else {
                assert(!is_blank(values[values.len() - 1]));
            }
        }
        if exists|i: int|
            0 <= i < values.len() && !is_blank(#[trigger] values[i]) && trimmed(values[i]) == name {
            let i = choose|i: int|
                0 <= i < values.len() && !is_blank(#[trigger] values[i]) && trimmed(values[i])
                    == name;
            if i < first.len() {
                assert(first[i] == values[i]);
            }
        }
    }
}

/// Whether a list names something, at any place, white space around it aside. A blank entry names
/// nothing.
pub open spec fn names(list: Seq<String>, name: Seq<char>) -> bool {
    exists|i: int|
        0 <= i < list.len() && !is_blank((#[trigger] list[i])@) && trimmed(list[i]@) == name
}

/// Whether a list names anything.
pub open spec fn names_anything(list: Seq<String>) -> bool {
    exists|i: int| 0 <= i < list.len() && !is_blank((#[trigger] list[i])@)
}

proof fn lemma_names(list: Vec<String>, name: Seq<char>)
    ensures
        names(list@, name) <==> non_blank_texts(list.deep_view()).contains(name),
        names_anything(list@) <==> non_blank_texts(list.deep_view()).len() > 0,
{
    let values = list.deep_view();
    lemma_named(values, name);
    assert forall|i: int| 0 <= i < values.len() implies values[i] == (#[trigger] list@[i])@ by {}
    if non_blank_texts(values).contains(name) {
        let i = choose|i: int|
            0 <= i < values.len() && !is_blank(#[trigger] values[i]) && trimmed(values[i]) == name;
        assert(!is_blank(list@[i]@));
    }
    if names(list@, name) {
        let i = choose|i: int|
            0 <= i < list@.len() && !is_blank((#[trigger] list@[i])@) && trimmed(list@[i]@) == name;
        assert(!is_blank(values[i]));
    }
    if names_anything(list@) {
        let i = choose|i: int| 0 <= i < list@.len() && !is_blank((#[trigger] list@[i])@);
        lemma_named(values, trimmed(values[i]));
        assert(non_blank_texts(values).contains(trimmed(values[i])));
    }
    if non_blank_texts(values).len() > 0 {
        let n = non_blank_texts(values)[0];
        lemma_named(values, n);
        let i = choose|i: int|
            0 <= i < values.len() && !is_blank(#[trigger] values[i]) && trimmed(values[i]) == n;
        assert(!is_blank(list@[i]@));
    }
}

/// An enabled device type applies to a server that its `matchesServerIds` names at any place of
/// the list, to every server where the list names none or none that is configured, and to no other;
/// all this where `matchesNodeIds` names nothing.
pub proof fn law_named_servers_are_applied_to(
    device_type: DeviceType,
    constraints: ApplyConstraints,
    server_id: Seq<char>,
    known: Seq<Seq<char>>,
    uris: Seq<Seq<char>>,
)
    requires
        device_type.enabled,
        device_type.apply_constraints == Some(constraints),
        !names_anything(constraints.matches_node_ids@),
    ensures
        device_type_applies(device_type, server_id, known, uris) <==> {
            ||| names(constraints.matches_server_ids@, server_id)
            ||| !names_anything(constraints.matches_server_ids@)
            ||| forall|id: Seq<char>|
                known.contains(id) ==> !#[trigger] names(constraints.matches_server_ids@, id)
        },
{
    let wanted = non_blank_texts(constraints.matches_server_ids.deep_view());
    lemma_names(constraints.matches_node_ids, server_id);
    lemma_names(constraints.matches_server_ids, server_id);
    assert forall|id: Seq<char>| #[trigger]
        names(constraints.matches_server_ids@, id) == wanted.contains(id) by {
        lemma_names(constraints.matches_server_ids, id);
    }
    if forall|i: int| 0 <= i < wanted.len() ==> !known.contains(#[trigger] wanted[i]) {
        assert forall|id: Seq<char>| known.contains(id) implies !#[trigger] names(
            constraints.matches_server_ids@,
            id,
        ) by {
            if wanted.contains(id) {
                let i = wanted.index_of(id);
                assert(wanted[i] == id);
            }
        }
    }
    if forall|id: Seq<char>|
        known.contains(id) ==> !#[trigger] names(constraints.matches_server_ids@, id) {
        assert forall|i: int| 0 <= i < wanted.len() implies !known.contains(
            #[trigger] wanted[i],
        ) by {
            assert(wanted.contains(wanted[i]));
            assert(names(constraints.matches_server_ids@, wanted[i]));
        }
    }
}

/// An enabled device type without constraints applies to every server.
pub proof fn law_unconstrained_device_types_apply_everywhere(
    device_type: DeviceType,
    server_id: Seq<char>,
    known: Seq<Seq<char>>,
    uris: Seq<Seq<char>>,
)
    requires
        device_type.enabled,
        device_type.apply_constraints is None,
    ensures
        device_type_applies(device_type, server_id, known, uris),
{
}

/// Whether one of a list's texts denotes a node, white space around it aside.
pub open spec fn names_node(list: Seq<String>, id: NodeIdView, uris: Seq<Seq<char>>) -> bool {
    exists|s: Seq<char>| #[trigger]
        names(list, s) && parsed_node_id(uris, s) == Ok::<NodeIdView, MappingErrorView>(id)
}

/// Where `matchesNodeIds` names anything and `matchesServerIds` nothing, an enabled device type
/// applies exactly when one of the named nodes is the root that it was authored against.
pub proof fn law_named_roots_are_applied_to(
    device_type: DeviceType,
    constraints: ApplyConstraints,
    server_id: Seq<char>,
    known: Seq<Seq<char>>,
    uris: Seq<Seq<char>>,
)
    requires
        device_type.enabled,
        device_type.apply_constraints == Some(constraints),
        names_anything(constraints.matches_node_ids@),
        !names_anything(constraints.matches_server_ids@),
    ensures
        device_type_applies(device_type, server_id, known, uris) <==> (
        device_type.referenced_root_node_id matches Some(root) && parsed_node_id(
            uris,
            root@,
        ) matches Ok(id) && names_node(constraints.matches_node_ids@, id, uris)),
{
    let wanted = non_blank_texts(constraints.matches_node_ids.deep_view());
    lemma_names(constraints.matches_node_ids, server_id);
    lemma_names(constraints.matches_server_ids, server_id);
    if let Some(root) = device_type.referenced_root_node_id {
        if let Ok(id) = parsed_node_id(uris, root@) {
            if exists|i: int| 0 <= i < wanted.len() && denotes(uris, #[trigger] wanted[i], id) {
                let i = choose|i: int|
                    0 <= i < wanted.len() && denotes(uris, #[trigger] wanted[i], id);
                lemma_names(constraints.matches_node_ids, wanted[i]);
                assert(wanted.contains(wanted[i]));
                assert(names(constraints.matches_node_ids@, wanted[i]));
            }
            if names_node(constraints.matches_node_ids@, id, uris) {
                let s = choose|s: Seq<char>| #[trigger]
                    names(constraints.matches_node_ids@, s) && parsed_node_id(uris, s) == Ok::<
                        NodeIdView,
                        MappingErrorView,
                    >(id);
                lemma_names(constraints.matches_node_ids, s);
                let i = wanted.index_of(s);
                assert(denotes(uris, wanted[i], id));
            }
        }
    }
}

/// Both constraints have to let a device type in.
pub proof fn law_both_constraints_have_to_match(
    device_type: DeviceType,
    constraints: ApplyConstraints,
    no_nodes: ApplyConstraints,
    no_servers: ApplyConstraints,
    server_id: Seq<char>,
    known: Seq<Seq<char>>,
    uris: Seq<Seq<char>>,
)
    requires
        device_type.apply_constraints == Some(constraints),
        no_nodes == (ApplyConstraints { matches_node_ids: no_nodes.matches_node_ids, ..constraints }),
        !names_anything(no_nodes.matches_node_ids@),
        no_servers == (ApplyConstraints {
            matches_server_ids: no_servers.matches_server_ids,
            ..constraints
        }),
        !names_anything(no_servers.matches_server_ids@),
    ensures
        device_type_applies(device_type, server_id, known, uris) <==> device_type_applies(
            DeviceType { apply_constraints: Some(no_nodes), ..device_type },
            server_id,
            known,
            uris,
        ) && device_type_applies(
            DeviceType { apply_constraints: Some(no_servers), ..device_type },
            server_id,
            known,
            uris,
        ),
{
    lemma_names(no_nodes.matches_node_ids, server_id);
    lemma_names(no_servers.matches_server_ids, server_id);
}

/// Each constraint that is set and not evaluated is reported, once, and no other.
pub proof fn law_unsupported_constraints_are_reported(
    constraints: ApplyConstraints,
    r: Vec<Unsupported>,
)
    requires
        call_ensures(report_unsupported, (&constraints,), r),
    ensures
        r@.contains(Unsupported::BrowsePathMatchesRegex) <==> (
        constraints.browse_path_matches_regex matches Some(s) && !is_blank(s@)),
        r@.contains(Unsupported::ServerObjectHasFragment) <==> (
        constraints.server_object_has_fragment matches Some(s) && !is_blank(s@)),
        r@.contains(Unsupported::ServerHasNodeWithValues)
            <==> constraints.server_has_node_with_values is Some,
        r@.no_duplicates(),
{
    let a = if_unsupported(constraints, Unsupported::BrowsePathMatchesRegex);
    let b = if_unsupported(constraints, Unsupported::ServerObjectHasFragment);
    let c = if_unsupported(constraints, Unsupported::ServerHasNodeWithValues);
    assert(r@ == a + b + c);
    if a.len() > 0 {
        assert(r@[0] == a[0]);
    }
    if b.len() > 0 {
        assert(r@[a.len() as int] == b[0]);
    }
    if c.len() > 0 {
        assert(r@[(a.len() + b.len()) as int] == c[0]);
    }
}

/// A constraint is reported as ignored for a server exactly when it names something, but neither
/// that server nor any that is configured.
pub proof fn law_ignored_server_ids_are_reported(
    constraints: ApplyConstraints,
    server_id: &str,
    known_server_ids: &[String],
    r: bool,
)
    requires
        call_ensures(ignores_server_ids, (&constraints, server_id, known_server_ids), r),
    ensures
        r <==> names_anything(constraints.matches_server_ids@) && !names(
            constraints.matches_server_ids@,
            server_id@,
        ) && forall|k: int|
            0 <= k < known_server_ids@.len() ==> !names(
                constraints.matches_server_ids@,
                (#[trigger] known_server_ids@[k])@,
            ),
{
    let list = constraints.matches_server_ids;
    let wanted = non_blank_texts(list.deep_view());
    let known = known_server_ids@.map_values(|s: String| s@);
    lemma_names(list, server_id@);
    if forall|i: int| 0 <= i < wanted.len() ==> !known.contains(#[trigger] wanted[i]) {
        assert forall|k: int| 0 <= k < known_server_ids@.len() implies !names(
            list@,
            (#[trigger] known_server_ids@[k])@,
        ) by {
            lemma_names(list, known_server_ids@[k]@);
            assert(known[k] == known_server_ids@[k]@);
            if wanted.contains(known[k]) {
                assert(wanted[wanted.index_of(known[k])] == known[k]);
            }
        }
    }
    if forall|k: int|
        0 <= k < known_server_ids@.len() ==> !names(list@, (#[trigger] known_server_ids@[k])@) {
        assert forall|i: int| 0 <= i < wanted.len() implies !known.contains(
            #[trigger] wanted[i],
        ) by {
            if known.contains(wanted[i]) {
                let k = known.index_of(wanted[i]);
                lemma_names(list, known_server_ids@[k]@);
                assert(wanted.contains(wanted[i]));
            }
        }
    }
}

} // verus!
