//! JSON values, as far as the gateway reads and writes them.
use crate::text_map::TextMap;
use crate::ua::Number;
use vstd::prelude::*;

verus! {

/// A JSON value.
#[derive(Debug)]
pub enum Json {
    Null,
    Bool(bool),
    /// A number written without a fraction.
    Integer(i128),
    /// A number written as a double.
    Number(Number),
    String(String),
    Array(Vec<Json>),
    Object(TextMap<Json>),
}

/// What a JSON value is, objects being maps from names to values.
#[verifier::ext_equal]
pub enum JsonView {
    Null,
    Bool(bool),
    Integer(i128),
    Number(Number),
    String(Seq<char>),
    Array(Seq<JsonView>),
    Object(Map<Seq<char>, JsonView>),
}

impl Json {
    pub open spec fn model(&self) -> JsonView
        decreases self,
    {
        match self {
            Json::Null => JsonView::Null,
            Json::Bool(b) => JsonView::Bool(*b),
            Json::Integer(n) => JsonView::Integer(*n),
            Json::Number(n) => JsonView::Number(*n),
            Json::String(s) => JsonView::String(s@),
            Json::Array(items) => JsonView::Array(
                Seq::new(
                    items@.len(),
                    |i: int|
                        if 0 <= i < items@.len() {
                            items@[i].model()
                        } else {
                            JsonView::Null
                        },
                ),
            ),
            Json::Object(members) => JsonView::Object(
                members@.map_values(
                    |v: Json|
                        if decreases_to!(self => v) {
                            v.model()
                        } else {
                            JsonView::Null
                        },
                ),
            ),
        }
    }
}

impl DeepView for Json {
    type V = JsonView;

    open spec fn deep_view(&self) -> JsonView {
        self.model()
    }
}

/// The members of an object by what their values are.
pub open spec fn members_model(members: Map<Seq<char>, Json>) -> Map<Seq<char>, JsonView> {
    members.map_values(|v: Json| v.model())
}

/// An object is the map of what its members are.
pub broadcast proof fn lemma_object_model(members: TextMap<Json>)
    ensures
        #[trigger] Json::Object(members).model() == JsonView::Object(members_model(members@)),
{
    let object = Json::Object(members);
    assert forall|k: Seq<char>| #[trigger] members@.contains_key(k) implies decreases_to!(
        object => members@[k]
    ) by {
        members.lemma_value_is_part(k);
        assert(decreases_to!(object => members));
    }
    assert(object.model()->Object_0 =~= members_model(members@));
}

/// What stands at a name, where the value is an object that has it.
pub open spec fn member(v: JsonView, name: Seq<char>) -> Option<JsonView> {
    match v {
        JsonView::Object(members) => if members.contains_key(name) {
            Some(members[name])
        } else {
            None
        },
        _ => None,
    }
}

/// The text that a value is, where it is one.
pub open spec fn text_of_json(v: JsonView) -> Option<Seq<char>> {
    match v {
        JsonView::String(s) => Some(s),
        _ => None,
    }
}

/// The text of the member called `name`, where there is one.
pub open spec fn text_member(v: JsonView, name: Seq<char>) -> Option<Seq<char>> {
    match member(v, name) {
        Some(member) => text_of_json(member),
        None => None,
    }
}

/// An object without members.
pub open spec fn empty_object() -> JsonView {
    JsonView::Object(Map::empty())
}

impl Json {
    /// The member called `name`; `None` where there is none or the value is no
    /// object.
    pub fn get(&self, name: &str) -> (r: Option<&Json>)
        ensures
            r is Some == member(self.model(), name@) is Some,
            r matches Some(v) ==> member(self.model(), name@) == Some(v.model()),
    {
        broadcast use lemma_object_model;

        match self {
            Json::Object(members) => members.get(name),
            _ => None,
        }
    }

    pub fn as_str(&self) -> (r: Option<&str>)
        ensures
            r is Some == text_of_json(self.model()) is Some,
            r matches Some(s) ==> text_of_json(self.model()) == Some(s@),
    {
        match self {
            Json::String(s) => Some(s.as_str()),
            _ => None,
        }
    }

    pub fn as_bool(&self) -> (r: Option<bool>)
        ensures
            r == (match self.model() {
                JsonView::Bool(b) => Some(b),
                _ => None,
            }),
    {
        match self {
            Json::Bool(b) => Some(*b),
            _ => None,
        }
    }

    /// The items, where the value is an array.
    pub fn as_array(&self) -> (r: Option<&Vec<Json>>)
        ensures
            r is Some == self.model() is Array,
            r matches Some(items) ==> self.model() == JsonView::Array(items.deep_view()),
    {
        match self {
            Json::Array(items) => {
                proof {
                    assert(self.model()->Array_0 =~= items.deep_view());
                }
                Some(items)
            },
            _ => None,
        }
    }

    /// The text of the member called `name`, where there is one.
    pub fn get_str(&self, name: &str) -> (r: Option<&str>)
        ensures
            r.deep_view() == text_member(self.model(), name@),
    {
        match self.get(name) {
            Some(v) => v.as_str(),
            None => None,
        }
    }

    /// An object without members.
    pub fn empty() -> (r: Json)
        ensures
            r.model() == empty_object(),
    {
        broadcast use lemma_object_model;

        let members: TextMap<Json> = TextMap::new();
        proof {
            assert(members_model(members@) =~= Map::empty());
        }
        Json::Object(members)
    }

    /// A string.
    pub fn text(s: &str) -> (r: Json)
        ensures
            r.model() == JsonView::String(s@),
    {
        Json::String(s.to_owned())
    }
}

/// Puts a member into an object under construction.
pub fn put(members: &mut TextMap<Json>, name: &str, value: Json)
    ensures
        members_model(final(members)@) == members_model(old(members)@).insert(name@, value.model()),
{
    let ghost before = members@;
    members.insert(name.to_owned(), value);
    proof {
        assert(members_model(members@) =~= members_model(before).insert(name@, value.model()));
    }
}

/// The members with `name` added as an empty object, unless it is there already.
pub open spec fn with_fragment(members: Map<Seq<char>, JsonView>, name: Seq<char>) -> Map<
    Seq<char>,
    JsonView,
> {
    if members.contains_key(name) {
        members
    } else {
        members.insert(name, empty_object())
    }
}

/// The members with each of `names` added in turn.
pub open spec fn with_fragments(
    members: Map<Seq<char>, JsonView>,
    names: Seq<Seq<char>>,
) -> Map<Seq<char>, JsonView>
    decreases names.len(),
{
    if names.len() == 0 {
        members
    } else {
        with_fragment(with_fragments(members, names.drop_last()), names.last())
    }
}

/// Adding fragments leaves what is there as it is.
pub proof fn lemma_fragments_keep_members(
    members: Map<Seq<char>, JsonView>,
    names: Seq<Seq<char>>,
    k: Seq<char>,
)
    requires
        members.contains_key(k),
    ensures
        with_fragments(members, names).contains_key(k),
        with_fragments(members, names)[k] == members[k],
    decreases names.len(),
{
    if names.len() > 0 {
        lemma_fragments_keep_members(members, names.drop_last(), k);
    }
}

/// Adding fragments makes each of the names a member, an empty object unless it was one before;
/// what was there stays as it is, and nothing else comes.
pub proof fn law_fragments_are_added(
    members: Map<Seq<char>, JsonView>,
    names: Seq<Seq<char>>,
    k: Seq<char>,
)
    ensures
        with_fragments(members, names).contains_key(k) <==> members.contains_key(k)
            || names.contains(k),
        members.contains_key(k) ==> with_fragments(members, names)[k] == members[k],
        !members.contains_key(k) && names.contains(k) ==> with_fragments(members, names)[k]
            == JsonView::Object(Map::empty()),
    decreases names.len(),
{
    if names.len() > 0 {
        let first = names.drop_last();
        law_fragments_are_added(members, first, k);
        if first.contains(k) {
            assert(names[first.index_of(k)] == k);
        }
        if k == names.last() {
            assert(names[names.len() - 1] == k);
        }
        if names.contains(k) {
            let i = names.index_of(k);
            if i < first.len() {
                assert(first[i] == k);
            }
        }
    }
}

} // verus!
