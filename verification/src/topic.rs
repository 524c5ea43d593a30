//! thin-edge entity topic identifiers.
//!
//! See <https://thin-edge.github.io/thin-edge.io/references/mqtt-api/>. Only the `te/`
//! scheme exists here.
use crate::text::{self, ascii_lower, ascii_lowercase};
use vstd::prelude::*;

verus! {

/// Root of the thin-edge MQTT API.
pub const TE_ROOT: &'static str = "te";

/// The four-segment entity identifier of the default topic scheme.
#[derive(Debug, PartialEq, Eq, Hash)]
pub struct EntityTopicId(String);

impl View for EntityTopicId {
    type V = Seq<char>;

    closed spec fn view(&self) -> Seq<char> {
        self.0@
    }
}

impl Clone for EntityTopicId {
    fn clone(&self) -> (r: Self)
        ensures
            r@ == self@,
    {
        EntityTopicId(self.0.clone())
    }
}

pub open spec fn child_device_id(id: Seq<char>) -> Seq<char> {
    "device/"@ + id + "//"@
}

pub open spec fn main_service_id(name: Seq<char>) -> Seq<char> {
    "device/main/service/"@ + name
}

/// The topic on which an entity is registered.
pub open spec fn registration_topic_of(entity: Seq<char>) -> Seq<char> {
    "te"@ + "/"@ + entity
}

/// The topic of a channel below an entity.
pub open spec fn channel_topic_of(entity: Seq<char>, channel: Seq<char>) -> Seq<char> {
    "te"@ + "/"@ + entity + "/"@ + channel
}

impl EntityTopicId {
    /// The main device: `device/main//`.
    pub fn main_device() -> (r: Self)
        ensures
            r@ == "device/main//"@,
    {
        EntityTopicId("device/main//".to_owned())
    }

    /// A child device: `device/<id>//`. Its parent is set at registration, not in the
    /// topic.
    pub fn child_device(id: &str) -> (r: Self)
        ensures
            r@ == child_device_id(id@),
    {
        let mut out: String = text::concat("device/", id);
        out.append("//");
        EntityTopicId(out)
    }

    /// A service on the main device: `device/main/service/<name>`.
    pub fn main_service(name: &str) -> (r: Self)
        ensures
            r@ == main_service_id(name@),
    {
        EntityTopicId(text::concat("device/main/service/", name))
    }

    /// The entity's own registration topic.
    pub fn registration_topic(&self) -> (r: String)
        ensures
            r@ == registration_topic_of(self@),
    {
        let mut out: String = text::concat(TE_ROOT, "/");
        out.append(self.0.as_str());
        out
    }

    /// A channel below the entity, e.g. `m/flow` or `status/health`.
    pub fn channel_topic(&self, channel: &str) -> (r: String)
        ensures
            r@ == channel_topic_of(self@, channel@),
    {
        let mut out: String = self.registration_topic();
        out.append("/");
        out.append(channel);
        out
    }

    pub fn as_str(&self) -> (r: &str)
        ensures
            r@ == self@,
    {
        self.0.as_str()
    }

    /// Whether both are the same entity.
    pub fn same(&self, other: &EntityTopicId) -> (r: bool)
        ensures
            r == (self@ == other@),
    {
        text::same(self.0.as_str(), other.0.as_str())
    }
}

// Identifier segments --------------------------------------------------------------

/// A character that a topic identifier segment may hold.
pub open spec fn is_segment_char(c: char) -> bool {
    ('a' <= c && c <= 'z') || ('0' <= c && c <= '9') || c == '-' || c == '_'
}

/// A character as it goes into a segment: in lower case, and a dash for anything outside
/// the set.
pub open spec fn segment_char(c: char) -> char {
    if is_segment_char(c) {
        c
    } else if 'A' <= c && c <= 'Z' {
        ascii_lower(c)
    } else {
        '-'
    }
}

/// `s` with each run of dashes made one.
pub open spec fn collapsed(s: Seq<char>) -> Seq<char>
    decreases s.len(),
{
    if s.len() == 0 {
        s
    } else {
        let before = collapsed(s.drop_last());
        if s.last() == '-' && before.len() > 0 && before.last() == '-' {
            before
        } else {
            before.push(s.last())
        }
    }
}

pub open spec fn trim_start_dashes(s: Seq<char>) -> Seq<char>
    decreases s.len(),
{
    if s.len() > 0 && s[0] == '-' {
        trim_start_dashes(s.skip(1))
    } else {
        s
    }
}

pub open spec fn trim_end_dashes(s: Seq<char>) -> Seq<char>
    decreases s.len(),
{
    if s.len() > 0 && s.last() == '-' {
        trim_end_dashes(s.drop_last())
    } else {
        s
    }
}

/// The segment that a text becomes.
pub open spec fn sanitized(input: Seq<char>) -> Seq<char> {
    let trimmed = trim_end_dashes(
        trim_start_dashes(collapsed(input.map_values(|c: char| segment_char(c)))),
    );
    if trimmed.len() == 0 {
        "unnamed"@
    } else {
        trimmed
    }
}

fn to_segment_char(c: char) -> (r: char)
    ensures
        r == segment_char(c),
{
    if ('a' <= c && c <= 'z') || ('0' <= c && c <= '9') || c == '-' || c == '_' {
        c
    } else if 'A' <= c && c <= 'Z' {
        text::char_to_ascii_lower(c)
    } else {
        '-'
    }
}

/// Make an arbitrary string usable as a topic identifier segment.
///
/// A device type id is a Cumulocity managed object id when pulled but a file name when
/// pushed, and a topic identifier decides the device's identity in the cloud. Anything
/// outside a conservative set becomes `-`, and the result is lower-cased, so the same
/// input always yields the same entity across restarts. Runs of dashes are collapsed and
/// trimmed, so "Pump 01 // x" does not become "pump-01----x".
pub fn sanitize_id(input: &str) -> (r: String)
    ensures
        r@ == sanitized(input@),
{
    let v: Vec<char> = text::chars_of(input);
    let ghost mapped = input@.map_values(|c: char| segment_char(c));
    let mut out: Vec<char> = Vec::new();
    let mut i: usize = 0;
    proof {
        assert(mapped.take(0) =~= Seq::empty());
    }
    while i < v.len()
        invariant
            i <= v@.len(),
            v@ == input@,
            mapped == input@.map_values(|c: char| segment_char(c)),
            out@ == collapsed(mapped.take(i as int)),
        decreases v@.len() - i,
    {
        let c: char = to_segment_char(v[i]);
        proof {
            assert(mapped.take(i + 1).drop_last() =~= mapped.take(i as int));
            assert(mapped.take(i + 1).last() == c);
        }
        if !(c == '-' && out.len() > 0 && out[out.len() - 1] == '-') {
            out.push(c);
        }
        i = i + 1;
    }
    proof {
        assert(mapped.take(i as int) =~= mapped);
    }
    let mut from: usize = 0;
    proof {
        assert(out@.skip(0) =~= out@);
    }
    while from < out.len() && out[from] == '-'
        invariant
            from <= out@.len(),
            trim_start_dashes(out@.skip(from as int)) == trim_start_dashes(out@),
        decreases out@.len() - from,
    {
        proof {
            assert(out@.skip(from as int).skip(1) =~= out@.skip(from + 1));
        }
        from = from + 1;
    }
    let mut to: usize = out.len();
    let ghost start = out@.skip(from as int);
    proof {
        assert(out@.subrange(from as int, to as int) =~= start);
    }
    while to > from && out[to - 1] == '-'
        invariant
            from <= to <= out@.len(),
            trim_end_dashes(out@.subrange(from as int, to as int)) == trim_end_dashes(start),
        decreases to,
    {
        proof {
            assert(out@.subrange(from as int, to as int).drop_last() =~= out@.subrange(
                from as int,
                to - 1,
            ));
        }
        to = to - 1;
    }
    if from == to {
        "unnamed".to_owned()
    } else {
        text::text_of(&out, from, to)
    }
}

// Laws -----------------------------------------------------------------------------

/// A segment as sanitizing makes them: not empty, of allowed characters only, and with
/// dashes only singly and between other characters.
pub open spec fn is_clean_segment(s: Seq<char>) -> bool {
    &&& s.len() > 0
    &&& forall|i: int| 0 <= i < s.len() ==> is_segment_char(#[trigger] s[i])
    &&& forall|i: int| 0 <= i < s.len() - 1 ==> !(#[trigger] s[i] == '-' && s[i + 1] == '-')
    &&& s[0] != '-'
    &&& s.last() != '-'
}

proof fn lemma_collapsed(s: Seq<char>)
    requires
        forall|i: int| 0 <= i < s.len() ==> is_segment_char(#[trigger] s[i]),
    ensures
        forall|i: int| 0 <= i < collapsed(s).len() ==> is_segment_char(#[trigger] collapsed(s)[i]),
        forall|i: int|
            0 <= i < collapsed(s).len() - 1 ==> !(#[trigger] collapsed(s)[i] == '-' && collapsed(
                s,
            )[i + 1] == '-'),
    decreases s.len(),
{
    if s.len() > 0 {
        let before = collapsed(s.drop_last());
        let now = collapsed(s);
        lemma_collapsed(s.drop_last());
        assert(is_segment_char(s[s.len() - 1]));
        assert forall|i: int| 0 <= i < now.len() implies is_segment_char(#[trigger] now[i]) by {
            if i < before.len() {
                assert(now[i] == before[i]);
            }
        }
        assert forall|i: int| 0 <= i < now.len() - 1 implies !(#[trigger] now[i] == '-' && now[i
            + 1] == '-') by {
            assert(now[i] == before[i]);
            if i + 1 < before.len() {
                assert(now[i + 1] == before[i + 1]);
            }
        }
    }
}

proof fn lemma_trim_start(s: Seq<char>)
    ensures
        trim_start_dashes(s).len() <= s.len(),
        trim_start_dashes(s) == s.skip(s.len() - trim_start_dashes(s).len()),
        trim_start_dashes(s).len() > 0 ==> trim_start_dashes(s)[0] != '-',
    decreases s.len(),
{
    if s.len() > 0 && s[0] == '-' {
        lemma_trim_start(s.skip(1));
        let t = trim_start_dashes(s);
        assert(s.skip(1).skip(s.len() - 1 - t.len()) =~= s.skip(s.len() - t.len()));
    } else {
        assert(s.skip(0) =~= s);
    }
}

proof fn lemma_trim_end(s: Seq<char>)
    ensures
        trim_end_dashes(s).len() <= s.len(),
        trim_end_dashes(s) == s.take(trim_end_dashes(s).len() as int),
        trim_end_dashes(s).len() > 0 ==> trim_end_dashes(s).last() != '-',
    decreases s.len(),
{
    if s.len() > 0 && s.last() == '-' {
        lemma_trim_end(s.drop_last());
        let t = trim_end_dashes(s);
        assert(s.drop_last().take(t.len() as int) =~= s.take(t.len() as int));
    } else {
        assert(s.take(s.len() as int) =~= s);
    }
}

/// Whatever the input, the result is a clean segment: it holds no separator and no
/// wildcard of a topic, and is never empty.
pub proof fn law_sanitized_is_clean(input: Seq<char>)
    ensures
        is_clean_segment(sanitized(input)),
{
    let mapped = input.map_values(|c: char| segment_char(c));
    assert forall|i: int| 0 <= i < mapped.len() implies is_segment_char(#[trigger] mapped[i]) by {
        assert(mapped[i] == segment_char(input[i]));
    }
    lemma_collapsed(mapped);
    let a = collapsed(mapped);
    let b = trim_start_dashes(a);
    let c = trim_end_dashes(b);
    lemma_trim_start(a);
    lemma_trim_end(b);
    if c.len() > 0 {
        assert forall|i: int| 0 <= i < c.len() implies is_segment_char(#[trigger] c[i]) by {
            assert(c[i] == a[a.len() - b.len() + i]);
        }
        assert forall|i: int| 0 <= i < c.len() - 1 implies !(#[trigger] c[i] == '-' && c[i + 1]
            == '-') by {
            assert(c[i] == a[a.len() - b.len() + i]);
            assert(c[i + 1] == a[a.len() - b.len() + i + 1]);
        }
        assert(c[0] == b[0]);
    } else {
        reveal_strlit("unnamed");
    }
}

proof fn lemma_clean_is_collapsed(s: Seq<char>)
    requires
        forall|i: int| 0 <= i < s.len() - 1 ==> !(#[trigger] s[i] == '-' && s[i + 1] == '-'),
    ensures
        collapsed(s) == s,
    decreases s.len(),
{
    if s.len() > 0 {
        let before = s.drop_last();
        assert forall|i: int| 0 <= i < before.len() - 1 implies !(#[trigger] before[i] == '-'
            && before[i + 1] == '-') by {
            assert(s[i] == before[i]);
            assert(s[i + 1] == before[i + 1]);
        }
        lemma_clean_is_collapsed(before);
        if s.last() == '-' && before.len() > 0 {
            assert(s[s.len() - 2] == before.last());
            assert(s[s.len() - 2 + 1] == s.last());
        }
        assert(before.push(s.last()) =~= s);
    }
}

/// A clean segment is left as it is.
pub proof fn law_clean_segments_are_kept(s: Seq<char>)
    requires
        is_clean_segment(s),
    ensures
        sanitized(s) == s,
{
    let mapped = s.map_values(|c: char| segment_char(c));
    assert(mapped =~= s);
    lemma_clean_is_collapsed(s);
}

/// Sanitizing what was sanitized changes nothing, so an identity is stable however often
/// it is derived.
pub proof fn law_sanitizing_is_idempotent(input: Seq<char>)
    ensures
        sanitized(sanitized(input)) == sanitized(input),
{
    law_sanitized_is_clean(input);
    law_clean_segments_are_kept(sanitized(input));
}

/// Different entities are registered on different topics.
pub proof fn law_registration_topics_are_distinct(a: Seq<char>, b: Seq<char>)
    requires
        registration_topic_of(a) == registration_topic_of(b),
    ensures
        a == b,
{
    let root = "te"@ + "/"@;
    assert(registration_topic_of(a).skip(root.len() as int) =~= a);
    assert(registration_topic_of(b).skip(root.len() as int) =~= b);
}

/// Different ids are different child devices.
pub proof fn law_child_devices_are_distinct(a: Seq<char>, b: Seq<char>)
    requires
        child_device_id(a) == child_device_id(b),
    ensures
        a == b,
{
    let first = "device/"@.len() as int;
    let last = "//"@.len() as int;
    let x = child_device_id(a);
    assert(x.subrange(first, x.len() - last) =~= a);
    assert(child_device_id(b).subrange(first, child_device_id(b).len() - last) =~= b);
}

/// Below one entity, different channels have different topics.
pub proof fn law_channel_topics_are_distinct(entity: Seq<char>, a: Seq<char>, b: Seq<char>)
    requires
        channel_topic_of(entity, a) == channel_topic_of(entity, b),
    ensures
        a == b,
{
    let base = "te"@ + "/"@ + entity + "/"@;
    assert(channel_topic_of(entity, a).skip(base.len() as int) =~= a);
    assert(channel_topic_of(entity, b).skip(base.len() as int) =~= b);
}

/// A character that separates the words of an id: anything but ASCII letters, digits and `_`.
pub open spec fn is_separator(c: char) -> bool {
    !(('a' <= c && c <= 'z') || ('A' <= c && c <= 'Z') || ('0' <= c && c <= '9') || c == '_')
}

proof fn lemma_collapsed_dashes(x: Seq<char>, d: Seq<char>)
    requires
        collapsed(x) == x,
        x.len() > 0 ==> x.last() != '-',
        d.len() > 0,
        forall|i: int| 0 <= i < d.len() ==> #[trigger] d[i] == '-',
    ensures
        collapsed(x + d) == x.push('-'),
    decreases d.len(),
{
    let s = x + d;
    let less = d.drop_last();
    assert(s.drop_last() =~= x + less);
    assert(s.last() == d[d.len() - 1]);
    if less.len() == 0 {
        assert(x + less =~= x);
    } else {
        assert forall|i: int| 0 <= i < less.len() implies #[trigger] less[i] == '-' by {
            assert(d[i] == '-');
        }
        lemma_collapsed_dashes(x, less);
    }
}

proof fn lemma_collapsed_behind(y: Seq<char>, b: Seq<char>)
    requires
        b.len() > 0 ==> b[0] != '-',
        forall|i: int| 0 <= i < b.len() - 1 ==> !(#[trigger] b[i] == '-' && b[i + 1] == '-'),
    ensures
        collapsed(y + b) == collapsed(y) + b,
    decreases b.len(),
{
    let s = y + b;
    if b.len() == 0 {
        assert(s =~= y);
        assert(collapsed(y) + b =~= collapsed(y));
    } else {
        let less = b.drop_last();
        assert(s.drop_last() =~= y + less);
        assert forall|i: int| 0 <= i < less.len() - 1 implies !(#[trigger] less[i] == '-' && less[i
            + 1] == '-') by {
            assert(b[i] == less[i]);
            assert(b[i + 1] == less[i + 1]);
        }
        lemma_collapsed_behind(y, less);
        let before = collapsed(y) + less;
        if less.len() > 0 {
            assert(before.last() == less.last());
            assert(b[b.len() - 2] == less.last());
            assert(b[b.len() - 2 + 1] == b.last());
        }
        assert(before.push(b.last()) =~= collapsed(y) + b);
    }
}

/// The words of an id are joined by single dashes, whatever separates them; separators around an
/// id go, and an id of separators alone, or of nothing, becomes `unnamed`.
pub proof fn law_words_are_joined_by_dashes(a: Seq<char>, sep: Seq<char>, b: Seq<char>)
    requires
        is_clean_segment(a),
        is_clean_segment(b),
        sep.len() > 0,
        forall|i: int| 0 <= i < sep.len() ==> is_separator(#[trigger] sep[i]),
    ensures
        sanitized(a + sep + b) == a + seq!['-'] + b,
        sanitized(sep + a) == a,
        sanitized(a + sep) == a,
        sanitized(sep) == "unnamed"@,
        sanitized(Seq::empty()) == "unnamed"@,
{
    let f = |c: char| segment_char(c);
    let d = sep.map_values(f);
    let nothing = Seq::<char>::empty();
    assert(a.map_values(f) =~= a);
    assert(b.map_values(f) =~= b);
    assert forall|i: int| 0 <= i < d.len() implies #[trigger] d[i] == '-' by {
        assert(is_separator(sep[i]));
    }
    lemma_clean_is_collapsed(a);
    lemma_clean_is_collapsed(b);
    lemma_collapsed_dashes(a, d);
    lemma_collapsed_behind(a + d, b);
    let joined = a.push('-') + b;
    assert((a + sep + b).map_values(f) =~= a + d + b);
    assert(joined =~= a + seq!['-'] + b);
    assert(joined[0] == a[0]);
    assert(joined.last() == b.last());
    assert(trim_start_dashes(joined) == joined);
    assert(trim_end_dashes(joined) == joined);

    lemma_collapsed_dashes(nothing, d);
    assert(nothing + d =~= d);
    let dash = nothing.push('-');
    lemma_collapsed_behind(d, a);
    assert((sep + a).map_values(f) =~= d + a);
    let front = dash + a;
    assert(front[0] == '-');
    assert(front.skip(1) =~= a);
    assert(trim_start_dashes(a) == a);
    assert(trim_start_dashes(front) == a);
    assert(trim_end_dashes(a) == a);

    assert((a + sep).map_values(f) =~= a + d);
    let back = a.push('-');
    assert(back[0] == a[0]);
    assert(trim_start_dashes(back) == back);
    assert(back.drop_last() =~= a);
    assert(trim_end_dashes(back) == a);

    assert(dash[0] == '-');
    assert(dash.skip(1) =~= nothing);
    assert(trim_start_dashes(nothing) == nothing);
    assert(trim_start_dashes(dash) == nothing);
    assert(trim_end_dashes(nothing) == nothing);
    assert(nothing.map_values(f) =~= nothing);
    assert(collapsed(nothing) == nothing);
}

/// The case of an id does not matter.
pub proof fn law_the_case_of_an_id_does_not_matter(input: Seq<char>)
    ensures
        sanitized(ascii_lowercase(input)) == sanitized(input),
{
    let f = |c: char| segment_char(c);
    assert(ascii_lowercase(input).map_values(f) =~= input.map_values(f));
}

/// How entities and their channels are addressed: a child device by its id, a service of the main
/// device by its name, and everything below `te`.
pub proof fn law_entities_are_addressed_below_te(id: Seq<char>, channel: Seq<char>)
    ensures
        registration_topic_of(child_device_id(id)) == "te/device/"@ + id + "//"@,
        channel_topic_of(child_device_id(id), channel) == "te/device/"@ + id + "///"@ + channel,
        channel_topic_of(main_service_id(id), channel) == "te/device/main/service/"@ + id + "/"@
            + channel,
{
    reveal_strlit("te");
    reveal_strlit("/");
    reveal_strlit("//");
    reveal_strlit("///");
    reveal_strlit("device/");
    reveal_strlit("te/device/");
    reveal_strlit("device/main/service/");
    reveal_strlit("te/device/main/service/");
    assert(registration_topic_of(child_device_id(id)) =~= "te/device/"@ + id + "//"@);
    assert(channel_topic_of(child_device_id(id), channel) =~= "te/device/"@ + id + "///"@
        + channel);
    assert(channel_topic_of(main_service_id(id), channel) =~= "te/device/main/service/"@ + id
        + "/"@ + channel);
}

} // verus!
