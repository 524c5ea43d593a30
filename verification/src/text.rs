//! Text as a sequence of characters: searching, trimming, replacing, comparing
//! and the decimal notation of integers.
use vstd::prelude::*;

verus! {

/// `String::push`: the character comes behind what the string already held.
pub assume_specification[ std::string::String::push ](s: &mut std::string::String, c: char)
    ensures
        final(s)@ == old(s)@.push(c),
;

/// What `str::to_lowercase` makes of a text. Unicode's tables decide it.
pub uninterp spec fn unicode_lowercase(s: Seq<char>) -> Seq<char>;

/// `str::to_lowercase`. Of its result two things are claimed: it depends on the
/// text alone, and a text of ASCII characters only has its letters `A` to `Z`
/// replaced by `a` to `z`, the other characters being kept.
#[verifier::external_body]
pub(crate) fn to_lowercase(s: &str) -> (r: String)
    ensures
        r@ == unicode_lowercase(s@),
        (forall|i: int| 0 <= i < s@.len() ==> (s@[i] as u32) < 128) ==> r@ == ascii_lowercase(s@),
{
    s.to_lowercase()
}

/// How a text is written with quotation marks and escapes, as `{:?}` writes it.
pub uninterp spec fn debug_notation(s: Seq<char>) -> Seq<char>;

/// The `Debug` of `str`: the quoted and escaped text, which depends on the text alone.
#[verifier::external_body]
pub(crate) fn quoted(s: &str) -> (r: String)
    ensures
        r@ == debug_notation(s@),
{
    format!("{:?}", s)
}

// Characters -----------------------------------------------------------------

/// Whether a character has Unicode's White_Space property.
pub open spec fn is_whitespace(c: char) -> bool {
    let u = c as u32;
    ||| 0x9 <= u <= 0xd
    ||| u == 0x20
    ||| u == 0x85
    ||| u == 0xa0
    ||| u == 0x1680
    ||| 0x2000 <= u <= 0x200a
    ||| u == 0x2028
    ||| u == 0x2029
    ||| u == 0x202f
    ||| u == 0x205f
    ||| u == 0x3000
}

fn char_is_whitespace(c: char) -> (r: bool)
    ensures
        r == is_whitespace(c),
{
    let u: u32 = c as u32;
    (0x9 <= u && u <= 0xd) || u == 0x20 || u == 0x85 || u == 0xa0 || u == 0x1680 || (0x2000 <= u
        && u <= 0x200a) || u == 0x2028 || u == 0x2029 || u == 0x202f || u == 0x205f || u == 0x3000
}

pub open spec fn ascii_lower(c: char) -> char {
    if 'A' <= c && c <= 'Z' {
        ((c as u8) + 32) as char
    } else {
        c
    }
}

pub open spec fn ascii_lowercase(s: Seq<char>) -> Seq<char> {
    s.map_values(|c: char| ascii_lower(c))
}

/// Equality of texts in which `A` to `Z` count as `a` to `z`.
pub open spec fn same_ignoring_case(a: Seq<char>, b: Seq<char>) -> bool {
    ascii_lowercase(a) == ascii_lowercase(b)
}

pub fn char_to_ascii_lower(c: char) -> (r: char)
    ensures
        r == ascii_lower(c),
{
    if 'A' <= c && c <= 'Z' {
        ((c as u8) + 32) as char
    } else {
        c
    }
}

// Strings and their characters -------------------------------------------------

/// The characters of a text.
pub fn chars_of(s: &str) -> (r: Vec<char>)
    ensures
        r@ == s@,
{
    let mut out: Vec<char> = Vec::new();
    for c in it: s.chars()
        invariant
            it.seq() == s@,
            out@ == s@.take(it.index@),
    {
        proof {
            assert(s@.take(it.index@ + 1) =~= s@.take(it.index@).push(s@[it.index@]));
        }
        out.push(c);
    }
    proof {
        assert(s@.take(s@.len() as int) =~= s@);
    }
    out
}

/// The text made of the characters `v[from..to]`.
pub fn text_of(v: &Vec<char>, from: usize, to: usize) -> (r: String)
    requires
        from <= to <= v@.len(),
    ensures
        r@ == v@.subrange(from as int, to as int),
{
    let mut out: String = String::new();
    let mut i: usize = from;
    while i < to
        invariant
            from <= i <= to <= v@.len(),
            out@ == v@.subrange(from as int, i as int),
        decreases to - i,
    {
        out.push(v[i]);
        proof {
            assert(v@.subrange(from as int, i as int + 1) =~= v@.subrange(
                from as int,
                i as int,
            ).push(v@[i as int]));
        }
        i = i + 1;
    }
    out
}

/// Whether two texts are the same.
pub fn same(a: &str, b: &str) -> (r: bool)
    ensures
        r == (a@ == b@),
{
    let x: Vec<char> = chars_of(a);
    let y: Vec<char> = chars_of(b);
    if x.len() != y.len() {
        return false;
    }
    let mut i: usize = 0;
    while i < x.len()
        invariant
            i <= x@.len(),
            x@.len() == y@.len(),
            x@ == a@,
            y@ == b@,
            forall|j: int| 0 <= j < i ==> x@[j] == y@[j],
        decreases x@.len() - i,
    {
        if x[i] != y[i] {
            return false;
        }
        i = i + 1;
    }
    proof {
        assert(x@ =~= y@);
    }
    true
}

pub fn eq_ignore_ascii_case(a: &str, b: &str) -> (r: bool)
    ensures
        r == same_ignoring_case(a@, b@),
{
    let x: String = lowercase(a);
    let y: String = lowercase(b);
    same(x.as_str(), y.as_str())
}

/// The ASCII letters in lower case, everything else as it is.
pub fn lowercase(s: &str) -> (r: String)
    ensures
        r@ == ascii_lowercase(s@),
{
    let v: Vec<char> = chars_of(s);
    let mut out: String = String::new();
    let mut i: usize = 0;
    while i < v.len()
        invariant
            i <= v@.len(),
            v@ == s@,
            out@ == ascii_lowercase(s@).take(i as int),
        decreases v@.len() - i,
    {
        out.push(char_to_ascii_lower(v[i]));
        proof {
            assert(ascii_lowercase(s@).take(i + 1) =~= ascii_lowercase(s@).take(i as int).push(
                ascii_lower(v@[i as int]),
            ));
        }
        i = i + 1;
    }
    proof {
        assert(ascii_lowercase(s@).take(i as int) =~= ascii_lowercase(s@));
    }
    out
}

pub fn is_empty(s: &str) -> (r: bool)
    ensures
        r == (s@.len() == 0),
{
    s.unicode_len() == 0
}

/// `first` followed by `second`.
pub fn concat(first: &str, second: &str) -> (r: String)
    ensures
        r@ == first@ + second@,
{
    let mut out: String = first.to_owned();
    out.append(second);
    out
}

// Order ------------------------------------------------------------------------

/// `a` and `b` agree before `i`, and there `a` ends or has the smaller character.
pub open spec fn less_at(a: Seq<char>, b: Seq<char>, i: int) -> bool {
    &&& 0 <= i < b.len()
    &&& i <= a.len()
    &&& a.take(i) == b.take(i)
    &&& i == a.len() || a[i] < b[i]
}

/// The lexicographic order of texts by code point, which is also the order of
/// their UTF-8 bytes.
pub open spec fn text_lt(a: Seq<char>, b: Seq<char>) -> bool {
    exists|i: int| #[trigger] less_at(a, b, i)
}

pub proof fn lemma_text_lt_irreflexive(a: Seq<char>)
    ensures
        !text_lt(a, a),
{
}

proof fn lemma_take_agrees(a: Seq<char>, b: Seq<char>, i: int, j: int)
    requires
        0 <= j < i <= a.len(),
        i <= b.len(),
        a.take(i) == b.take(i),
    ensures
        a[j] == b[j],
        a.take(j) == b.take(j),
{
    assert(a.take(i)[j] == a[j]);
    assert(b.take(i)[j] == b[j]);
    assert(a.take(j) =~= a.take(i).take(j));
    assert(b.take(j) =~= b.take(i).take(j));
}

pub proof fn lemma_text_lt_transitive(a: Seq<char>, b: Seq<char>, c: Seq<char>)
    requires
        text_lt(a, b),
        text_lt(b, c),
    ensures
        text_lt(a, c),
{
    let i = choose|i: int| #[trigger] less_at(a, b, i);
    let j = choose|j: int| #[trigger] less_at(b, c, j);
    if i < j {
        lemma_take_agrees(b, c, j, i);
        assert(less_at(a, c, i));
    } else if j < i {
        lemma_take_agrees(a, b, i, j);
        assert(less_at(a, c, j));
    } else {
        assert(less_at(a, c, i));
    }
}

pub proof fn lemma_text_lt_asymmetric(a: Seq<char>, b: Seq<char>)
    requires
        text_lt(a, b),
    ensures
        !text_lt(b, a),
        a != b,
{
    if text_lt(b, a) {
        lemma_text_lt_transitive(a, b, a);
    }
}

/// Of two different texts one comes before the other.
pub proof fn lemma_text_lt_total(a: Seq<char>, b: Seq<char>)
    ensures
        a == b || text_lt(a, b) || text_lt(b, a),
{
    assert(a.take(0) =~= b.take(0));
    lemma_text_lt_total_from(a, b, 0);
}

proof fn lemma_text_lt_total_from(a: Seq<char>, b: Seq<char>, i: int)
    requires
        0 <= i <= a.len(),
        i <= b.len(),
        a.take(i) == b.take(i),
    ensures
        a == b || text_lt(a, b) || text_lt(b, a),
    decreases a.len() - i,
{
    if i == b.len() && i == a.len() {
        assert(a =~= a.take(i));
        assert(b =~= b.take(i));
    } else if i == a.len() {
        assert(less_at(a, b, i));
    } else if i == b.len() {
        assert(less_at(b, a, i));
    } else if a[i] < b[i] {
        assert(less_at(a, b, i));
    } else if b[i] < a[i] {
        assert(less_at(b, a, i));
    } else {
        assert(a.take(i + 1) =~= a.take(i).push(a[i]));
        assert(b.take(i + 1) =~= b.take(i).push(b[i]));
        lemma_text_lt_total_from(a, b, i + 1);
    }
}

/// Whether `a` comes before `b`.
pub fn less(a: &str, b: &str) -> (r: bool)
    ensures
        r == text_lt(a@, b@),
        !r ==> a@ == b@ || text_lt(b@, a@),
{
    let x: Vec<char> = chars_of(a);
    let y: Vec<char> = chars_of(b);
    let mut i: usize = 0;
    while i < x.len() && i < y.len() && x[i] == y[i]
        invariant
            i <= x@.len(),
            i <= y@.len(),
            x@ == a@,
            y@ == b@,
            x@.take(i as int) == y@.take(i as int),
        decreases x@.len() - i,
    {
        proof {
            assert(x@.take(i + 1) =~= x@.take(i as int).push(x@[i as int]));
            assert(y@.take(i + 1) =~= y@.take(i as int).push(y@[i as int]));
        }
        i = i + 1;
    }
    if i == y.len() {
        proof {
            assert(y@.take(i as int) =~= y@);
            if i == x.len() {
                assert(x@.take(i as int) =~= x@);
                lemma_text_lt_irreflexive(a@);
            } else {
                assert(less_at(b@, a@, i as int));
                lemma_text_lt_asymmetric(b@, a@);
            }
        }
        false
    } else if i == x.len() {
        proof {
            assert(less_at(a@, b@, i as int));
        }
        true
    } else if x[i] < y[i] {
        proof {
            assert(less_at(a@, b@, i as int));
        }
        true
    } else {
        proof {
            assert(less_at(b@, a@, i as int));
            lemma_text_lt_asymmetric(b@, a@);
        }
        false
    }
}

// Copies -----------------------------------------------------------------------

pub fn copy_texts(v: &Vec<String>) -> (r: Vec<String>)
    ensures
        r.deep_view() == v.deep_view(),
{
    let mut out: Vec<String> = Vec::new();
    let mut i: usize = 0;
    while i < v.len()
        invariant
            i <= v@.len(),
            out@.len() == i,
            forall|j: int| 0 <= j < i ==> #[trigger] out@[j]@ == v@[j]@,
        decreases v@.len() - i,
    {
        out.push(v[i].clone());
        i = i + 1;
    }
    proof {
        assert(out.deep_view() =~= v.deep_view());
    }
    out
}

pub fn copy_text_option(s: &Option<String>) -> (r: Option<String>)
    ensures
        r == *s,
{
    match s {
        Some(s) => Some(s.clone()),
        None => None,
    }
}

pub fn copy_texts_option(v: &Option<Vec<String>>) -> (r: Option<Vec<String>>)
    ensures
        r.deep_view() == v.deep_view(),
{
    match v {
        Some(v) => Some(copy_texts(v)),
        None => None,
    }
}

pub fn same_option(a: &Option<String>, b: &Option<String>) -> (r: bool)
    ensures
        r == (a.deep_view() == b.deep_view()),
{
    match (a, b) {
        (Some(a), Some(b)) => same(a.as_str(), b.as_str()),
        (None, None) => true,
        _ => false,
    }
}

pub fn same_texts(a: &Vec<String>, b: &Vec<String>) -> (r: bool)
    ensures
        r == (a.deep_view() == b.deep_view()),
{
    proof {
        assert(a.deep_view().len() == a@.len());
        assert(b.deep_view().len() == b@.len());
    }
    if a.len() != b.len() {
        return false;
    }
    let mut i: usize = 0;
    while i < a.len()
        invariant
            i <= a@.len(),
            a@.len() == b@.len(),
            forall|j: int| 0 <= j < i ==> a.deep_view()[j] == b.deep_view()[j],
        decreases a@.len() - i,
    {
        if !same(a[i].as_str(), b[i].as_str()) {
            proof {
                assert(a.deep_view()[i as int] != b.deep_view()[i as int]);
            }
            return false;
        }
        i = i + 1;
    }
    proof {
        assert(a.deep_view() =~= b.deep_view());
    }
    true
}

/// Whether `s` is one of `v`.
pub fn is_one_of(s: &str, v: &[String]) -> (r: bool)
    ensures
        r == (exists|i: int| 0 <= i < v@.len() && #[trigger] v@[i]@ == s@),
{
    let mut i: usize = 0;
    while i < v.len()
        invariant
            i <= v@.len(),
            forall|j: int| 0 <= j < i ==> #[trigger] v@[j]@ != s@,
        decreases v@.len() - i,
    {
        if same(v[i].as_str(), s) {
            return true;
        }
        i = i + 1;
    }
    false
}

// Trimming -----------------------------------------------------------------------

pub open spec fn trim_start(s: Seq<char>) -> Seq<char>
    decreases s.len(),
{
    if s.len() > 0 && is_whitespace(s[0]) {
        trim_start(s.drop_first())
    } else {
        s
    }
}

pub open spec fn trim_end(s: Seq<char>) -> Seq<char>
    decreases s.len(),
{
    if s.len() > 0 && is_whitespace(s.last()) {
        trim_end(s.drop_last())
    } else {
        s
    }
}

/// `s` without the white space at its two ends.
pub open spec fn trimmed(s: Seq<char>) -> Seq<char> {
    trim_end(trim_start(s))
}

/// Nothing but white space.
pub open spec fn is_blank(s: Seq<char>) -> bool {
    trimmed(s).len() == 0
}

pub fn trim(s: &str) -> (r: &str)
    ensures
        r@ == trimmed(s@),
{
    let v: Vec<char> = chars_of(s);
    let mut from: usize = 0;
    proof {
        assert(v@.subrange(0, v@.len() as int) =~= v@);
    }
    while from < v.len() && char_is_whitespace(v[from])
        invariant
            from <= v@.len(),
            v@ == s@,
            trim_start(v@.subrange(from as int, v@.len() as int)) == trim_start(s@),
        decreases v@.len() - from,
    {
        proof {
            assert(v@.subrange(from as int, v@.len() as int).drop_first() =~= v@.subrange(
                from + 1,
                v@.len() as int,
            ));
        }
        from = from + 1;
    }
    let mut to: usize = v.len();
    while to > from && char_is_whitespace(v[to - 1])
        invariant
            from <= to <= v@.len(),
            v@ == s@,
            trim_end(v@.subrange(from as int, to as int)) == trimmed(s@),
        decreases to,
    {
        proof {
            assert(v@.subrange(from as int, to as int).drop_last() =~= v@.subrange(
                from as int,
                to - 1,
            ));
        }
        to = to - 1;
    }
    s.substring_char(from, to)
}

pub fn blank(s: &str) -> (r: bool)
    ensures
        r == is_blank(s@),
{
    is_empty(trim(s))
}

// Searching ----------------------------------------------------------------------

/// `pattern` stands in `s` at position `at`.
pub open spec fn occurs_at(s: Seq<char>, pattern: Seq<char>, at: int) -> bool {
    &&& 0 <= at
    &&& at + pattern.len() <= s.len()
    &&& s.subrange(at, at + pattern.len()) == pattern
}

pub open spec fn starts_with(s: Seq<char>, prefix: Seq<char>) -> bool {
    occurs_at(s, prefix, 0)
}

pub fn occurs(s: &Vec<char>, pattern: &Vec<char>, at: usize) -> (r: bool)
    requires
        at <= s@.len(),
    ensures
        r == occurs_at(s@, pattern@, at as int),
{
    if s.len() - at < pattern.len() {
        return false;
    }
    let mut i: usize = 0;
    while i < pattern.len()
        invariant
            i <= pattern@.len(),
            at + pattern@.len() <= s.len(),
            forall|j: int| 0 <= j < i ==> s@[at + j] == pattern@[j],
        decreases pattern@.len() - i,
    {
        if s[at + i] != pattern[i] {
            proof {
                assert(s@.subrange(at as int, at + pattern@.len())[i as int] == s@[at + i]);
            }
            return false;
        }
        i = i + 1;
    }
    proof {
        assert(s@.subrange(at as int, at + pattern@.len()) =~= pattern@);
    }
    true
}

pub fn has_prefix(s: &str, prefix: &str) -> (r: bool)
    ensures
        r == starts_with(s@, prefix@),
{
    let v: Vec<char> = chars_of(s);
    let p: Vec<char> = chars_of(prefix);
    occurs(&v, &p, 0)
}

/// What follows the first `count` characters.
pub fn skip(s: &str, count: usize) -> (r: &str)
    requires
        count <= s@.len(),
    ensures
        r@ == s@.skip(count as int),
{
    let len: usize = s.unicode_len();
    proof {
        assert(s@.subrange(count as int, len as int) =~= s@.skip(count as int));
    }
    s.substring_char(count, len)
}

/// The texts between the separators `c`.
pub open spec fn pieces(s: Seq<char>, c: char) -> Seq<Seq<char>>
    decreases s.len(),
{
    let end = position_from(s, c, 0);
    if end < 0 || end >= s.len() {
        seq![s]
    } else {
        seq![s.take(end)] + pieces(s.skip(end + 1), c)
    }
}

/// Takes a text apart at each `c`.
pub fn split(s: &str, c: char) -> (r: Vec<String>)
    ensures
        r.deep_view() == pieces(s@, c),
{
    let v: Vec<char> = chars_of(s);
    let mut out: Vec<String> = Vec::new();
    let mut from: usize = 0;
    let mut i: usize = 0;
    proof {
        assert(v@.skip(0) =~= s@);
        assert(out.deep_view() + pieces(s@, c) =~= pieces(s@, c));
    }
    while i < v.len()
        invariant
            from <= i <= v@.len(),
            v@ == s@,
            position_from(v@.skip(from as int), c, i - from) == position_from(
                v@.skip(from as int),
                c,
                0,
            ),
            out.deep_view() + pieces(v@.skip(from as int), c) == pieces(s@, c),
        decreases v@.len() - i,
    {
        if v[i] == c {
            let ghost rest = v@.skip(from as int);
            let ghost before = out.deep_view();
            out.push(text_of(&v, from, i));
            proof {
                assert(rest[i - from] == c);
                assert(rest.take(i - from) =~= v@.subrange(from as int, i as int));
                assert(rest.skip(i - from + 1) =~= v@.skip(i + 1));
                assert(out.deep_view() =~= before.push(rest.take(i - from)));
                assert(before + (seq![rest.take(i - from)] + pieces(v@.skip(i + 1), c))
                    =~= out.deep_view() + pieces(v@.skip(i + 1), c));
            }
            from = i + 1;
        }
        i = i + 1;
    }
    let ghost before = out.deep_view();
    out.push(text_of(&v, from, v.len()));
    proof {
        assert(v@.skip(from as int) =~= v@.subrange(from as int, v@.len() as int));
        assert(out.deep_view() =~= before + seq![v@.skip(from as int)]);
    }
    out
}

/// The position of the first `c` at or behind `from`; the length of `s` where
/// there is none.
pub open spec fn position_from(s: Seq<char>, c: char, from: int) -> int
    decreases s.len() - from,
{
    if from < 0 || from >= s.len() {
        s.len() as int
    } else if s[from] == c {
        from
    } else {
        position_from(s, c, from + 1)
    }
}

// Replacing ----------------------------------------------------------------------

/// `s` with every occurrence of `pattern`, taken from the left and without
/// overlap, replaced by `with`.
pub open spec fn replaced(s: Seq<char>, pattern: Seq<char>, with: Seq<char>) -> Seq<char>
    decreases s.len(),
{
    if pattern.len() == 0 || s.len() == 0 {
        s
    } else if occurs_at(s, pattern, 0) {
        with + replaced(s.skip(pattern.len() as int), pattern, with)
    } else {
        seq![s[0]] + replaced(s.skip(1), pattern, with)
    }
}

pub fn replace(s: &str, pattern: &str, with: &str) -> (r: String)
    requires
        pattern@.len() > 0,
    ensures
        r@ == replaced(s@, pattern@, with@),
{
    let v: Vec<char> = chars_of(s);
    let p: Vec<char> = chars_of(pattern);
    let mut out: String = String::new();
    let mut i: usize = 0;
    proof {
        assert(s@.skip(0) =~= s@);
        assert(out@ + replaced(s@, pattern@, with@) =~= replaced(s@, pattern@, with@));
    }
    while i < v.len()
        invariant
            i <= v@.len(),
            v@ == s@,
            p@ == pattern@,
            p@.len() > 0,
            out@ + replaced(v@.skip(i as int), p@, with@) == replaced(s@, p@, with@),
        decreases v@.len() - i,
    {
        let ghost rest = v@.skip(i as int);
        proof {
            if i + p@.len() <= v@.len() {
                assert(rest.subrange(0, p@.len() as int) =~= v@.subrange(
                    i as int,
                    i + p@.len(),
                ));
            }
        }
        if occurs(&v, &p, i) {
            let ghost before = out@;
            out.append(with);
            proof {
                assert(rest.skip(p@.len() as int) =~= v@.skip(i + p@.len()));
                assert(before + (with@ + replaced(v@.skip(i + p@.len()), p@, with@)) =~= (before
                    + with@) + replaced(v@.skip(i + p@.len()), p@, with@));
            }
            i = i + p.len();
        } else {
            let ghost before = out@;
            out.push(v[i]);
            proof {
                assert(rest.skip(1) =~= v@.skip(i + 1));
                assert(before + (seq![rest[0]] + replaced(v@.skip(i + 1), p@, with@))
                    =~= before.push(v@[i as int]) + replaced(v@.skip(i + 1), p@, with@));
            }
            i = i + 1;
        }
    }
    proof {
        assert(v@.skip(i as int).len() == 0);
        assert(out@ + v@.skip(i as int) =~= out@);
    }
    out
}

// Decimal notation -----------------------------------------------------------------

pub open spec fn is_digit(c: char) -> bool {
    '0' <= c && c <= '9'
}

pub open spec fn digit_value(c: char) -> nat {
    (c as u32 - '0' as u32) as nat
}

pub open spec fn digit_char(d: nat) -> char {
    (('0' as u8) + d) as char
}

/// The decimal digits of `n`, without leading zeros.
pub open spec fn decimal(n: nat) -> Seq<char>
    decreases n,
{
    if n < 10 {
        seq![digit_char(n)]
    } else {
        decimal(n / 10).push(digit_char(n % 10))
    }
}

/// The decimal notation of an integer: a minus sign where it is negative, then
/// its digits.
pub open spec fn decimal_int(n: int) -> Seq<char> {
    if n < 0 {
        seq!['-'] + decimal((-n) as nat)
    } else {
        decimal(n as nat)
    }
}

pub open spec fn all_digits(s: Seq<char>) -> bool {
    forall|i: int| 0 <= i < s.len() ==> is_digit(#[trigger] s[i])
}

/// The number that a sequence of decimal digits denotes.
pub open spec fn digits_value(s: Seq<char>) -> nat
    decreases s.len(),
{
    if s.len() == 0 {
        0
    } else {
        digits_value(s.drop_last()) * 10 + digit_value(s.last())
    }
}

/// The number that a text denotes: an optional plus sign, then at least one
/// decimal digit, the value being at most `max`.
pub open spec fn parsed_unsigned(s: Seq<char>, max: nat) -> Option<nat> {
    let body = if s.len() > 0 && s[0] == '+' {
        s.skip(1)
    } else {
        s
    };
    if body.len() > 0 && all_digits(body) && digits_value(body) <= max {
        Some(digits_value(body))
    } else {
        None
    }
}

/// Where a prefix already denotes more than `max`, so does the whole.
proof fn lemma_digits_value_grows(s: Seq<char>, i: int)
    requires
        0 <= i <= s.len(),
    ensures
        digits_value(s.take(i)) <= digits_value(s),
    decreases s.len() - i,
{
    if i == s.len() {
        assert(s.take(i) =~= s);
    } else {
        lemma_digits_value_grows(s, i + 1);
        assert(s.take(i + 1).drop_last() =~= s.take(i));
    }
}

pub fn parse_unsigned(s: &str, max: u64) -> (r: Option<u64>)
    ensures
        r matches Some(n) ==> parsed_unsigned(s@, max as nat) == Some(n as nat),
        r is None ==> parsed_unsigned(s@, max as nat) is None,
{
    let v: Vec<char> = chars_of(s);
    let mut from: usize = 0;
    if v.len() > 0 && v[0] == '+' {
        from = 1;
    }
    let ghost body = if s@.len() > 0 && s@[0] == '+' {
        s@.skip(1)
    } else {
        s@
    };
    proof {
        assert(body =~= v@.skip(from as int));
    }
    if from == v.len() {
        return None;
    }
    let mut n: u64 = 0;
    let mut i: usize = from;
    proof {
        assert(body.take(0).len() == 0);
    }
    while i < v.len()
        invariant
            from <= i <= v@.len(),
            v@ == s@,
            body == v@.skip(from as int),
            n <= max,
            n == digits_value(body.take(i - from)),
            forall|j: int| 0 <= j < i - from ==> is_digit(#[trigger] body[j]),
            parsed_unsigned(s@, max as nat) is Some ==> all_digits(body) && digits_value(body)
                <= max,
        decreases v@.len() - i,
    {
        let c: char = v[i];
        proof {
            assert(body[i - from] == c);
            assert(body.take(i - from + 1).drop_last() =~= body.take(i - from));
            assert(body.take(i - from + 1).last() == c);
            lemma_digits_value_grows(body, i - from + 1);
        }
        if !('0' <= c && c <= '9') {
            return None;
        }
        let d: u64 = (c as u32 - '0' as u32) as u64;
        if d > max || n > max / 10 || n * 10 > max - d {
            return None;
        }
        n = n * 10 + d;
        i = i + 1;
    }
    proof {
        assert(body.take(i - from) =~= body);
    }
    Some(n)
}

proof fn lemma_digit(d: nat)
    requires
        d < 10,
    ensures
        is_digit(digit_char(d)),
        digit_value(digit_char(d)) == d,
{
}

/// The digits of a number denote it.
pub proof fn lemma_decimal(n: nat)
    ensures
        decimal(n).len() > 0,
        all_digits(decimal(n)),
        digits_value(decimal(n)) == n,
    decreases n,
{
    if n < 10 {
        lemma_digit(n);
        assert(decimal(n).drop_last().len() == 0);
        assert(digits_value(decimal(n).drop_last()) == 0);
    } else {
        lemma_decimal(n / 10);
        lemma_digit(n % 10);
        assert(decimal(n).drop_last() =~= decimal(n / 10));
    }
}

/// A number written in decimal is read back as itself.
pub proof fn lemma_parse_decimal(n: nat, max: nat)
    requires
        n <= max,
    ensures
        parsed_unsigned(decimal(n), max) == Some(n),
{
    lemma_decimal(n);
    assert(is_digit(decimal(n)[0]));
}

/// The decimal notation of `n`.
pub fn decimal_text(n: u128) -> (r: String)
    ensures
        r@ == decimal(n as nat),
    decreases n,
{
    let mut out: String = if n < 10 {
        String::new()
    } else {
        decimal_text(n / 10)
    };
    out.push(((n % 10) as u8 + '0' as u8) as char);
    proof {
        if n < 10 {
            assert(out@ =~= seq![digit_char(n as nat)]);
        }
    }
    out
}

/// The decimal notation of `n`, with its sign.
pub fn decimal_int_text(n: i64) -> (r: String)
    ensures
        r@ == decimal_int(n as int),
{
    if n >= 0 {
        decimal_text(n as u128)
    } else {
        let magnitude: u128 = (-(n as i128)) as u128;
        let digits: String = decimal_text(magnitude);
        proof {
            reveal_strlit("-");
            assert("-"@ =~= seq!['-']);
        }
        concat("-", digits.as_str())
    }
}

// Laws -----------------------------------------------------------------------------

proof fn lemma_trim_start_takes_white_space(s: Seq<char>)
    ensures
        trim_start(s).len() <= s.len(),
        trim_start(s) == s.skip(s.len() - trim_start(s).len()),
        forall|i: int| 0 <= i < s.len() - trim_start(s).len() ==> is_whitespace(#[trigger] s[i]),
        trim_start(s).len() > 0 ==> !is_whitespace(trim_start(s)[0]),
    decreases s.len(),
{
    if s.len() > 0 && is_whitespace(s[0]) {
        let rest = s.drop_first();
        lemma_trim_start_takes_white_space(rest);
        assert(trim_start(s) =~= s.skip(s.len() - trim_start(s).len()));
        assert forall|i: int| 0 <= i < s.len() - trim_start(s).len() implies is_whitespace(
            #[trigger] s[i],
        ) by {
            if i > 0 {
                assert(rest[i - 1] == s[i]);
            }
        }
    } else {
        assert(s.skip(0) =~= s);
    }
}

proof fn lemma_trim_end_takes_white_space(s: Seq<char>)
    ensures
        trim_end(s).len() <= s.len(),
        trim_end(s) == s.take(trim_end(s).len() as int),
        forall|i: int| trim_end(s).len() <= i < s.len() ==> is_whitespace(#[trigger] s[i]),
        trim_end(s).len() > 0 ==> !is_whitespace(trim_end(s).last()),
    decreases s.len(),
{
    if s.len() > 0 && is_whitespace(s.last()) {
        let rest = s.drop_last();
        lemma_trim_end_takes_white_space(rest);
        assert(trim_end(s) =~= s.take(trim_end(s).len() as int));
        assert forall|i: int| trim_end(s).len() <= i < s.len() implies is_whitespace(
            #[trigger] s[i],
        ) by {
            if i < rest.len() {
                assert(rest[i] == s[i]);
            }
        }
    } else {
        assert(s.take(s.len() as int) =~= s);
    }
}

/// Trimming takes the white space at the two ends and nothing else: what is left stands in the
/// text between white space, and neither begins nor ends with any.
pub proof fn law_trimming_takes_the_white_space_around(s: Seq<char>)
    ensures
        exists|a: int, b: int|
            0 <= a <= b <= s.len() && trimmed(s) == #[trigger] s.subrange(a, b) && (forall|i: int|
                0 <= i < a || b <= i < s.len() ==> is_whitespace(#[trigger] s[i])),
        trimmed(s).len() > 0 ==> !is_whitespace(trimmed(s)[0]) && !is_whitespace(trimmed(s).last()),
{
    let start = trim_start(s);
    lemma_trim_start_takes_white_space(s);
    lemma_trim_end_takes_white_space(start);
    let a = s.len() - start.len();
    let b = a + trimmed(s).len();
    assert(trimmed(s) =~= s.subrange(a, b));
    assert forall|i: int| 0 <= i < a || b <= i < s.len() implies is_whitespace(#[trigger] s[i]) by {
        if b <= i {
            assert(start[i - a] == s[i]);
        }
    }
    if trimmed(s).len() > 0 {
        assert(trimmed(s)[0] == start[0]);
    }
}

/// A text is blank exactly when it holds nothing but white space.
pub proof fn law_blank_texts_hold_white_space_alone(s: Seq<char>)
    ensures
        is_blank(s) <==> forall|i: int| 0 <= i < s.len() ==> is_whitespace(#[trigger] s[i]),
{
    law_trimming_takes_the_white_space_around(s);
    let (a, b) = choose|a: int, b: int|
        0 <= a <= b <= s.len() && trimmed(s) == #[trigger] s.subrange(a, b) && (forall|i: int|
            0 <= i < a || b <= i < s.len() ==> is_whitespace(#[trigger] s[i]));
    if trimmed(s).len() > 0 {
        assert(trimmed(s)[0] == s[a]);
    }
}

/// White space around a text that has none at its ends does not matter.
pub proof fn law_white_space_around_a_text_does_not_matter(
    before: Seq<char>,
    s: Seq<char>,
    after: Seq<char>,
)
    requires
        forall|i: int| 0 <= i < before.len() ==> is_whitespace(#[trigger] before[i]),
        forall|i: int| 0 <= i < after.len() ==> is_whitespace(#[trigger] after[i]),
        s.len() > 0,
        !is_whitespace(s[0]),
        !is_whitespace(s.last()),
    ensures
        trimmed(before + s + after) == s,
        !is_blank(before + s + after),
{
    let whole = before + s + after;
    law_trimming_takes_the_white_space_around(whole);
    let (a, b) = choose|a: int, b: int|
        0 <= a <= b <= whole.len() && trimmed(whole) == #[trigger] whole.subrange(a, b) && (forall|
            i: int,
        | 0 <= i < a || b <= i < whole.len() ==> is_whitespace(#[trigger] whole[i]));
    let first = before.len() as int;
    let last = before.len() + s.len() - 1;
    assert(whole[first] == s[0]);
    assert(whole[last] == s.last());
    if trimmed(whole).len() > 0 {
        assert(trimmed(whole)[0] == whole[a]);
        assert(trimmed(whole).last() == whole[b - 1]);
        if a < first {
            assert(whole[a] == before[a]);
        }
        if b > last + 1 {
            assert(whole[b - 1] == after[b - 1 - last - 1]);
        }
    }
    assert(trimmed(whole) =~= s);
}

/// The white space of texts: a blank, a tab, the line breaks, and what Unicode adds to them; no
/// other character of ASCII.
pub proof fn law_white_space_is_that_of_unicode(c: char)
    ensures
        (c as u32) < 128 ==> (is_whitespace(c) <==> c == ' ' || c == '\t' || c == '\n' || c == '\r'
            || c == '\u{b}' || c == '\u{c}'),
        (c as u32) >= 128 ==> (is_whitespace(c) <==> seq![
            '\u{85}',
            '\u{a0}',
            '\u{1680}',
            '\u{2000}',
            '\u{2001}',
            '\u{2002}',
            '\u{2003}',
            '\u{2004}',
            '\u{2005}',
            '\u{2006}',
            '\u{2007}',
            '\u{2008}',
            '\u{2009}',
            '\u{200a}',
            '\u{2028}',
            '\u{2029}',
            '\u{202f}',
            '\u{205f}',
            '\u{3000}',
        ].contains(c)),
{
    let others = seq![
        '\u{85}',
        '\u{a0}',
        '\u{1680}',
        '\u{2000}',
        '\u{2001}',
        '\u{2002}',
        '\u{2003}',
        '\u{2004}',
        '\u{2005}',
        '\u{2006}',
        '\u{2007}',
        '\u{2008}',
        '\u{2009}',
        '\u{200a}',
        '\u{2028}',
        '\u{2029}',
        '\u{202f}',
        '\u{205f}',
        '\u{3000}',
    ];
    if others.contains(c) {
        let i = others.index_of(c);
        assert(others[i] == c);
    }
    if (c as u32) >= 128 && is_whitespace(c) {
        if 0x2000 <= c as u32 <= 0x200a {
            assert(others[3 + (c as u32 - 0x2000)] == c);
        } else {
            assert(others[0] == '\u{85}' && others[1] == '\u{a0}' && others[2] == '\u{1680}');
            assert(others[14] == '\u{2028}' && others[15] == '\u{2029}' && others[16]
                == '\u{202f}' && others[17] == '\u{205f}' && others[18] == '\u{3000}');
        }
    }
}

/// Two characters are the same, or an upper-case letter of ASCII and its lower-case one.
pub open spec fn differ_in_case_at_most(a: char, b: char) -> bool {
    ||| a == b
    ||| 'A' <= a && a <= 'Z' && b as u32 == a as u32 + 32
    ||| 'A' <= b && b <= 'Z' && a as u32 == b as u32 + 32
}

/// Texts are the same but for their case when they are so character by character.
pub proof fn law_case_is_all_that_is_ignored(a: Seq<char>, b: Seq<char>)
    ensures
        same_ignoring_case(a, b) <==> a.len() == b.len() && forall|i: int|
            0 <= i < a.len() ==> differ_in_case_at_most(#[trigger] a[i], b[i]),
{
    let la = ascii_lowercase(a);
    let lb = ascii_lowercase(b);
    assert forall|c: char, d: char| #[trigger] ascii_lower(c) == #[trigger] ascii_lower(d) implies
        differ_in_case_at_most(c, d) by {}
    if la == lb {
        assert(la.len() == lb.len());
        assert forall|i: int| 0 <= i < a.len() implies differ_in_case_at_most(
            #[trigger] a[i],
            b[i],
        ) by {
            assert(la[i] == ascii_lower(a[i]));
            assert(lb[i] == ascii_lower(b[i]));
        }
    }
    if a.len() == b.len() && forall|i: int|
        0 <= i < a.len() ==> differ_in_case_at_most(#[trigger] a[i], b[i]) {
        assert forall|i: int| 0 <= i < la.len() implies la[i] == lb[i] by {
            assert(differ_in_case_at_most(a[i], b[i]));
        }
        assert(la =~= lb);
    }
}

/// Texts with a separator between them.
pub open spec fn joined(parts: Seq<Seq<char>>, c: char) -> Seq<char>
    decreases parts.len(),
{
    if parts.len() == 0 {
        Seq::empty()
    } else if parts.len() == 1 {
        parts[0]
    } else {
        parts[0] + seq![c] + joined(parts.skip(1), c)
    }
}

proof fn lemma_first_position(s: Seq<char>, c: char, from: int)
    requires
        0 <= from <= s.len(),
    ensures
        from <= position_from(s, c, from) <= s.len(),
        position_from(s, c, from) < s.len() ==> s[position_from(s, c, from)] == c,
        forall|i: int| from <= i < position_from(s, c, from) ==> #[trigger] s[i] != c,
    decreases s.len() - from,
{
    if from < s.len() && s[from] != c {
        lemma_first_position(s, c, from + 1);
    }
}

/// Taking a text apart at a separator loses nothing: the parts make up the text again, and none
/// holds the separator.
pub proof fn law_the_parts_make_up_the_text(s: Seq<char>, c: char)
    ensures
        joined(pieces(s, c), c) == s,
        pieces(s, c).len() > 0,
        forall|i: int| 0 <= i < pieces(s, c).len() ==> !(#[trigger] pieces(s, c)[i]).contains(c),
    decreases s.len(),
{
    let end = position_from(s, c, 0);
    lemma_first_position(s, c, 0);
    if end < s.len() {
        let rest = s.skip(end + 1);
        law_the_parts_make_up_the_text(rest, c);
        let p = pieces(s, c);
        assert(p.skip(1) =~= pieces(rest, c));
        assert(p[0] == s.take(end));
        assert(joined(p, c) =~= s.take(end) + seq![c] + rest);
        assert(s =~= s.take(end) + seq![c] + rest);
        assert forall|i: int| 0 <= i < p.len() implies !(#[trigger] p[i]).contains(c) by {
            if i > 0 {
                assert(p[i] == pieces(rest, c)[i - 1]);
            }
        }
    } else {
        assert(pieces(s, c)[0] == s);
    }
}

/// Nothing is replaced in a text that does not hold the pattern.
pub proof fn law_only_the_pattern_is_replaced(s: Seq<char>, pattern: Seq<char>, with: Seq<char>)
    requires
        pattern.len() > 0,
        forall|i: int| 0 <= i <= s.len() ==> !#[trigger] occurs_at(s, pattern, i),
    ensures
        replaced(s, pattern, with) == s,
    decreases s.len(),
{
    if s.len() > 0 {
        let rest = s.skip(1);
        assert(!occurs_at(s, pattern, 0));
        assert forall|i: int| 0 <= i <= rest.len() implies !#[trigger] occurs_at(
            rest,
            pattern,
            i,
        ) by {
            assert(!occurs_at(s, pattern, i + 1));
            if occurs_at(rest, pattern, i) {
                assert(s.subrange(i + 1, i + 1 + pattern.len()) =~= rest.subrange(
                    i,
                    i + pattern.len(),
                ));
            }
        }
        law_only_the_pattern_is_replaced(rest, pattern, with);
        assert(seq![s[0]] + rest =~= s);
    }
}

/// The first pattern in a text is replaced, what stands before it stays, and what follows is
/// treated alike.
pub proof fn law_the_pattern_is_replaced(
    before: Seq<char>,
    after: Seq<char>,
    pattern: Seq<char>,
    with: Seq<char>,
)
    requires
        pattern.len() > 0,
        forall|i: int|
            0 <= i < before.len() ==> !#[trigger] occurs_at(before + pattern + after, pattern, i),
    ensures
        replaced(before + pattern + after, pattern, with) == before + with + replaced(
            after,
            pattern,
            with,
        ),
    decreases before.len(),
{
    let s = before + pattern + after;
    if before.len() == 0 {
        assert(s.subrange(0, pattern.len() as int) =~= pattern);
        assert(s.skip(pattern.len() as int) =~= after);
        assert(before + with + replaced(after, pattern, with) =~= with + replaced(
            after,
            pattern,
            with,
        ));
    } else {
        let rest = before.skip(1);
        let t = rest + pattern + after;
        assert(s.skip(1) =~= t);
        assert(!occurs_at(s, pattern, 0));
        assert forall|i: int| 0 <= i < rest.len() implies !#[trigger] occurs_at(t, pattern, i) by {
            assert(!occurs_at(s, pattern, i + 1));
            if occurs_at(t, pattern, i) {
                assert(s.subrange(i + 1, i + 1 + pattern.len()) =~= t.subrange(
                    i,
                    i + pattern.len(),
                ));
            }
        }
        law_the_pattern_is_replaced(rest, after, pattern, with);
        assert(s[0] == before[0]);
        assert(seq![before[0]] + (rest + with + replaced(after, pattern, with)) =~= before + with
            + replaced(after, pattern, with));
    }
}

/// A pattern stands in a text where the text is something before it, the pattern and something
/// behind it.
pub proof fn law_a_pattern_stands_where_it_is_written(
    before: Seq<char>,
    pattern: Seq<char>,
    after: Seq<char>,
)
    ensures
        occurs_at(before + pattern + after, pattern, before.len() as int),
        starts_with(pattern + after, pattern),
{
    let s = before + pattern + after;
    assert(s.subrange(before.len() as int, (before.len() + pattern.len()) as int) =~= pattern);
    assert((pattern + after).subrange(0, pattern.len() as int) =~= pattern);
}

/// A text starts with another exactly when it is that text and something behind it.
pub proof fn law_a_prefix_stands_in_front(s: Seq<char>, prefix: Seq<char>)
    ensures
        starts_with(s, prefix) <==> prefix.len() <= s.len() && s == prefix + s.skip(
            prefix.len() as int,
        ),
{
    if prefix.len() <= s.len() && s == prefix + s.skip(prefix.len() as int) {
        assert(s.subrange(0, prefix.len() as int) =~= prefix);
    }
    if starts_with(s, prefix) {
        assert(s =~= s.subrange(0, prefix.len() as int) + s.skip(prefix.len() as int));
    }
}

/// In the order of texts a text comes before its extensions, and where two texts first differ the
/// smaller character decides.
pub proof fn law_texts_are_ordered_by_their_first_difference(
    same: Seq<char>,
    a: Seq<char>,
    b: Seq<char>,
)
    requires
        b.len() > 0,
        a.len() == 0 || a[0] < b[0],
    ensures
        text_lt(same + a, same + b),
{
    let i = same.len() as int;
    let x = same + a;
    let y = same + b;
    assert(x.take(i) =~= y.take(i));
    assert(less_at(x, y, i));
}

/// The digits of a number have no zero in front, and a negative number has a minus sign in front
/// of the digits of its opposite.
pub proof fn law_numbers_are_written_in_decimal(n: nat)
    ensures
        digits_value(decimal(n)) == n,
        all_digits(decimal(n)),
        n > 0 ==> decimal(n)[0] != '0',
        n == 0 ==> decimal(n) == seq!['0'],
        decimal_int(n as int) == decimal(n),
        n > 0 ==> decimal_int(-n) == seq!['-'] + decimal(n),
    decreases n,
{
    lemma_decimal(n);
    if n < 10 {
        lemma_digit(n);
    } else {
        law_numbers_are_written_in_decimal(n / 10);
        lemma_decimal(n / 10);
        assert(decimal(n)[0] == decimal(n / 10)[0]);
    }
}

/// A text denotes a number where it is made of decimal digits, with a plus sign in front or not,
/// zeros in front or not; a digit more makes the number ten times as large and adds the digit.
pub proof fn law_digits_denote_numbers(s: Seq<char>, d: nat, max: nat)
    requires
        d < 10,
    ensures
        digits_value(Seq::empty()) == 0,
        digits_value(s.push(digit_char(d))) == 10 * digits_value(s) + d,
        s.len() > 0 && s[0] != '+' ==> parsed_unsigned(seq!['+'] + s, max) == parsed_unsigned(
            s,
            max,
        ),
        parsed_unsigned(s, max) matches Some(n) ==> n <= max && s.len() > 0 && (forall|i: int|
            0 < i < s.len() ==> '0' <= #[trigger] s[i] && s[i] <= '9') && (s[0] == '+' || '0'
            <= s[0] && s[0] <= '9'),
        s.len() > 0 && all_digits(s) && digits_value(s) <= max ==> parsed_unsigned(s, max) == Some(
            digits_value(s),
        ),
{
    lemma_digit(d);
    let t = s.push(digit_char(d));
    assert(t.drop_last() =~= s);
    assert((seq!['+'] + s).skip(1) =~= s);
    if parsed_unsigned(s, max) is Some {
        let body = if s[0] == '+' {
            s.skip(1)
        } else {
            s
        };
        assert forall|i: int| 0 < i < s.len() implies '0' <= #[trigger] s[i] && s[i] <= '9' by {
            if s[0] == '+' {
                assert(body[i - 1] == s[i]);
                assert(is_digit(body[i - 1]));
            } else {
                assert(is_digit(body[i]));
            }
        }
        if s[0] != '+' {
            assert(is_digit(body[0]));
        }
    }
}

} // verus!
