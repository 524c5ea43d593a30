//! What a value of a node means: a number, an alarm flag, a text, JSON.
use crate::json::{Json, JsonView};
use crate::text::{self, ascii_lowercase, decimal_int, same_ignoring_case};
use crate::ua::{
    is_finite, is_good, is_positive, rfc3339, status_is_good, to_rfc3339, DataValue, Double, Number,
    Variant,
};
use vstd::prelude::*;

verus! {

/// A data value that must not be published: a status that is not good, or no value.
pub open spec fn is_bad_value(value: DataValue) -> bool {
    ||| (value.status matches Some(status) && !is_good(status))
    ||| value.value is None
    ||| value.value == Some(Variant::Empty)
}

/// A data value that must not be published: bad status code, or no value at all.
pub fn is_bad(value: &DataValue) -> (r: bool)
    ensures
        r == is_bad_value(*value),
{
    let status_ok: bool = match value.status {
        Some(status) => status_is_good(status),
        None => true,
    };
    !status_ok || match &value.value {
        None => true,
        Some(Variant::Empty) => true,
        _ => false,
    }
}

/// A double, where it is finite.
pub open spec fn finite_number(d: Double) -> Option<Number> {
    if is_finite(d) {
        Some(Number::Real(d))
    } else {
        None
    }
}

/// The number that a variant holds: booleans are one and zero, and a text counts
/// as the number that it denotes.
pub open spec fn number_of(variant: Variant) -> Option<Number> {
    match variant {
        Variant::Boolean(b) => Some(
            Number::Integer(
                if b {
                    1
                } else {
                    0
                },
            ),
        ),
        Variant::SByte(v) => Some(Number::Integer(v as i128)),
        Variant::Byte(v) => Some(Number::Integer(v as i128)),
        Variant::Int16(v) => Some(Number::Integer(v as i128)),
        Variant::UInt16(v) => Some(Number::Integer(v as i128)),
        Variant::Int32(v) => Some(Number::Integer(v as i128)),
        Variant::UInt32(v) => Some(Number::Integer(v as i128)),
        Variant::Int64(v) => Some(Number::Integer(v as i128)),
        Variant::UInt64(v) => Some(Number::Integer(v as i128)),
        Variant::Real { value, .. } => finite_number(value),
        Variant::String { number: Some(d), .. } => finite_number(d),
        _ => None,
    }
}

/// Read a variant as a measurement value.
///
/// `None` means "not a number, or a number that cannot be represented" — the caller
/// drops the series rather than publishing a broken measurement. Booleans become 1/0,
/// so that boolean nodes mapped as measurements work.
pub fn as_number(variant: &Variant) -> (r: Option<Number>)
    ensures
        r == number_of(*variant),
{
    match variant {
        Variant::Boolean(b) => Some(
            Number::Integer(
                if *b {
                    1
                } else {
                    0
                },
            ),
        ),
        Variant::SByte(v) => Some(Number::Integer(*v as i128)),
        Variant::Byte(v) => Some(Number::Integer(*v as i128)),
        Variant::Int16(v) => Some(Number::Integer(*v as i128)),
        Variant::UInt16(v) => Some(Number::Integer(*v as i128)),
        Variant::Int32(v) => Some(Number::Integer(*v as i128)),
        Variant::UInt32(v) => Some(Number::Integer(*v as i128)),
        Variant::Int64(v) => Some(Number::Integer(*v as i128)),
        Variant::UInt64(v) => Some(Number::Integer(*v as i128)),
        Variant::Real { value, .. } => if value.finite() {
            Some(Number::Real(*value))
        } else {
            None
        },
        Variant::String { number: Some(d), .. } => if d.finite() {
            Some(Number::Real(*d))
        } else {
            None
        },
        _ => None,
    }
}

/// The alarm flag that a variant holds: a text is the word `true` or not, and a
/// number is above zero or not.
pub open spec fn flag_of(variant: Variant) -> Option<bool> {
    match variant {
        Variant::Boolean(b) => Some(b),
        Variant::String { text, .. } => Some(same_ignoring_case(text@, "true"@)),
        _ => match number_of(variant) {
            Some(Number::Integer(n)) => Some(n > 0),
            Some(Number::Real(d)) => Some(is_positive(d)),
            None => None,
        },
    }
}

/// Read a variant as an alarm active flag: numbers are active above zero, and a
/// string is active when it says `true`.
pub fn as_bool(variant: &Variant) -> (r: Option<bool>)
    ensures
        r == flag_of(*variant),
{
    match variant {
        Variant::Boolean(b) => Some(*b),
        Variant::String { text, .. } => Some(text::eq_ignore_ascii_case(text.as_str(), "true")),
        other => match as_number(other) {
            Some(Number::Integer(n)) => Some(n > 0),
            Some(Number::Real(d)) => Some(d.positive()),
            None => None,
        },
    }
}

/// The text that a variant is rendered as.
pub open spec fn text_of_variant(variant: Variant) -> Seq<char> {
    match variant {
        Variant::Empty => Seq::empty(),
        Variant::Boolean(b) => if b {
            "true"@
        } else {
            "false"@
        },
        Variant::SByte(v) => decimal_int(v as int),
        Variant::Byte(v) => decimal_int(v as int),
        Variant::Int16(v) => decimal_int(v as int),
        Variant::UInt16(v) => decimal_int(v as int),
        Variant::Int32(v) => decimal_int(v as int),
        Variant::UInt32(v) => decimal_int(v as int),
        Variant::Int64(v) => decimal_int(v as int),
        Variant::UInt64(v) => decimal_int(v as int),
        Variant::Real { notation, .. } => notation@,
        Variant::String { text, .. } => text@,
        Variant::DateTime(t) => rfc3339(t.ticks),
        Variant::LocalizedText(s) => s@,
        Variant::Other(s) => s@,
    }
}

/// Render a variant for `${value}` substitution in event text.
pub fn as_text(variant: &Variant) -> (r: String)
    ensures
        r@ == text_of_variant(*variant),
{
    match variant {
        Variant::Empty => String::new(),
        Variant::Boolean(b) => if *b {
            "true".to_owned()
        } else {
            "false".to_owned()
        },
        Variant::SByte(v) => text::decimal_int_text(*v as i64),
        Variant::Byte(v) => text::decimal_int_text(*v as i64),
        Variant::Int16(v) => text::decimal_int_text(*v as i64),
        Variant::UInt16(v) => text::decimal_int_text(*v as i64),
        Variant::Int32(v) => text::decimal_int_text(*v as i64),
        Variant::UInt32(v) => text::decimal_int_text(*v as i64),
        Variant::Int64(v) => text::decimal_int_text(*v),
        Variant::UInt64(v) => text::decimal_text(*v as u128),
        Variant::Real { notation, .. } => notation.clone(),
        Variant::String { text, .. } => text.clone(),
        Variant::DateTime(t) => to_rfc3339(*t),
        Variant::LocalizedText(s) => s.clone(),
        Variant::Other(s) => s.clone(),
    }
}

/// The JSON that a variant is rendered as: numbers as such, where they are finite,
/// and anything that JSON has no form for by its text.
pub open spec fn json_of_variant(variant: Variant) -> JsonView {
    match variant {
        Variant::Empty => JsonView::Null,
        Variant::Boolean(b) => JsonView::Bool(b),
        Variant::String { text, .. } => JsonView::String(text@),
        _ => match number_of(variant) {
            Some(n) => JsonView::Number(n),
            None => JsonView::String(text_of_variant(variant)),
        },
    }
}

/// Render a variant as JSON, for the `c8y_DataValue` fragment on events.
pub fn as_json(variant: &Variant) -> (r: Json)
    ensures
        r.model() == json_of_variant(*variant),
{
    match variant {
        Variant::Empty => Json::Null,
        Variant::Boolean(b) => Json::Bool(*b),
        Variant::String { text, .. } => Json::String(text.clone()),
        other => match as_number(other) {
            Some(n) => Json::Number(n),
            None => Json::String(as_text(other)),
        },
    }
}

// Laws -----------------------------------------------------------------------------

/// A value is bad exactly when its status says so, by the two highest bits, or there is none.
pub proof fn law_values_are_bad_by_their_status(value: DataValue)
    ensures
        value.status matches Some(status) && status / 0x4000_0000 != 0 ==> is_bad_value(value),
        value.value is None || value.value == Some(Variant::Empty) ==> is_bad_value(value),
        (value.status is None || value.status->Some_0 / 0x4000_0000 == 0) && value.value is Some
            && value.value != Some(Variant::Empty) ==> !is_bad_value(value),
{
}

/// The integer that a variant holds, where it holds one.
pub open spec fn integer_in(variant: Variant) -> Option<int> {
    match variant {
        Variant::SByte(v) => Some(v as int),
        Variant::Byte(v) => Some(v as int),
        Variant::Int16(v) => Some(v as int),
        Variant::UInt16(v) => Some(v as int),
        Variant::Int32(v) => Some(v as int),
        Variant::UInt32(v) => Some(v as int),
        Variant::Int64(v) => Some(v as int),
        Variant::UInt64(v) => Some(v as int),
        _ => None,
    }
}

/// Integers of every width count as the numbers that they are: as a number, in text, in JSON, and
/// as a flag that is up above zero.
pub proof fn law_integers_are_what_they_are(variant: Variant)
    requires
        integer_in(variant) is Some,
    ensures
        ({
            let n = integer_in(variant)->Some_0;
            &&& number_of(variant) == Some(Number::Integer(n as i128))
            &&& text_of_variant(variant) == decimal_int(n)
            &&& json_of_variant(variant) == JsonView::Number(Number::Integer(n as i128))
            &&& flag_of(variant) == Some(n > 0)
        }),
{
}

/// A flag is one and zero as a number, its word in text, itself in JSON, and a flag.
pub proof fn law_flags_are_one_and_zero(b: bool)
    ensures
        number_of(Variant::Boolean(b)) == Some(
            Number::Integer(
                if b {
                    1
                } else {
                    0
                },
            ),
        ),
        text_of_variant(Variant::Boolean(true)) == "true"@,
        text_of_variant(Variant::Boolean(false)) == "false"@,
        json_of_variant(Variant::Boolean(b)) == JsonView::Bool(b),
        flag_of(Variant::Boolean(b)) == Some(b),
{
}

/// A double is a number where it is finite; as a flag it is up above zero. It is written as its
/// notation says, and stands in JSON as a number, or by its notation where JSON has none for it.
pub proof fn law_doubles_are_numbers_where_finite(variant: Variant)
    requires
        variant is Real,
    ensures
        is_finite(variant->Real_value) ==> number_of(variant) == Some(
            Number::Real(variant->Real_value),
        ) && json_of_variant(variant) == JsonView::Number(Number::Real(variant->Real_value))
            && flag_of(variant) == Some(is_positive(variant->Real_value)),
        !is_finite(variant->Real_value) ==> number_of(variant) is None && flag_of(variant) is None
            && json_of_variant(variant) == JsonView::String(variant->Real_notation@),
        text_of_variant(variant) == variant->Real_notation@,
{
}

/// A double is finite unless its exponent is all ones, and above zero when it is finite, has no
/// sign and is not all zeros.
pub proof fn law_bits_tell_finite_doubles(d: Double)
    ensures
        is_finite(d) <==> (d.bits as int / 0x10_0000_0000_0000) % 2048 != 2047,
        is_positive(d) <==> is_finite(d) && 0 < d.bits < 0x8000_0000_0000_0000,
{
}

/// A text is the number that it denotes, where it denotes one; as a flag it is up exactly when it
/// is the word `true`, in any case; in text and JSON it is itself.
pub proof fn law_texts_are_read(variant: Variant)
    requires
        variant is String,
    ensures
        flag_of(variant) == Some(ascii_lowercase(variant->String_text@) == "true"@),
        variant->String_number is None ==> number_of(variant) is None,
        variant->String_number matches Some(d) && is_finite(d) ==> number_of(variant) == Some(
            Number::Real(variant->String_number->Some_0),
        ),
        variant->String_number matches Some(d) && !is_finite(d) ==> number_of(variant) is None,
        text_of_variant(variant) == variant->String_text@,
        json_of_variant(variant) == JsonView::String(variant->String_text@),
{
    reveal_strlit("true");
    assert(ascii_lowercase("true"@) =~= "true"@);
}

/// What is neither a number nor a text has no number and no flag, and stands in JSON by its text.
pub proof fn law_other_values_are_told_by_their_text(variant: Variant)
    ensures
        variant matches Variant::DateTime(t) ==> text_of_variant(variant) == rfc3339(t.ticks),
        variant matches Variant::LocalizedText(s) ==> text_of_variant(variant) == s@,
        variant matches Variant::Other(s) ==> text_of_variant(variant) == s@,
        variant is Empty ==> text_of_variant(variant) == Seq::<char>::empty() && json_of_variant(
            variant,
        ) == JsonView::Null,
        variant is DateTime || variant is LocalizedText || variant is Other ==> number_of(
            variant,
        ) is None && flag_of(variant) is None && json_of_variant(variant) == JsonView::String(
            text_of_variant(variant),
        ),
{
}

} // verus!
