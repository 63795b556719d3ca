use crate::annotation::{int_of, seq_of, size_of, str_of, strings_of, Annotation};
use vstd::prelude::*;

verus! {

/// The kind of a primitive type.
#[derive(Clone, Copy, Debug, PartialEq, Eq)]
pub enum PrimitiveKind {
    Bool,
    Int,
    Num,
    Str,
    Uri,
}

/// The constraints of an integer schema.
#[derive(Debug, PartialEq, Eq)]
pub struct PrimInteger {
    pub minimum: Option<i64>,
    pub maximum: Option<i64>,
    pub multiple_of: Option<i64>,
    pub example: Option<i64>,
}

/// The constraints of a string schema.
#[derive(Debug, PartialEq, Eq)]
pub struct PrimString {
    pub pattern: Option<String>,
    pub enumeration: Vec<String>,
    pub format: Option<String>,
    pub example: Option<String>,
    pub min_length: Option<u64>,
    pub max_length: Option<u64>,
}

/// The schema of a primitive type. The bounds of a number schema are
/// floating-point values, which its users read from the annotation.
#[derive(Debug, PartialEq, Eq)]
pub enum PrimitiveSchema {
    Boolean,
    Integer(PrimInteger),
    Number,
    String(PrimString),
    /// A URI with no path and no parameters, and an example.
    Uri(Option<String>),
}

/// The integer of the property `name`, if it is one.
pub open spec fn int_prop(ann: Annotation, name: Seq<char>) -> Option<int> {
    match ann.prop(name) {
        Some(v) => int_of(v),
        None => None,
    }
}

/// The text of the property `name`, if it is a string.
pub open spec fn str_prop(ann: Annotation, name: Seq<char>) -> Option<Seq<char>> {
    match ann.prop(name) {
        Some(v) => str_of(v),
        None => None,
    }
}

/// The size of the property `name`, if it is a non-negative integer.
pub open spec fn size_prop(ann: Annotation, name: Seq<char>) -> Option<u64> {
    match ann.prop(name) {
        Some(v) => size_of(v),
        None => None,
    }
}

/// The texts of the property `name`, if it is a sequence; none otherwise.
pub open spec fn enum_prop(ann: Annotation, name: Seq<char>) -> Seq<Seq<char>> {
    match ann.prop(name) {
        Some(v) => match seq_of(v) {
            Some(s) => strings_of(s),
            None => Seq::empty(),
        },
        None => Seq::empty(),
    }
}

pub open spec fn opt_int(o: Option<i64>) -> Option<int> {
    match o {
        Some(n) => Some(n as int),
        None => None,
    }
}

pub open spec fn opt_text(o: Option<String>) -> Option<Seq<char>> {
    match o {
        Some(t) => Some(t@),
        None => None,
    }
}

fn int_field(ann: &Annotation, name: &str) -> (r: Option<i64>)
    ensures
        opt_int(r) == int_prop(*ann, name@),
{
    ann.get_int(name)
}

fn str_field(ann: &Annotation, name: &str) -> (r: Option<String>)
    ensures
        opt_text(r) == str_prop(*ann, name@),
{
    ann.get_string(name)
}

fn size_field(ann: &Annotation, name: &str) -> (r: Option<u64>)
    ensures
        r == size_prop(*ann, name@),
{
    ann.get_size(name)
}

/// Evaluates a primitive type to its schema, with the constraints that its
/// annotation gives: `minimum`, `maximum`, `multipleOf` and `example` for an
/// integer; `pattern`, `enum` (none when it is not a sequence), `format`,
/// `example`, `minLength` and `maxLength` for a string; `example` for a URI.
pub fn eval_primitive(kind: PrimitiveKind, ann: &Annotation) -> (r: PrimitiveSchema)
    ensures
        match kind {
            PrimitiveKind::Bool => r is Boolean,
            PrimitiveKind::Num => r is Number,
            PrimitiveKind::Int => r matches PrimitiveSchema::Integer(p) && opt_int(p.minimum)
                == int_prop(*ann, "minimum"@) && opt_int(p.maximum) == int_prop(*ann, "maximum"@)
                && opt_int(p.multiple_of) == int_prop(*ann, "multipleOf"@) && opt_int(p.example)
                == int_prop(*ann, "example"@),
            PrimitiveKind::Str => r matches PrimitiveSchema::String(p) && opt_text(p.pattern)
                == str_prop(*ann, "pattern"@) && p.enumeration@.map_values(|x: String| x@)
                == enum_prop(*ann, "enum"@) && opt_text(p.format) == str_prop(*ann, "format"@)
                && opt_text(p.example) == str_prop(*ann, "example"@) && p.min_length == size_prop(
                *ann,
                "minLength"@,
            ) && p.max_length == size_prop(*ann, "maxLength"@),
            PrimitiveKind::Uri => r matches PrimitiveSchema::Uri(x) && opt_text(x) == str_prop(
                *ann,
                "example"@,
            ),
        },
{
    match kind {
        PrimitiveKind::Bool => PrimitiveSchema::Boolean,
        PrimitiveKind::Int => PrimitiveSchema::Integer(
            PrimInteger {
                minimum: int_field(ann, "minimum"),
                maximum: int_field(ann, "maximum"),
                multiple_of: int_field(ann, "multipleOf"),
                example: int_field(ann, "example"),
            },
        ),
        PrimitiveKind::Num => PrimitiveSchema::Number,
        PrimitiveKind::Str => {
            let enumeration = match ann.get_enum("enum") {
                Some(v) => v,
                None => Vec::new(),
            };
            assert(enumeration@.map_values(|x: String| x@) =~= enum_prop(*ann, "enum"@));
            PrimitiveSchema::String(
                PrimString {
                    pattern: str_field(ann, "pattern"),
                    enumeration,
                    format: str_field(ann, "format"),
                    example: str_field(ann, "example"),
                    min_length: size_field(ann, "minLength"),
                    max_length: size_field(ann, "maxLength"),
                },
            )
        },
        PrimitiveKind::Uri => PrimitiveSchema::Uri(str_field(ann, "example")),
    }
}

} // verus!
