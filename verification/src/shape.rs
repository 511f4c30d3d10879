//! The shapes that a reader can ask for: what the host declares of the value
//! that it expects.

use vstd::prelude::*;
use vstd::utf8::*;
use crate::text::bytes_equal;
use crate::value::{FloatKind, IntKind};

verus! {

/// The shape of a value: its kind, and for an enum and a record the names that
/// the host declares.
pub enum Shape {
    Unit,
    Bool,
    Int(IntKind),
    Float(FloatKind),
    Char,
    Str,
    /// An optional value of the given shape.
    Optional(Box<Shape>),
    /// A sequence whose elements have the given shape.
    Sequence(Box<Shape>),
    /// A mapping whose entries have the given shape.
    Mapping(Box<EntryShape>),
    /// An enum of the given name, with its variants.
    Enum(&'static str, Vec<VariantShape>),
    /// A record, with its fields.
    Record(Vec<FieldShape>),
}

/// A declared variant of an enum.
pub struct VariantShape {
    pub name: &'static str,
    pub payload: PayloadShape,
}

/// What a declared variant carries.
pub enum PayloadShape {
    Unit,
    /// A sequence whose elements have the given shape.
    Sequence(Shape),
    /// A mapping whose entries have the given shape.
    Mapping(EntryShape),
}

/// The shape of the entries of a mapping.
pub struct EntryShape {
    pub key: Shape,
    pub value: Shape,
}

/// A declared field of a record.
pub struct FieldShape {
    pub name: &'static str,
    pub shape: Shape,
}

/// The index of the first variant whose name has the given bytes, or the number of variants
/// where none has it.
pub open spec fn variant_index(variants: Seq<VariantShape>, name: Seq<u8>) -> int
    decreases variants.len(),
{
    if variants.len() == 0 {
        0
    } else if encode_utf8(variants[0].name@) == name {
        0
    } else {
        1 + variant_index(variants.drop_first(), name)
    }
}

/// The index of the first field whose name has the given bytes, or the number of fields
/// where none has it.
pub open spec fn field_index(fields: Seq<FieldShape>, name: Seq<u8>) -> int
    decreases fields.len(),
{
    if fields.len() == 0 {
        0
    } else if encode_utf8(fields[0].name@) == name {
        0
    } else {
        1 + field_index(fields.drop_first(), name)
    }
}

/// Finds the first variant whose name has the bytes `name`.
pub fn find_variant(variants: &Vec<VariantShape>, name: &[u8]) -> (index: usize)
    ensures
        index == variant_index(variants@, name@),
        index <= variants@.len(),
{
    let mut i: usize = 0;
    assert(variants@.subrange(0, variants@.len() as int) =~= variants@);
    while i < variants.len()
        invariant
            i <= variants@.len(),
            variant_index(variants@, name@) == i + variant_index(
                variants@.subrange(i as int, variants@.len() as int),
                name@,
            ),
        decreases variants.len() - i,
    {
        let ghost rest = variants@.subrange(i as int, variants@.len() as int);
        assert(rest[0] == variants@[i as int]);
        assert(rest.drop_first() =~= variants@.subrange(i + 1, variants@.len() as int));
        if bytes_equal(variants[i].name.as_bytes(), name) {
            return i;
        }
        i += 1;
    }
    i
}

/// Finds the first field whose name has the bytes `name`.
pub fn find_field(fields: &Vec<FieldShape>, name: &[u8]) -> (index: usize)
    ensures
        index == field_index(fields@, name@),
        index <= fields@.len(),
{
    let mut i: usize = 0;
    assert(fields@.subrange(0, fields@.len() as int) =~= fields@);
    while i < fields.len()
        invariant
            i <= fields@.len(),
            field_index(fields@, name@) == i + field_index(
                fields@.subrange(i as int, fields@.len() as int),
                name@,
            ),
        decreases fields.len() - i,
    {
        let ghost rest = fields@.subrange(i as int, fields@.len() as int);
        assert(rest[0] == fields@[i as int]);
        assert(rest.drop_first() =~= fields@.subrange(i + 1, fields@.len() as int));
        if bytes_equal(fields[i].name.as_bytes(), name) {
            return i;
        }
        i += 1;
    }
    i
}

impl Shape {
    /// The shape of an optional value of the shape `inner`.
    pub fn optional(inner: Shape) -> (shape: Shape)
        ensures
            shape == Shape::Optional(Box::new(inner)),
    {
        Shape::Optional(Box::new(inner))
    }

    /// The shape of a sequence of elements of the shape `elem`.
    pub fn sequence(elem: Shape) -> (shape: Shape)
        ensures
            shape == Shape::Sequence(Box::new(elem)),
    {
        Shape::Sequence(Box::new(elem))
    }

    /// The shape of a mapping from keys of the shape `key` to values of the
    /// shape `value`.
    pub fn mapping(key: Shape, value: Shape) -> (shape: Shape)
        ensures
            shape == Shape::Mapping(Box::new(EntryShape { key: key, value: value })),
    {
        Shape::Mapping(Box::new(EntryShape { key: key, value: value }))
    }
}

} // verus!
