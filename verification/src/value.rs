//! The values that the notation can write down, and their mathematical model.

use vstd::prelude::*;

verus! {

/// The width and signedness of an integer.
#[derive(Clone, Copy, PartialEq, Eq, Debug, Structural)]
pub enum IntKind {
    U8,
    U16,
    U32,
    U64,
    Usize,
    I8,
    I16,
    I32,
    I64,
    Isize,
}

impl IntKind {
    /// The least number of this kind.
    pub open spec fn min(self) -> int {
        match self {
            IntKind::U8 | IntKind::U16 | IntKind::U32 | IntKind::U64 | IntKind::Usize => 0,
            IntKind::I8 => i8::MIN as int,
            IntKind::I16 => i16::MIN as int,
            IntKind::I32 => i32::MIN as int,
            IntKind::I64 => i64::MIN as int,
            IntKind::Isize => isize::MIN as int,
        }
    }

    /// The greatest number of this kind.
    pub open spec fn max(self) -> int {
        match self {
            IntKind::U8 => u8::MAX as int,
            IntKind::U16 => u16::MAX as int,
            IntKind::U32 => u32::MAX as int,
            IntKind::U64 => u64::MAX as int,
            IntKind::Usize => usize::MAX as int,
            IntKind::I8 => i8::MAX as int,
            IntKind::I16 => i16::MAX as int,
            IntKind::I32 => i32::MAX as int,
            IntKind::I64 => i64::MAX as int,
            IntKind::Isize => isize::MAX as int,
        }
    }

    /// Whether `n` is a number of this kind.
    pub open spec fn holds(self, n: int) -> bool {
        self.min() <= n <= self.max()
    }
}

/// The width of a floating-point number.
#[derive(Clone, Copy, PartialEq, Eq, Debug, Structural)]
pub enum FloatKind {
    F32,
    F64,
}

/// A value of the notation.
///
/// A floating-point number is held as its decimal text, which is what the
/// notation shows of it.
#[derive(PartialEq, Eq, Debug)]
pub enum Value {
    Unit,
    Bool(bool),
    U8(u8),
    U16(u16),
    U32(u32),
    U64(u64),
    Usize(usize),
    I8(i8),
    I16(i16),
    I32(i32),
    I64(i64),
    Isize(isize),
    F32(String),
    F64(String),
    Char(char),
    Str(String),
    /// An optional value: absent, or the value itself.
    Optional(Option<Box<Value>>),
    /// An ordered list of values.
    Sequence(Vec<Value>),
    /// An ordered list of entries, each a key and a value.
    Mapping(Vec<(Value, Value)>),
    /// A variant of an enum: the enum's name, the variant's name and what the
    /// variant carries.
    Variant(String, String, Payload),
}

/// What a variant of an enum carries.
#[derive(PartialEq, Eq, Debug)]
pub enum Payload {
    Unit,
    Sequence(Vec<Value>),
    Mapping(Vec<(Value, Value)>),
}

/// The mathematical model of a [`Value`].
pub enum ValueView {
    Unit,
    Bool(bool),
    Int(IntKind, int),
    Float(FloatKind, Seq<char>),
    Char(char),
    Str(Seq<char>),
    Optional(Option<Box<ValueView>>),
    Sequence(Seq<ValueView>),
    Mapping(Seq<(ValueView, ValueView)>),
    Variant(Seq<char>, Seq<char>, PayloadView),
}

/// The mathematical model of a [`Payload`].
pub enum PayloadView {
    Unit,
    Sequence(Seq<ValueView>),
    Mapping(Seq<(ValueView, ValueView)>),
}

/// The models of a list of values, in order.
pub open spec fn models(items: Seq<Value>) -> Seq<ValueView> {
    Seq::new(items.len(), |i: int| items[i].model())
}

/// The models of a list of entries, in order.
pub open spec fn entry_models(entries: Seq<(Value, Value)>) -> Seq<(ValueView, ValueView)> {
    Seq::new(entries.len(), |i: int| (entries[i].0.model(), entries[i].1.model()))
}

impl Value {
    /// The model of this value.
    pub open spec fn model(&self) -> ValueView
        decreases self,
    {
        match self {
            Value::Unit => ValueView::Unit,
            Value::Bool(b) => ValueView::Bool(*b),
            Value::U8(n) => ValueView::Int(IntKind::U8, *n as int),
            Value::U16(n) => ValueView::Int(IntKind::U16, *n as int),
            Value::U32(n) => ValueView::Int(IntKind::U32, *n as int),
            Value::U64(n) => ValueView::Int(IntKind::U64, *n as int),
            Value::Usize(n) => ValueView::Int(IntKind::Usize, *n as int),
            Value::I8(n) => ValueView::Int(IntKind::I8, *n as int),
            Value::I16(n) => ValueView::Int(IntKind::I16, *n as int),
            Value::I32(n) => ValueView::Int(IntKind::I32, *n as int),
            Value::I64(n) => ValueView::Int(IntKind::I64, *n as int),
            Value::Isize(n) => ValueView::Int(IntKind::Isize, *n as int),
            Value::F32(text) => ValueView::Float(FloatKind::F32, text@),
            Value::F64(text) => ValueView::Float(FloatKind::F64, text@),
            Value::Char(c) => ValueView::Char(*c),
            Value::Str(text) => ValueView::Str(text@),
            Value::Optional(None) => ValueView::Optional(None),
            Value::Optional(Some(inner)) => ValueView::Optional(Some(Box::new(inner.model()))),
            Value::Sequence(items) => ValueView::Sequence(
                Seq::new(
                    items@.len(),
                    |i: int|
                        if 0 <= i < items@.len() {
                            items@[i].model()
                        } else {
                            ValueView::Unit
                        },
                ),
            ),
            Value::Mapping(entries) => ValueView::Mapping(
                Seq::new(
                    entries@.len(),
                    |i: int|
                        if 0 <= i < entries@.len() {
                            (entries@[i].0.model(), entries@[i].1.model())
                        } else {
                            (ValueView::Unit, ValueView::Unit)
                        },
                ),
            ),
            Value::Variant(name, variant, payload) => ValueView::Variant(
                name@,
                variant@,
                match payload {
                    Payload::Unit => PayloadView::Unit,
                    Payload::Sequence(items) => PayloadView::Sequence(
                        Seq::new(
                            items@.len(),
                            |i: int|
                                if 0 <= i < items@.len() {
                                    items@[i].model()
                                } else {
                                    ValueView::Unit
                                },
                        ),
                    ),
                    Payload::Mapping(entries) => PayloadView::Mapping(
                        Seq::new(
                            entries@.len(),
                            |i: int|
                                if 0 <= i < entries@.len() {
                                    (entries@[i].0.model(), entries@[i].1.model())
                                } else {
                                    (ValueView::Unit, ValueView::Unit)
                                },
                        ),
                    ),
                },
            ),
        }
    }

    /// The model of a sequence is the list of its items' models, and likewise
    /// for a mapping and for what a variant carries.
    pub proof fn lemma_model_of_lists(&self)
        ensures
            self matches Value::Sequence(items) ==> self.model() == ValueView::Sequence(
                models(items@),
            ),
            self matches Value::Mapping(entries) ==> self.model() == ValueView::Mapping(
                entry_models(entries@),
            ),
            self matches Value::Variant(name, variant, payload) ==> self.model()
                == ValueView::Variant(name@, variant@, payload.model()),
            self matches Value::Variant(name, variant, Payload::Unit) ==> self.model()
                == ValueView::Variant(name@, variant@, PayloadView::Unit),
            self matches Value::Variant(name, variant, Payload::Sequence(items)) ==> self.model()
                == ValueView::Variant(name@, variant@, PayloadView::Sequence(models(items@))),
            self matches Value::Variant(name, variant, Payload::Mapping(entries)) ==> self.model()
                == ValueView::Variant(name@, variant@, PayloadView::Mapping(entry_models(entries@))),
    {
        match self {
            Value::Sequence(items) => {
                assert(self.model()->Sequence_0 =~= models(items@));
            },
            Value::Mapping(entries) => {
                assert(self.model()->Mapping_0 =~= entry_models(entries@));
            },
            Value::Variant(_, _, Payload::Sequence(items)) => {
                assert(self.model()->Variant_2->Sequence_0 =~= models(items@));
            },
            Value::Variant(_, _, Payload::Mapping(entries)) => {
                assert(self.model()->Variant_2->Mapping_0 =~= entry_models(entries@));
            },
            _ => {},
        }
    }
}

impl Payload {
    /// The model of what a variant carries.
    pub open spec fn model(&self) -> PayloadView {
        match self {
            Payload::Unit => PayloadView::Unit,
            Payload::Sequence(items) => PayloadView::Sequence(models(items@)),
            Payload::Mapping(entries) => PayloadView::Mapping(entry_models(entries@)),
        }
    }
}

impl View for Payload {
    type V = PayloadView;

    open spec fn view(&self) -> PayloadView {
        self.model()
    }
}

impl View for Value {
    type V = ValueView;

    open spec fn view(&self) -> ValueView {
        self.model()
    }
}

} // verus!
