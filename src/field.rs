//! Field model: how each declared field is stored and which wire encoding it
//! uses, decided once from the schema.
use vstd::prelude::*;
use crate::error::ProtobufError;
use crate::wire_format::WireType;

verus! {

/// Declared type of a field.
#[derive(Debug, Clone, Copy, PartialEq, Eq, Structural)]
pub enum FieldType {
    Double,
    Float,
    Int64,
    Uint64,
    Int32,
    Fixed64,
    Fixed32,
    Bool,
    String,
    Group,
    Message,
    Bytes,
    Uint32,
    Enum,
    Sfixed32,
    Sfixed64,
    Sint32,
    Sint64,
}

/// Cardinality label of a field.
#[derive(Debug, Clone, Copy, PartialEq, Eq, Structural)]
pub enum Label {
    Optional,
    Required,
    Repeated,
}

/// Schema dialect, which decides presence of singular scalars.
#[derive(Debug, Clone, Copy, PartialEq, Eq, Structural)]
pub enum Syntax {
    Proto2,
    Proto3,
}

/// Wire type under which values of a type travel.
pub open spec fn spec_wire_type_for(t: FieldType) -> WireType {
    match t {
        FieldType::Double | FieldType::Fixed64 | FieldType::Sfixed64 => WireType::Fixed64,
        FieldType::Float | FieldType::Fixed32 | FieldType::Sfixed32 => WireType::Fixed32,
        FieldType::String | FieldType::Bytes | FieldType::Message => WireType::LengthDelimited,
        FieldType::Group => WireType::StartGroup,
        _ => WireType::Varint,
    }
}

/// Wire type under which values of a type travel.
pub fn wire_type_for(t: FieldType) -> (r: WireType)
    ensures
        r == spec_wire_type_for(t),
{
    match t {
        FieldType::Double | FieldType::Fixed64 | FieldType::Sfixed64 => WireType::Fixed64,
        FieldType::Float | FieldType::Fixed32 | FieldType::Sfixed32 => WireType::Fixed32,
        FieldType::String | FieldType::Bytes | FieldType::Message => WireType::LengthDelimited,
        FieldType::Group => WireType::StartGroup,
        _ => WireType::Varint,
    }
}

/// Values of the type live inline, without heap storage.
pub open spec fn spec_type_is_copy(t: FieldType) -> bool {
    !(t == FieldType::Message || t == FieldType::String || t == FieldType::Bytes)
}

/// Values of the type live inline, without heap storage.
pub fn type_is_copy(t: FieldType) -> (r: bool)
    ensures
        r == spec_type_is_copy(t),
{
    match t {
        FieldType::Message | FieldType::String | FieldType::Bytes => false,
        _ => true,
    }
}

/// The type is a signed integer in zigzag encoding.
pub fn is_s_varint(t: FieldType) -> (r: bool)
    ensures
        r == (t == FieldType::Sint32 || t == FieldType::Sint64),
{
    match t {
        FieldType::Sint32 | FieldType::Sint64 => true,
        _ => false,
    }
}

/// Encoded size of one value of the type, where it is fixed.
pub open spec fn spec_field_type_size(t: FieldType) -> Option<u32> {
    if t == FieldType::Bool {
        Some(1)
    } else if spec_wire_type_for(t) == WireType::Fixed32 {
        Some(4)
    } else if spec_wire_type_for(t) == WireType::Fixed64 {
        Some(8)
    } else {
        None
    }
}

/// Encoded size of one value of the type, where it is fixed.
pub fn field_type_size(t: FieldType) -> (r: Option<u32>)
    ensures
        r == spec_field_type_size(t),
{
    if t == FieldType::Bool {
        Some(1)
    } else {
        match wire_type_for(t) {
            WireType::Fixed32 => Some(4),
            WireType::Fixed64 => Some(8),
            _ => None,
        }
    }
}

/// How an optional field is held.
#[derive(Debug, Clone, Copy, PartialEq, Eq, Structural)]
pub enum OptionKind {
    /// A plain optional value.
    Option,
    /// An optional message.
    MessageField,
}

/// Presence policy of a singular field.
#[derive(Debug, Clone, Copy, PartialEq, Eq, Structural)]
pub enum SingularFieldFlag {
    /// Presence is tracked: proto2 fields and message fields.
    WithFlag { required: bool, option_kind: OptionKind },
    /// Presence is implicit: a proto3 scalar is absent when it holds its default.
    WithoutFlag,
}

impl SingularFieldFlag {
    /// The field is required.
    pub fn is_required(&self) -> (r: bool)
        ensures
            r == (*self matches SingularFieldFlag::WithFlag { required, .. } && required),
    {
        match *self {
            SingularFieldFlag::WithFlag { required, .. } => required,
            SingularFieldFlag::WithoutFlag => false,
        }
    }
}

/// Storage of a repeated field.
#[derive(Debug, Clone, Copy, PartialEq, Eq, Structural)]
pub enum RepeatedFieldKind {
    Vec,
}

/// Cardinality of a field and what follows from it.
#[derive(Debug, Clone, Copy, PartialEq, Eq, Structural)]
pub enum FieldKind {
    Singular(SingularFieldFlag),
    Repeated { packed: bool },
    MapField,
    /// Member of the oneof with the given index.
    Oneof(u32),
}

/// A field as the schema declares it.
#[derive(Debug, Clone, Copy, PartialEq, Eq, Structural)]
pub struct FieldDeclaration {
    pub number: u32,
    pub label: Label,
    pub field_type: FieldType,
    /// Index of the oneof the field belongs to.
    pub oneof_index: Option<u32>,
    /// The field was declared with the `packed` option.
    pub packed: bool,
    /// The field is a map (a repeated field of generated entry messages).
    pub is_map: bool,
}

/// The cardinality and presence policy of a declared field.
pub open spec fn spec_field_kind(f: FieldDeclaration, syntax: Syntax) -> FieldKind {
    if f.is_map {
        FieldKind::MapField
    } else if f.label == Label::Repeated {
        FieldKind::Repeated { packed: f.packed }
    } else if f.oneof_index is Some {
        FieldKind::Oneof(f.oneof_index.unwrap())
    } else if syntax == Syntax::Proto3 && f.field_type != FieldType::Message {
        FieldKind::Singular(SingularFieldFlag::WithoutFlag)
    } else {
        FieldKind::Singular(
            SingularFieldFlag::WithFlag {
                required: f.label == Label::Required,
                option_kind: if f.field_type == FieldType::Message {
                    OptionKind::MessageField
                } else {
                    OptionKind::Option
                },
            },
        )
    }
}

/// How one field is stored and coded.
#[derive(Debug, Clone, Copy, PartialEq, Eq, Structural)]
pub struct FieldPlan {
    pub number: u32,
    pub proto_type: FieldType,
    pub wire_type: WireType,
    pub kind: FieldKind,
    pub syntax: Syntax,
}

impl FieldPlan {
    /// Classifies a declared field.
    pub fn parse(f: FieldDeclaration, syntax: Syntax) -> (r: FieldPlan)
        ensures
            r.number == f.number,
            r.proto_type == f.field_type,
            r.wire_type == spec_wire_type_for(f.field_type),
            r.kind == spec_field_kind(f, syntax),
            r.syntax == syntax,
    {
        let kind = if f.is_map {
            FieldKind::MapField
        } else if f.label == Label::Repeated {
            FieldKind::Repeated { packed: f.packed }
        } else {
            match f.oneof_index {
                Some(i) => FieldKind::Oneof(i),
                None => {
                    if syntax == Syntax::Proto3 && f.field_type != FieldType::Message {
                        FieldKind::Singular(SingularFieldFlag::WithoutFlag)
                    } else {
                        let required = f.label == Label::Required;
                        let option_kind = if f.field_type == FieldType::Message {
                            OptionKind::MessageField
                        } else {
                            OptionKind::Option
                        };
                        FieldKind::Singular(SingularFieldFlag::WithFlag { required, option_kind })
                    }
                },
            }
        };
        FieldPlan {
            number: f.number,
            proto_type: f.field_type,
            wire_type: wire_type_for(f.field_type),
            kind,
            syntax,
        }
    }

    /// A singular field outside any oneof.
    pub fn is_singular(&self) -> (r: bool)
        ensures
            r == (self.kind is Singular),
    {
        match self.kind {
            FieldKind::Singular(..) => true,
            _ => false,
        }
    }

    /// A repeated or map field.
    pub fn is_repeated_or_map(&self) -> (r: bool)
        ensures
            r == (self.kind is Repeated || self.kind is MapField),
    {
        match self.kind {
            FieldKind::Repeated { .. } | FieldKind::MapField => true,
            _ => false,
        }
    }

    /// A repeated field written in packed form.
    pub fn is_repeated_packed(&self) -> (r: bool)
        ensures
            r == (self.kind matches FieldKind::Repeated { packed } && packed),
    {
        match self.kind {
            FieldKind::Repeated { packed } => packed,
            _ => false,
        }
    }

    /// Values use zigzag encoding.
    pub fn is_zigzag(&self) -> (r: bool)
        ensures
            r == (self.proto_type == FieldType::Sint32 || self.proto_type == FieldType::Sint64),
    {
        is_s_varint(self.proto_type)
    }

    /// Values are enum numbers.
    pub fn is_enum(&self) -> (r: bool)
        ensures
            r == (self.proto_type == FieldType::Enum),
    {
        self.proto_type == FieldType::Enum
    }

    /// Values live inline, without heap storage.
    pub fn elem_type_is_copy(&self) -> (r: bool)
        ensures
            r == spec_type_is_copy(self.proto_type),
    {
        type_is_copy(self.proto_type)
    }

    /// Whether "not set" differs from "set to the default": singular fields
    /// that track presence, and oneof members.
    pub fn has_has(&self) -> (r: bool)
        ensures
            r == (self.kind matches FieldKind::Singular(SingularFieldFlag::WithFlag { .. })
                || self.kind is Oneof),
    {
        match self.kind {
            FieldKind::Repeated { .. } | FieldKind::MapField => false,
            FieldKind::Singular(SingularFieldFlag::WithFlag { .. }) => true,
            FieldKind::Singular(SingularFieldFlag::WithoutFlag) => false,
            FieldKind::Oneof(..) => true,
        }
    }

    /// Wire type of the field's tag: a packed field travels length-delimited.
    pub fn tag_wire_type(&self) -> (r: WireType)
        ensures
            r == if self.kind matches FieldKind::Repeated { packed } && packed {
                WireType::LengthDelimited
            } else {
                self.wire_type
            },
    {
        if self.is_repeated_packed() {
            WireType::LengthDelimited
        } else {
            self.wire_type
        }
    }
}

/// The field is declared `required`.
pub open spec fn plan_required(p: FieldPlan) -> bool {
    p.kind matches FieldKind::Singular(SingularFieldFlag::WithFlag { required, .. }) && required
}

/// Validation after decoding: every required field of `plans` is marked in
/// `present`; otherwise `RequiredFieldMissing`.
pub fn check_initialized(plans: &[FieldPlan], present: &[bool]) -> (r: Result<(), ProtobufError>)
    requires
        plans@.len() == present@.len(),
    ensures
        r is Ok <==> forall|i: int| 0 <= i < plans@.len() && #[trigger] plan_required(plans@[i]) ==> present@[i],
        r is Err ==> r == Err::<(), ProtobufError>(ProtobufError::RequiredFieldMissing),
{
    let mut i: usize = 0;
    while i < plans.len()
        invariant
            plans@.len() == present@.len(),
            i <= plans@.len(),
            forall|j: int| 0 <= j < i && #[trigger] plan_required(plans@[j]) ==> present@[j],
        decreases plans@.len() - i,
    {
        let required = match plans[i].kind {
            FieldKind::Singular(flag) => flag.is_required(),
            _ => false,
        };
        if required && !present[i] {
            assert(plan_required(plans@[i as int]));
            return Err(ProtobufError::RequiredFieldMissing);
        }
        i = i + 1;
    }
    Ok(())
}

} // verus!
