//! Enum model: declared values in order, lookup by name and number, the
//! default value, and alias detection.
use vstd::prelude::*;
use vstd::string::StringExecFns;

verus! {

/// A value that travels as an enum number.
pub trait Enum {
    /// The number of the value.
    spec fn spec_value(&self) -> i32;

    /// The number of the value.
    fn value(&self) -> (r: i32)
        ensures
            r == self.spec_value(),
    ;
}

/// An enum field's content: a declared value's number or any other number
/// met on the wire, kept as it is.
#[derive(Debug, Clone, Copy, PartialEq, Eq, Structural)]
pub struct EnumOrUnknown {
    value: i32,
}

impl EnumOrUnknown {
    /// Holds the number `value`.
    pub fn from_i32(value: i32) -> (r: EnumOrUnknown)
        ensures
            r.spec_value() == value,
    {
        EnumOrUnknown { value }
    }
}

impl Enum for EnumOrUnknown {
    closed spec fn spec_value(&self) -> i32 {
        self.value
    }

    fn value(&self) -> (r: i32) {
        self.value
    }
}

/// One declared value of an enum, as the schema gives it.
#[derive(Debug, PartialEq, Eq)]
pub struct EnumValueDescriptorProto {
    pub name: String,
    pub number: i32,
}

/// An enum type as the schema gives it: its name and its values in order.
#[derive(Debug, PartialEq, Eq)]
pub struct EnumDescriptorProto {
    pub name: String,
    pub value: Vec<EnumValueDescriptorProto>,
}

impl Clone for EnumValueDescriptorProto {
    fn clone(&self) -> (r: Self)
        ensures
            r == *self,
    {
        EnumValueDescriptorProto { name: self.name.clone(), number: self.number }
    }
}

impl Clone for EnumDescriptorProto {
    fn clone(&self) -> (r: Self)
        ensures
            r.name == self.name,
            r.value@ == self.value@,
    {
        let mut value: Vec<EnumValueDescriptorProto> = Vec::new();
        let mut i: usize = 0;
        while i < self.value.len()
            invariant
                i <= self.value@.len(),
                value@ == self.value@.take(i as int),
            decreases self.value@.len() - i,
        {
            value.push(self.value[i].clone());
            i = i + 1;
            assert(value@ =~= self.value@.take(i as int));
        }
        assert(value@ =~= self.value@);
        EnumDescriptorProto { name: self.name.clone(), value }
    }
}

impl Clone for EnumDescriptor {
    fn clone(&self) -> (r: Self)
        ensures
            r.same_enum(self),
    {
        EnumDescriptor { proto: self.proto.clone(), full_name: self.full_name.clone() }
    }
}

impl Clone for EnumValueDescriptor {
    fn clone(&self) -> (r: Self)
        ensures
            r.spec_enum().same_enum(&self.spec_enum()),
            r.spec_index() == self.spec_index(),
    {
        EnumValueDescriptor { enum_descriptor: self.enum_descriptor.clone(), index: self.index }
    }
}

/// Name and number of each declared value, in order.
pub open spec fn values_view(v: Seq<EnumValueDescriptorProto>) -> Seq<(Seq<char>, i32)> {
    v.map_values(|p: EnumValueDescriptorProto| (p.name@, p.number))
}

/// The value at index `i` is the first one declared with its number.
pub open spec fn is_first_of_number(v: Seq<(Seq<char>, i32)>, i: int) -> bool {
    forall|j: int| 0 <= j < i ==> v[j].1 != v[i].1
}

/// Indices of the first `n` values that are the first declared with their
/// number, in order.
pub open spec fn unique_indices(v: Seq<(Seq<char>, i32)>, n: nat) -> Seq<nat>
    decreases n,
{
    if n == 0 {
        Seq::empty()
    } else {
        unique_indices(v, (n - 1) as nat) + if is_first_of_number(v, n - 1) {
            seq![(n - 1) as nat]
        } else {
            Seq::empty()
        }
    }
}

/// Description of an enum type, used by reflection and by code generation.
#[derive(Debug, PartialEq, Eq)]
pub struct EnumDescriptor {
    proto: EnumDescriptorProto,
    full_name: String,
}

impl EnumDescriptor {
    /// Name and number of each declared value, in order.
    pub closed spec fn spec_values(&self) -> Seq<(Seq<char>, i32)> {
        values_view(self.proto.value@)
    }

    pub closed spec fn spec_name(&self) -> Seq<char> {
        self.proto.name@
    }

    pub closed spec fn spec_full_name(&self) -> Seq<char> {
        self.full_name@
    }

    /// Same name, full name and values.
    pub open spec fn same_enum(&self, o: &EnumDescriptor) -> bool {
        &&& self.spec_values() == o.spec_values()
        &&& self.spec_name() == o.spec_name()
        &&& self.spec_full_name() == o.spec_full_name()
    }

    /// An enum declares at least one value.
    pub open spec fn wf(&self) -> bool {
        self.spec_values().len() > 0
    }

    /// Descriptor of the enum declared by `proto`, whose fully qualified name is
    /// `full_name`.
    pub fn new(proto: EnumDescriptorProto, full_name: String) -> (r: EnumDescriptor)
        requires
            proto.value@.len() > 0,
        ensures
            r.wf(),
            r.spec_values() == values_view(proto.value@),
            r.spec_name() == proto.name@,
            r.spec_full_name() == full_name@,
    {
        EnumDescriptor { proto, full_name }
    }

    /// The declaration of the enum.
    pub fn proto(&self) -> (r: &EnumDescriptorProto)
        ensures
            values_view(r.value@) == self.spec_values(),
            r.name@ == self.spec_name(),
    {
        &self.proto
    }

    /// Name of the enum as declared.
    pub fn name(&self) -> (r: &str)
        ensures
            r@ == self.spec_name(),
    {
        self.proto.name.as_str()
    }

    /// Fully qualified name of the enum.
    pub fn full_name(&self) -> (r: &str)
        ensures
            r@ == self.spec_full_name(),
    {
        self.full_name.as_str()
    }

    /// Number of declared values.
    pub fn len(&self) -> (r: usize)
        ensures
            r == self.spec_values().len(),
    {
        self.proto.value.len()
    }

    /// Descriptor of the value at `index`.
    fn value_at(&self, index: usize) -> (r: EnumValueDescriptor)
        requires
            self.wf(),
            index < self.spec_values().len(),
        ensures
            r.wf(),
            r.spec_enum().same_enum(self),
            r.spec_index() == index,
    {
        EnumValueDescriptor { enum_descriptor: self.clone(), index }
    }

    /// Every declared value, in order.
    pub fn values(&self) -> (r: Vec<EnumValueDescriptor>)
        requires
            self.wf(),
        ensures
            r@.len() == self.spec_values().len(),
            forall|i: int| 0 <= i < r@.len() ==> (#[trigger] r@[i]).spec_enum().same_enum(self) && r@[i].spec_index() == i && r@[i].wf(),
    {
        let mut out: Vec<EnumValueDescriptor> = Vec::new();
        let mut i: usize = 0;
        while i < self.proto.value.len()
            invariant
                self.wf(),
                i <= self.spec_values().len(),
                self.spec_values().len() == self.proto.value@.len(),
                out@.len() == i,
                forall|j: int| 0 <= j < i ==> (#[trigger] out@[j]).spec_enum().same_enum(self) && out@[j].spec_index() == j && out@[j].wf(),
            decreases self.spec_values().len() - i,
        {
            out.push(self.value_at(i));
            i = i + 1;
        }
        out
    }

    /// The first declared value.
    pub fn first_value(&self) -> (r: EnumValueDescriptor)
        requires
            self.wf(),
        ensures
            r.wf(),
            r.spec_enum().same_enum(self),
            r.spec_index() == 0,
    {
        self.value_at(0)
    }

    /// The default value: the first declared one, whatever its number.
    pub fn default_value(&self) -> (r: EnumValueDescriptor)
        requires
            self.wf(),
        ensures
            r.wf(),
            r.spec_enum().same_enum(self),
            r.spec_index() == 0,
    {
        self.value_at(0)
    }

    /// The first value declared under `name`, if any.
    pub fn value_by_name(&self, name: &str) -> (r: Option<EnumValueDescriptor>)
        requires
            self.wf(),
        ensures
            r is None <==> forall|i: int| 0 <= i < self.spec_values().len() ==> #[trigger] self.spec_values()[i].0 != name@,
            r matches Some(v) ==> v.wf() && v.spec_enum().same_enum(self) && self.spec_values()[v.spec_index() as int].0 == name@
                && forall|j: int| 0 <= j < v.spec_index() ==> #[trigger] self.spec_values()[j].0 != name@,
    {
        let wanted: String = name.to_owned();
        let mut i: usize = 0;
        while i < self.proto.value.len()
            invariant
                self.wf(),
                wanted@ == name@,
                i <= self.spec_values().len(),
                self.spec_values().len() == self.proto.value@.len(),
                forall|j: int| 0 <= j < i ==> #[trigger] self.spec_values()[j].0 != name@,
            decreases self.spec_values().len() - i,
        {
            assert(self.spec_values()[i as int] == (self.proto.value@[i as int].name@, self.proto.value@[i as int].number));
            if self.proto.value[i].name == wanted {
                assert(self.spec_values()[i as int].0 == name@);
                return Some(self.value_at(i));
            }
            i = i + 1;
        }
        None
    }

    /// The first value declared with `number`, if any.
    pub fn value_by_number(&self, number: i32) -> (r: Option<EnumValueDescriptor>)
        requires
            self.wf(),
        ensures
            r is None <==> forall|i: int| 0 <= i < self.spec_values().len() ==> #[trigger] self.spec_values()[i].1 != number,
            r matches Some(v) ==> v.wf() && v.spec_enum().same_enum(self) && self.spec_values()[v.spec_index() as int].1 == number
                && forall|j: int| 0 <= j < v.spec_index() ==> #[trigger] self.spec_values()[j].1 != number,
    {
        let mut i: usize = 0;
        while i < self.proto.value.len()
            invariant
                self.wf(),
                i <= self.spec_values().len(),
                self.spec_values().len() == self.proto.value@.len(),
                forall|j: int| 0 <= j < i ==> #[trigger] self.spec_values()[j].1 != number,
            decreases self.spec_values().len() - i,
        {
            assert(self.spec_values()[i as int] == (self.proto.value@[i as int].name@, self.proto.value@[i as int].number));
            if self.proto.value[i].number == number {
                assert(self.spec_values()[i as int].1 == number);
                return Some(self.value_at(i));
            }
            i = i + 1;
        }
        None
    }

    /// The first value declared with `number`, or else the default value.
    pub fn value_by_number_or_default(&self, number: i32) -> (r: EnumValueDescriptor)
        requires
            self.wf(),
        ensures
            r.wf(),
            r.spec_enum().same_enum(self),
            (exists|i: int| 0 <= i < self.spec_values().len() && #[trigger] self.spec_values()[i].1 == number)
                ==> self.spec_values()[r.spec_index() as int].1 == number && forall|j: int| 0 <= j < r.spec_index() ==> #[trigger] self.spec_values()[j].1 != number,
            (forall|i: int| 0 <= i < self.spec_values().len() ==> #[trigger] self.spec_values()[i].1 != number)
                ==> r.spec_index() == 0,
    {
        match self.value_by_number(number) {
            Some(v) => v,
            None => self.default_value(),
        }
    }

}

/// Description of one declared value of an enum.
#[derive(Debug, PartialEq, Eq)]
pub struct EnumValueDescriptor {
    enum_descriptor: EnumDescriptor,
    index: usize,
}

impl EnumValueDescriptor {
    pub closed spec fn spec_enum(&self) -> EnumDescriptor {
        self.enum_descriptor
    }

    pub closed spec fn spec_index(&self) -> nat {
        self.index as nat
    }

    pub open spec fn wf(&self) -> bool {
        self.spec_enum().wf() && self.spec_index() < self.spec_enum().spec_values().len()
    }

    /// Descriptor of the value at `index` of `enum_descriptor`.
    pub fn new(enum_descriptor: EnumDescriptor, index: usize) -> (r: EnumValueDescriptor)
        requires
            enum_descriptor.wf(),
            index < enum_descriptor.spec_values().len(),
        ensures
            r.wf(),
            r.spec_enum() == enum_descriptor,
            r.spec_index() == index,
    {
        EnumValueDescriptor { enum_descriptor, index }
    }

    /// The declaration of the value.
    pub fn proto(&self) -> (r: &EnumValueDescriptorProto)
        requires
            self.wf(),
        ensures
            (r.name@, r.number) == self.spec_enum().spec_values()[self.spec_index() as int],
    {
        let p = self.enum_descriptor.proto();
        &p.value[self.index]
    }

    /// Name of the value as declared.
    pub fn name(&self) -> (r: &str)
        requires
            self.wf(),
        ensures
            r@ == self.spec_enum().spec_values()[self.spec_index() as int].0,
    {
        self.proto().name.as_str()
    }

    /// Fully qualified name: the enum's fully qualified name, a dot, then the
    /// value's name.
    pub fn full_name(&self) -> (r: String)
        requires
            self.wf(),
        ensures
            r@ == self.spec_enum().spec_full_name() + seq!['.'] + self.spec_enum().spec_values()[self.spec_index() as int].0,
    {
        let mut r = self.enum_descriptor.full_name().to_owned();
        proof {
            reveal_strlit(".");
        }
        r.append(".");
        r.append(self.name());
        r
    }

    /// The value's number.
    pub fn value(&self) -> (r: i32)
        requires
            self.wf(),
        ensures
            r == self.spec_enum().spec_values()[self.spec_index() as int].1,
    {
        self.proto().number
    }

    /// The enum the value belongs to.
    pub fn enum_descriptor(&self) -> (r: &EnumDescriptor)
        ensures
            r.same_enum(&self.spec_enum()),
    {
        &self.enum_descriptor
    }
}

/// Code-generation view of an enum: its values and whether aliases are allowed.
#[derive(Debug, PartialEq, Eq)]
pub struct EnumGen {
    enum_descriptor: EnumDescriptor,
    allow_alias: bool,
}

impl EnumGen {
    pub closed spec fn spec_enum(&self) -> EnumDescriptor {
        self.enum_descriptor
    }

    pub closed spec fn spec_allow_alias(&self) -> bool {
        self.allow_alias
    }

    /// Generation view of `enum_descriptor`; `allow_alias` is the enum's
    /// option of that name.
    pub fn new(enum_descriptor: EnumDescriptor, allow_alias: bool) -> (r: EnumGen)
        ensures
            r.spec_enum() == enum_descriptor,
            r.spec_allow_alias() == allow_alias,
    {
        EnumGen { enum_descriptor, allow_alias }
    }

    /// The enum allows several names for one number.
    pub fn allow_alias(&self) -> (r: bool)
        ensures
            r == self.spec_allow_alias(),
    {
        self.allow_alias
    }

    /// Every declared value, aliases included, in order.
    pub fn values_all(&self) -> (r: Vec<EnumValueDescriptor>)
        requires
            self.spec_enum().wf(),
        ensures
            r@.len() == self.spec_enum().spec_values().len(),
            forall|i: int| 0 <= i < r@.len() ==> (#[trigger] r@[i]).spec_enum().same_enum(&self.spec_enum()) && r@[i].spec_index() == i && r@[i].wf(),
    {
        self.enum_descriptor.values()
    }

    /// The declared values that keep each number once: the first value
    /// declared with each number, in declaration order.
    pub fn values_unique(&self) -> (r: Vec<EnumValueDescriptor>)
        requires
            self.spec_enum().wf(),
        ensures
            r@.len() == unique_indices(self.spec_enum().spec_values(), self.spec_enum().spec_values().len()).len(),
            forall|k: int| 0 <= k < r@.len() ==> (#[trigger] r@[k]).wf() && r@[k].spec_enum().same_enum(&self.spec_enum())
                && r@[k].spec_index() == unique_indices(
                self.spec_enum().spec_values(),
                self.spec_enum().spec_values().len(),
            )[k],
    {
        let n = self.enum_descriptor.proto.value.len();
        let ghost v = self.enum_descriptor.spec_values();
        let mut out: Vec<EnumValueDescriptor> = Vec::new();
        let mut i: usize = 0;
        while i < n
            invariant
                self.enum_descriptor.wf(),
                n == v.len(),
                v == self.enum_descriptor.spec_values(),
                v.len() == self.enum_descriptor.proto.value@.len(),
                i <= n,
                out@.len() == unique_indices(v, i as nat).len(),
                forall|k: int| 0 <= k < out@.len() ==> (#[trigger] out@[k]).wf() && out@[k].spec_enum().same_enum(&self.enum_descriptor)
                    && out@[k].spec_index() == unique_indices(v, i as nat)[k],
            decreases n - i,
        {
            let mut j: usize = 0;
            let mut first = true;
            while j < i
                invariant
                    n == v.len(),
                    v == self.enum_descriptor.spec_values(),
                    v.len() == self.enum_descriptor.proto.value@.len(),
                    i < n,
                    j <= i,
                    first == forall|b: int| 0 <= b < j ==> v[b].1 != v[i as int].1,
                decreases i - j,
            {
                assert(v[i as int] == (self.enum_descriptor.proto.value@[i as int].name@, self.enum_descriptor.proto.value@[i as int].number));
                assert(v[j as int] == (self.enum_descriptor.proto.value@[j as int].name@, self.enum_descriptor.proto.value@[j as int].number));
                if self.enum_descriptor.proto.value[j].number == self.enum_descriptor.proto.value[i].number {
                    first = false;
                }
                j = j + 1;
            }
            let ghost prev = out@;
            if first {
                out.push(self.enum_descriptor.value_at(i));
                assert(unique_indices(v, (i + 1) as nat) =~= unique_indices(v, i as nat).push(i as nat));
            } else {
                assert(unique_indices(v, (i + 1) as nat) =~= unique_indices(v, i as nat));
            }
            proof {
                assert forall|k: int| 0 <= k < out@.len() implies (#[trigger] out@[k]).wf() && out@[k].spec_enum().same_enum(&self.enum_descriptor)
                    && out@[k].spec_index() == unique_indices(v, (i + 1) as nat)[k] by {
                    if k < prev.len() {
                        assert(out@[k] == prev[k]);
                    }
                }
            }
            i = i + 1;
        }
        out
    }
}

} // verus!
