//! The types of variables and action arguments, and their message form.
use vstd::prelude::*;

use crate::errors::UnpackError;
use crate::wire;

verus! {

/// The type classes that variables and actions can have.
#[derive(Debug, Clone)]
pub enum TypeClass {
    Invalid,
    Null,
    Enum(Vec<String>),
    Bool,
    Uint8,
    Uint16,
    Uint32,
    Uint64,
    Int8,
    Int16,
    Int32,
    Int64,
    Float,
    Double,
}

/// A type: an optional name and a type class.
#[derive(Debug, Clone)]
pub struct Type {
    pub name: Option<String>,
    pub type_class: TypeClass,
}

/// The text of each string of `v`.
pub open spec fn strings_view(v: Seq<String>) -> Seq<Seq<char>> {
    v.map_values(|s: String| s@)
}

/// The message class of a type class.
pub open spec fn class_of(c: TypeClass) -> wire::Class {
    match c {
        TypeClass::Invalid => wire::Class::Invalid,
        TypeClass::Null => wire::Class::Null,
        TypeClass::Enum(_) => wire::Class::Enum,
        TypeClass::Bool => wire::Class::Bool,
        TypeClass::Uint8 => wire::Class::Uint8,
        TypeClass::Uint16 => wire::Class::Uint16,
        TypeClass::Uint32 => wire::Class::Uint32,
        TypeClass::Uint64 => wire::Class::Uint64,
        TypeClass::Int8 => wire::Class::Int8,
        TypeClass::Int16 => wire::Class::Int16,
        TypeClass::Int32 => wire::Class::Int32,
        TypeClass::Int64 => wire::Class::Int64,
        TypeClass::Float => wire::Class::Float,
        TypeClass::Double => wire::Class::Double,
    }
}

/// The labels of a type class: those of an enum, else none.
pub open spec fn labels_of(c: TypeClass) -> Seq<Seq<char>> {
    match c {
        TypeClass::Enum(l) => strings_view(l@),
        _ => Seq::empty(),
    }
}

/// The name of a type as a message holds it: empty for none.
pub open spec fn name_text(n: Option<String>) -> Seq<char> {
    match n {
        Some(s) => s@,
        None => Seq::empty(),
    }
}

/// A copy of each string of `v`.
fn copy_strings(v: &Vec<String>) -> (r: Vec<String>)
    ensures
        strings_view(r@) == strings_view(v@),
{
    let mut r: Vec<String> = Vec::new();
    let mut i: usize = 0;
    while i < v.len()
        invariant
            i <= v@.len(),
            strings_view(r@) == strings_view(v@.subrange(0, i as int)),
        decreases v@.len() - i,
    {
        let s = v[i].clone();
        proof {
            let sub = v@.subrange(0, i as int);
            assert(v@.subrange(0, i + 1) =~= sub.push(v@[i as int]));
            assert(strings_view(r@.push(s)) =~= strings_view(r@).push(s@));
            assert(strings_view(sub.push(v@[i as int])) =~= strings_view(sub).push(s@));
        }
        r.push(s);
        i = i + 1;
    }
    proof {
        assert(v@.subrange(0, v@.len() as int) =~= v@);
    }
    r
}

/// A named enum type with the given labels.
pub fn enum_type(name: &str, labels: &[&str]) -> (r: Type)
    ensures
        r.name is Some && r.name.unwrap()@ == name@,
        r.type_class is Enum,
        labels_of(r.type_class) == labels@.map_values(|s: &str| s@),
{
    let mut out: Vec<String> = Vec::new();
    let mut i: usize = 0;
    while i < labels.len()
        invariant
            i <= labels@.len(),
            strings_view(out@) == labels@.subrange(0, i as int).map_values(|s: &str| s@),
        decreases labels@.len() - i,
    {
        let s = labels[i].to_owned();
        proof {
            let sub = labels@.subrange(0, i as int);
            assert(labels@.subrange(0, i + 1) =~= sub.push(labels@[i as int]));
            assert(strings_view(out@.push(s)) =~= strings_view(out@).push(s@));
            assert(sub.push(labels@[i as int]).map_values(|s: &str| s@) =~= sub.map_values(
                |s: &str| s@,
            ).push(s@));
        }
        out.push(s);
        i = i + 1;
    }
    proof {
        assert(labels@.subrange(0, labels@.len() as int) =~= labels@);
    }
    Type { name: Some(name.to_owned()), type_class: TypeClass::Enum(out) }
}

impl Type {
    /// Whether this is an enum type.
    pub fn is_enum(&self) -> (r: bool)
        ensures
            r == (self.type_class is Enum),
    {
        match &self.type_class {
            TypeClass::Enum(_) => true,
            _ => false,
        }
    }

    /// The message form of this type: its class, its name (empty for none)
    /// and the labels of an enum.
    pub fn pack(&self) -> (r: wire::Type)
        ensures
            r.class == class_of(self.type_class),
            r.name@ == name_text(self.name),
            strings_view(r.labels@) == labels_of(self.type_class),
    {
        let name = match &self.name {
            Some(n) => n.clone(),
            None => String::new(),
        };
        let labels = match &self.type_class {
            TypeClass::Enum(l) => copy_strings(l),
            _ => {
                let v: Vec<String> = Vec::new();
                proof {
                    assert(strings_view(v@) =~= Seq::<Seq<char>>::empty());
                }
                v
            },
        };
        let class = match &self.type_class {
            TypeClass::Invalid => wire::Class::Invalid,
            TypeClass::Null => wire::Class::Null,
            TypeClass::Enum(_) => wire::Class::Enum,
            TypeClass::Bool => wire::Class::Bool,
            TypeClass::Uint8 => wire::Class::Uint8,
            TypeClass::Uint16 => wire::Class::Uint16,
            TypeClass::Uint32 => wire::Class::Uint32,
            TypeClass::Uint64 => wire::Class::Uint64,
            TypeClass::Int8 => wire::Class::Int8,
            TypeClass::Int16 => wire::Class::Int16,
            TypeClass::Int32 => wire::Class::Int32,
            TypeClass::Int64 => wire::Class::Int64,
            TypeClass::Float => wire::Class::Float,
            TypeClass::Double => wire::Class::Double,
        };
        wire::Type { class, name, labels }
    }

    /// The type a message holds. A type other than an enum that carries
    /// labels is refused; an empty name stands for none.
    pub fn unpack(proto: &wire::Type) -> (r: Result<Type, UnpackError>)
        ensures
            proto.class != wire::Class::Enum && proto.labels@.len() > 0 <==> r is Err,
            r is Err ==> r == Err::<Type, UnpackError>(UnpackError::LabelsError),
            r matches Ok(t) ==> class_of(t.type_class) == proto.class && name_text(t.name)
                == proto.name@ && (t.name is Some ==> proto.name@.len() > 0) && labels_of(
                t.type_class,
            ) == strings_view(proto.labels@),
    {
        let is_enum = match proto.class {
            wire::Class::Enum => true,
            _ => false,
        };
        if !is_enum && proto.labels.len() > 0 {
            return Err(UnpackError::LabelsError);
        }
        let name = if proto.name.as_str().is_empty() {
            None
        } else {
            Some(proto.name.clone())
        };
        let type_class = match proto.class {
            wire::Class::Invalid => TypeClass::Invalid,
            wire::Class::Null => TypeClass::Null,
            wire::Class::Enum => TypeClass::Enum(copy_strings(&proto.labels)),
            wire::Class::Bool => TypeClass::Bool,
            wire::Class::Uint8 => TypeClass::Uint8,
            wire::Class::Uint16 => TypeClass::Uint16,
            wire::Class::Uint32 => TypeClass::Uint32,
            wire::Class::Uint64 => TypeClass::Uint64,
            wire::Class::Int8 => TypeClass::Int8,
            wire::Class::Int16 => TypeClass::Int16,
            wire::Class::Int32 => TypeClass::Int32,
            wire::Class::Int64 => TypeClass::Int64,
            wire::Class::Float => TypeClass::Float,
            wire::Class::Double => TypeClass::Double,
        };
        proof {
            if !is_enum {
                assert(strings_view(proto.labels@) =~= Seq::<Seq<char>>::empty());
            }
        }
        Ok(Type { name, type_class })
    }
}

} // verus!
