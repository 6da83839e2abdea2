//! The messages a device tree and its values travel in.
use vstd::prelude::*;

verus! {

/// The type classes a message can name.
#[derive(Debug, Clone, Copy, PartialEq, Eq, Structural)]
pub enum Class {
    Invalid,
    Null,
    Enum,
    Bool,
    Uint8,
    Uint16,
    Uint32,
    Uint64,
    Int8,
    Int16,
    Int32,
    Int64,
    Float,
    Double,
}

/// A type: its class, a name (empty for none) and, for enums, its labels.
#[derive(Debug, Clone)]
pub struct Type {
    pub class: Class,
    pub name: String,
    pub labels: Vec<String>,
}

/// A message with no fields.
#[derive(Debug, Clone, Copy, PartialEq, Eq, Structural)]
pub struct Empty {}

/// The variants a value message can hold; floats travel as their IEEE-754
/// bit patterns.
#[derive(Debug, Clone, Copy, PartialEq, Eq, Structural)]
pub enum ValueType {
    Invalid(Empty),
    Null(Empty),
    En(i32),
    B(bool),
    U8(u32),
    U16(u32),
    U32(u32),
    U64(u64),
    I8(i32),
    I16(i32),
    I32(i32),
    I64(i64),
    F(u32),
    D(u64),
}

/// A value message; the variant may be missing.
#[derive(Debug, Clone, Copy, PartialEq, Eq, Structural)]
pub struct Value {
    pub value_type: Option<ValueType>,
}

/// A group node and its children.
#[derive(Debug)]
pub struct Group {
    pub id: i32,
    pub name: String,
    pub pretty: String,
    pub desc: String,
    pub schema: String,
    pub version: i32,
    pub children: Vec<Node>,
}

/// A variable node.
#[derive(Debug, Clone)]
pub struct Variable {
    pub id: i32,
    pub name: String,
    pub pretty: String,
    pub desc: String,
    pub data_type: Option<Type>,
}

/// An action node.
#[derive(Debug, Clone)]
pub struct Action {
    pub id: i32,
    pub name: String,
    pub pretty: String,
    pub desc: String,
    pub arg_type: Option<Type>,
    pub ret_type: Option<Type>,
}

/// The variants a node message can hold.
#[derive(Debug)]
pub enum NodeKind {
    Group(Group),
    Var(Variable),
    Action(Action),
    Placeholder(i32),
}

/// A node message; the variant may be missing.
#[derive(Debug)]
pub struct Node {
    pub node: Option<NodeKind>,
}

} // verus!
