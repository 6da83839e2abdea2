//! The tree of a device as it travels: groups, variables, actions and
//! placeholders, each with its message form.
use vstd::prelude::*;

use crate::errors::UnpackError;
use crate::types::{class_of, labels_of, name_text, strings_view, Type};
use crate::wire;

verus! {

/// Identifies a node within one device's tree.
pub type NodeID = u16;

/// What every node but a placeholder carries.
#[derive(Debug, Clone)]
pub struct NodeInfo {
    /// The node's id.
    pub id: NodeID,
    /// The node's short name.
    pub name: String,
    /// The node's descriptive name.
    pub pretty: String,
    /// The node's description.
    pub desc: String,
}

/// A node of a device's tree.
#[derive(Debug)]
pub enum Node {
    Group(Group),
    Variable(Variable),
    Action(Action),
    Placeholder(Placeholder),
}

/// An inner node: its children, in order, under distinct names.
#[derive(Debug)]
pub struct Group {
    info: NodeInfo,
    children: Vec<Node>,
    schema: String,
    version: i32,
}

/// An action that can be called on the device.
#[derive(Debug)]
pub struct Action {
    info: NodeInfo,
    arg_type: Type,
    ret_type: Type,
}

/// A variable the device reports.
#[derive(Debug)]
pub struct Variable {
    info: NodeInfo,
    data_type: Type,
}

/// A node not filled in yet. A tree is built piece by piece over an
/// unreliable link, and placeholders are resolved at the end.
#[derive(Debug, Clone, Copy, PartialEq, Eq, Structural)]
pub struct Placeholder(NodeID);

/// The id a message's `i32` stands for: its low 16 bits.
pub open spec fn id_of(x: i32) -> NodeID {
    (x as int % 0x1_0000) as NodeID
}

fn id_from(x: i32) -> (r: NodeID)
    ensures
        r == id_of(x),
{
    let b = x % 0x1_0000;
    let b = if b < 0 { b + 0x1_0000 } else { b };
    proof {
        assert(b == x as int % 0x1_0000);
    }
    b as NodeID
}

/// Whether `w` is the message form of type `t`.
pub open spec fn type_packs(t: Type, w: wire::Type) -> bool {
    &&& w.class == class_of(t.type_class)
    &&& w.name@ == name_text(t.name)
    &&& strings_view(w.labels@) == labels_of(t.type_class)
}

/// Only enums carry labels, so what `pack` writes for a type `unpack`
/// accepts.
pub proof fn lemma_packed_type_accepted(t: Type, w: wire::Type)
    requires
        type_packs(t, w),
    ensures
        w.class == wire::Class::Enum || w.labels@.len() == 0,
{
    assert(strings_view(w.labels@).len() == w.labels@.len());
}

/// Whether the message fields hold `info`.
pub open spec fn info_packs(info: NodeInfo, id: i32, name: String, pretty: String, desc: String) -> bool {
    &&& id == info.id as i32
    &&& name@ == info.name@
    &&& pretty@ == info.pretty@
    &&& desc@ == info.desc@
}

/// Whether `info` is what the message fields hold.
pub open spec fn info_unpacks(
    info: NodeInfo,
    id: i32,
    name: String,
    pretty: String,
    desc: String,
) -> bool {
    &&& info.id == id_of(id)
    &&& info.name@ == name@
    &&& info.pretty@ == pretty@
    &&& info.desc@ == desc@
}

impl NodeInfo {
    pub fn new(id: NodeID, name: &str, pretty: &str, desc: &str) -> (r: Self)
        ensures
            r.id == id,
            r.name@ == name@,
            r.pretty@ == pretty@,
            r.desc@ == desc@,
    {
        NodeInfo { id, name: name.to_owned(), pretty: pretty.to_owned(), desc: desc.to_owned() }
    }
}

impl Placeholder {
    pub closed spec fn id_spec(&self) -> NodeID {
        self.0
    }

    /// A placeholder for node `id`.
    pub fn new(id: NodeID) -> (r: Self)
        ensures
            r.id_spec() == id,
    {
        Placeholder(id)
    }

    /// The id of the node this stands for.
    pub fn id(&self) -> (r: NodeID)
        ensures
            r == self.id_spec(),
    {
        self.0
    }

    /// The message form of this placeholder.
    pub fn pack(&self) -> (r: wire::Node)
        ensures
            r.node matches Some(wire::NodeKind::Placeholder(x)) && x == self.id_spec() as i32,
    {
        wire::Node { node: Some(wire::NodeKind::Placeholder(self.0 as i32)) }
    }

    /// The placeholder a message's id stands for.
    pub fn unpack(proto: i32) -> (r: Self)
        ensures
            r.id_spec() == id_of(proto),
    {
        Placeholder(id_from(proto))
    }
}

/// The type a message holds, where one is there.
fn unpack_type(t: &Option<wire::Type>) -> (r: Result<Type, UnpackError>)
    ensures
        t is None ==> r == Err::<Type, UnpackError>(UnpackError::NullFieldError),
        match (t, r) {
            (None, _) => true,
            (Some(w), Ok(ty)) => class_of(ty.type_class) == w.class && name_text(ty.name) == w.name@
                && labels_of(ty.type_class) == strings_view(w.labels@) && (w.class
                == wire::Class::Enum || w.labels@.len() == 0),
            (Some(w), Err(e)) => e == UnpackError::LabelsError && w.class != wire::Class::Enum
                && w.labels@.len() > 0,
        },
{
    match t {
        None => Err(UnpackError::NullFieldError),
        Some(w) => Type::unpack(w),
    }
}

impl Variable {
    pub fn new(info: NodeInfo, data_type: Type) -> (r: Self)
        ensures
            r.info() == info,
            r.data_type() == data_type,
    {
        Variable { info, data_type }
    }

    pub closed spec fn info(&self) -> NodeInfo {
        self.info
    }

    pub closed spec fn data_type(&self) -> Type {
        self.data_type
    }

    pub fn get_type(&self) -> (r: &Type)
        ensures
            *r == self.data_type(),
    {
        &self.data_type
    }

    /// The message form of this variable.
    pub fn pack(&self) -> (r: wire::Node)
        ensures
            match r.node {
                Some(wire::NodeKind::Var(v)) => info_packs(
                    self.info(),
                    v.id,
                    v.name,
                    v.pretty,
                    v.desc,
                ) && match v.data_type {
                    Some(t) => type_packs(self.data_type(), t),
                    None => false,
                },
                _ => false,
            },
    {
        wire::Node {
            node: Some(
                wire::NodeKind::Var(
                    wire::Variable {
                        id: self.info.id as i32,
                        name: self.info.name.clone(),
                        pretty: self.info.pretty.clone(),
                        desc: self.info.desc.clone(),
                        data_type: Some(self.data_type.pack()),
                    },
                ),
            ),
        }
    }

    /// The variable a message holds; its type must be there.
    pub fn unpack(proto: &wire::Variable) -> (r: Result<Self, UnpackError>)
        ensures
            proto.data_type is None ==> r == Err::<Self, UnpackError>(
                UnpackError::NullFieldError,
            ),
            r != Err::<Self, UnpackError>(UnpackError::NullNodeError),
            match (r, proto.data_type) {
                (Ok(v), Some(t)) => info_unpacks(
                    v.info(),
                    proto.id,
                    proto.name,
                    proto.pretty,
                    proto.desc,
                ) && type_packs(v.data_type(), t),
                (Ok(v), None) => false,
                _ => true,
            },
            match proto.data_type {
                Some(t) => r is Err <==> t.class != wire::Class::Enum && t.labels@.len() > 0,
                None => true,
            },
    {
        let data_type = unpack_type(&proto.data_type)?;
        Ok(
            Variable {
                info: NodeInfo {
                    id: id_from(proto.id),
                    name: proto.name.clone(),
                    pretty: proto.pretty.clone(),
                    desc: proto.desc.clone(),
                },
                data_type,
            },
        )
    }
}

impl Action {
    pub fn new(info: NodeInfo, arg_type: Type, ret_type: Type) -> (r: Self)
        ensures
            r.info() == info,
            r.arg_type_spec() == arg_type,
            r.ret_type_spec() == ret_type,
    {
        Action { info, arg_type, ret_type }
    }

    pub closed spec fn info(&self) -> NodeInfo {
        self.info
    }

    pub closed spec fn arg_type_spec(&self) -> Type {
        self.arg_type
    }

    pub closed spec fn ret_type_spec(&self) -> Type {
        self.ret_type
    }

    pub fn arg_type(&self) -> (r: &Type)
        ensures
            *r == self.arg_type_spec(),
    {
        &self.arg_type
    }

    pub fn ret_type(&self) -> (r: &Type)
        ensures
            *r == self.ret_type_spec(),
    {
        &self.ret_type
    }

    /// The message form of this action.
    pub fn pack(&self) -> (r: wire::Node)
        ensures
            match r.node {
                Some(wire::NodeKind::Action(a)) => info_packs(
                    self.info(),
                    a.id,
                    a.name,
                    a.pretty,
                    a.desc,
                ) && match (a.arg_type, a.ret_type) {
                    (Some(t), Some(u)) => type_packs(self.arg_type_spec(), t) && type_packs(
                        self.ret_type_spec(),
                        u,
                    ),
                    _ => false,
                },
                _ => false,
            },
    {
        wire::Node {
            node: Some(
                wire::NodeKind::Action(
                    wire::Action {
                        id: self.info.id as i32,
                        name: self.info.name.clone(),
                        pretty: self.info.pretty.clone(),
                        desc: self.info.desc.clone(),
                        arg_type: Some(self.arg_type.pack()),
                        ret_type: Some(self.ret_type.pack()),
                    },
                ),
            ),
        }
    }

    /// The action a message holds; both types must be there.
    pub fn unpack(proto: &wire::Action) -> (r: Result<Self, UnpackError>)
        ensures
            proto.arg_type is None ==> r == Err::<Self, UnpackError>(UnpackError::NullFieldError),
            r != Err::<Self, UnpackError>(UnpackError::NullNodeError),
            match (r, proto.arg_type, proto.ret_type) {
                (Ok(a), Some(t), Some(u)) => info_unpacks(
                    a.info(),
                    proto.id,
                    proto.name,
                    proto.pretty,
                    proto.desc,
                ) && type_packs(a.arg_type_spec(), t) && type_packs(a.ret_type_spec(), u),
                (Ok(a), _, _) => false,
                _ => true,
            },
            match (proto.arg_type, proto.ret_type) {
                (Some(t), Some(u)) => r is Err <==> (t.class != wire::Class::Enum
                    && t.labels@.len() > 0) || (u.class != wire::Class::Enum && u.labels@.len()
                    > 0),
                _ => r is Err,
            },
    {
        let arg_type = unpack_type(&proto.arg_type)?;
        let ret_type = unpack_type(&proto.ret_type)?;
        Ok(
            Action {
                info: NodeInfo {
                    id: id_from(proto.id),
                    name: proto.name.clone(),
                    pretty: proto.pretty.clone(),
                    desc: proto.desc.clone(),
                },
                arg_type,
                ret_type,
            },
        )
    }
}

/// The name a node is keyed by among its siblings; placeholders have none.
pub open spec fn node_name(n: Node) -> Option<Seq<char>> {
    match n {
        Node::Group(g) => Some(g.info().name@),
        Node::Variable(v) => Some(v.info().name@),
        Node::Action(a) => Some(a.info().name@),
        Node::Placeholder(_) => None,
    }
}

/// No two named children share a name.
pub open spec fn names_distinct(children: Seq<Node>) -> bool {
    forall|i: int, j: int|
        0 <= i < j < children.len() && node_name(children[i]) is Some ==> node_name(
            #[trigger] children[i],
        ) != node_name(#[trigger] children[j])
}

/// Whether child `j` of `cs` has a name that a later child, before `end`,
/// has too.
pub open spec fn replaced_later(cs: Seq<Node>, j: int, end: int) -> bool {
    node_name(cs[j]) is Some && exists|j2: int| j < j2 < end && node_name(cs[j2]) == node_name(cs[j])
}

/// The name of `n`, where it has one.
fn name_of(n: &Node) -> (r: Option<&String>)
    ensures
        match r {
            Some(s) => node_name(*n) == Some(s@),
            None => node_name(*n) is None,
        },
{
    match n {
        Node::Group(g) => Some(&g.info.name),
        Node::Variable(v) => Some(&v.info.name),
        Node::Action(a) => Some(&a.info.name),
        Node::Placeholder(_) => None,
    }
}

/// The position of the child named `name`, where there is one.
fn find_named(children: &Vec<Node>, name: &String) -> (r: Option<usize>)
    ensures
        match r {
            Some(k) => k < children@.len() && node_name(children@[k as int]) == Some(name@),
            None => forall|j: int| 0 <= j < children@.len() ==> node_name(#[trigger] children@[j]) != Some(name@),
        },
{
    let mut k: usize = 0;
    while k < children.len()
        invariant
            k <= children@.len(),
            forall|j: int| 0 <= j < k ==> node_name(#[trigger] children@[j]) != Some(name@),
        decreases children@.len() - k,
    {
        match name_of(&children[k]) {
            Some(other) => {
                if *other == *name {
                    return Some(k);
                }
            },
            None => {},
        }
        k = k + 1;
    }
    None
}

/// Adds `child` to `children`: where a child of the same name is there, the
/// new one takes its place, else it goes at the end.
fn insert_child(children: &mut Vec<Node>, child: Node)
    requires
        names_distinct(old(children)@),
    ensures
        names_distinct(final(children)@),
        old(children)@.len() <= final(children)@.len() <= old(children)@.len() + 1,
        final(children)@.contains(child),
        forall|k: int|
            0 <= k < old(children)@.len() && (node_name(child) is None || node_name(
                #[trigger] old(children)@[k],
            ) != node_name(child)) ==> final(children)@[k] == old(children)@[k],
        forall|k: int|
            0 <= k < final(children)@.len() && #[trigger] final(children)@[k] != child ==> k < old(
                children,
            )@.len() && final(children)@[k] == old(children)@[k] && (node_name(child) is Some
                ==> node_name(old(children)@[k]) != node_name(child)),
        forall|i: int|
            0 <= i < final(children)@.len() ==> #[trigger] final(children)@[i] == child || (i
                < old(children)@.len() && final(children)@[i] == old(children)@[i]),
        node_name(child) is Some && (exists|k: int|
            0 <= k < old(children)@.len() && node_name(old(children)@[k]) == node_name(child))
            ==> exists|k: int|
            0 <= k < old(children)@.len() && node_name(old(children)@[k]) == node_name(child)
                && final(children)@ == old(children)@.update(k, child),
        !(node_name(child) is Some && (exists|k: int|
            0 <= k < old(children)@.len() && node_name(old(children)@[k]) == node_name(child)))
            ==> final(children)@ == old(children)@.push(child),
{
    let ghost before = children@;
    let found = match name_of(&child) {
        Some(name) => find_named(children, name),
        None => None,
    };
    proof {
        if node_name(child) is Some && found is None {
            assert(forall|j: int| 0 <= j < before.len() ==> node_name(#[trigger] before[j]) != node_name(child));
        }
    }
    match found {
        Some(k) => {
            proof {
                assert(node_name(before[k as int]) == node_name(child));
            }
            children.set(k, child);
            proof {
                let after = children@;
                assert(after[k as int] == child);
                assert forall|i: int, j: int|
                    0 <= i < j < after.len() && node_name(after[i]) is Some implies node_name(
                    #[trigger] after[i],
                ) != node_name(#[trigger] after[j]) by {
                    if i == k {
                        assert(node_name(before[j]) != node_name(before[k as int]));
                    } else if j == k {
                        assert(node_name(before[i]) != node_name(before[k as int]));
                    }
                }
            }
        },
        None => {
            children.push(child);
            proof {
                let after = children@;
                assert(after[before.len() as int] == child);
                assert forall|i: int, j: int|
                    0 <= i < j < after.len() && node_name(after[i]) is Some implies node_name(
                    #[trigger] after[i],
                ) != node_name(#[trigger] after[j]) by {
                    if j == before.len() {
                        assert(after[i] == before[i]);
                    }
                }
            }
        },
    }
}

impl Group {
    pub closed spec fn info(&self) -> NodeInfo {
        self.info
    }

    pub closed spec fn children_spec(&self) -> Seq<Node> {
        self.children@
    }

    pub closed spec fn schema_spec(&self) -> Seq<char> {
        self.schema@
    }

    pub closed spec fn version_spec(&self) -> i32 {
        self.version
    }

    /// A group of the given children, keyed by name: where two share a
    /// name, the later one is kept, in the place of the earlier.
    pub fn new(info: NodeInfo, children: Vec<Node>, schema: String, version: i32) -> (r: Self)
        ensures
            r.info() == info,
            r.schema_spec() == schema@,
            r.version_spec() == version,
            names_distinct(r.children_spec()),
            r.children_spec().len() <= children@.len(),
            forall|k: int| 0 <= k < r.children_spec().len() ==> children@.contains(#[trigger] r.children_spec()[k]),
            forall|k: int|
                0 <= k < r.children_spec().len() ==> exists|j: int|
                    0 <= j < children@.len() && children@[j] == #[trigger] r.children_spec()[k]
                        && !replaced_later(children@, j, children@.len() as int),
            forall|j: int|
                0 <= j < children@.len() && !replaced_later(children@, j, children@.len() as int)
                    ==> r.children_spec().contains(#[trigger] children@[j]),
            names_distinct(children@) ==> r.children_spec() == children@,
    {
        let mut input = children;
        let ghost all = input@;
        let n = input.len();
        let mut kept: Vec<Node> = Vec::new();
        let mut i: usize = 0;
        while input.len() > 0
            invariant
                i + input@.len() == all.len(),
                n == all.len(),
                input@ == all.subrange(i as int, all.len() as int),
                names_distinct(kept@),
                kept@.len() <= i,
                forall|k: int| 0 <= k < kept@.len() ==> all.contains(#[trigger] kept@[k]),
                forall|k: int|
                    0 <= k < kept@.len() ==> exists|j: int|
                        0 <= j < i && all[j] == #[trigger] kept@[k] && !replaced_later(all, j, i as int),
                forall|j: int|
                    0 <= j < i && !replaced_later(all, j, i as int) ==> kept@.contains(#[trigger] all[j]),
                names_distinct(all) ==> kept@ == all.subrange(0, i as int),
            decreases input@.len(),
        {
            let child = input.remove(0);
            let ghost before = kept@;
            proof {
                assert(child == all[i as int]);
                assert(input@ =~= all.subrange(i + 1, all.len() as int));
                if names_distinct(all) && node_name(child) is Some {
                    assert forall|k: int| 0 <= k < before.len() implies node_name(before[k]) != node_name(child) by {
                        assert(before[k] == all[k]);
                        assert(node_name(all[k]) != node_name(all[i as int])) by {
                            if node_name(all[k]) is None {
                            }
                        }
                    }
                }
            }
            insert_child(&mut kept, child);
            proof {
                assert forall|k: int| 0 <= k < kept@.len() implies all.contains(#[trigger] kept@[k]) by {
                    if kept@[k] == child {
                        assert(all[i as int] == child);
                    } else {
                        assert(before.contains(kept@[k]));
                    }
                }
                if names_distinct(all) {
                    assert(kept@ =~= all.subrange(0, i + 1));
                }
                assert forall|k: int| 0 <= k < kept@.len() implies exists|j: int|
                    0 <= j < i + 1 && all[j] == #[trigger] kept@[k] && !replaced_later(all, j, i + 1) by {
                    if kept@[k] == child {
                        assert(all[i as int] == kept@[k] && !replaced_later(all, i as int, i + 1));
                    } else {
                        let j = choose|j: int| 0 <= j < i && all[j] == #[trigger] before[k] && !replaced_later(all, j, i as int);
                        assert(!replaced_later(all, j, i + 1)) by {
                            if replaced_later(all, j, i + 1) {
                                let j2 = choose|j2: int| j < j2 < i + 1 && node_name(all[j2]) == node_name(all[j]);
                                assert(j2 == i);
                            }
                        }
                    }
                }
                assert forall|j: int| 0 <= j < i + 1 && !replaced_later(all, j, i + 1) implies kept@.contains(#[trigger] all[j]) by {
                    if j < i {
                        assert(!replaced_later(all, j, i as int)) by {
                            if replaced_later(all, j, i as int) {
                                let j2 = choose|j2: int| j < j2 < i && node_name(all[j2]) == node_name(all[j]);
                                assert(j < j2 < i + 1);
                            }
                        }
                        let k = choose|k: int| 0 <= k < before.len() && before[k] == all[j];
                        if node_name(child) is Some && node_name(before[k]) == node_name(child) {
                            assert(replaced_later(all, j, i + 1)) by {
                                assert(j < i < i + 1 && node_name(all[i as int]) == node_name(all[j]));
                            }
                        }
                        assert(kept@[k] == before[k]);
                    }
                }
            }
            i = i + 1;
        }
        proof {
            assert(all.subrange(0, all.len() as int) =~= all);
        }
        Group { info, children: kept, schema, version }
    }

    /// The children, in order.
    pub fn children(&self) -> (r: &Vec<Node>)
        ensures
            r@ == self.children_spec(),
    {
        &self.children
    }

    /// The child named `name`, where there is one.
    pub fn get_child(&self, name: &str) -> (r: Option<&Node>)
        ensures
            match r {
                Some(n) => self.children_spec().contains(*n) && node_name(*n) == Some(name@),
                None => forall|k: int|
                    0 <= k < self.children_spec().len() ==> node_name(#[trigger] self.children_spec()[k]) != Some(name@),
            },
    {
        let owned = name.to_owned();
        let mut k: usize = 0;
        while k < self.children.len()
            invariant
                owned@ == name@,
                k <= self.children_spec().len(),
                forall|j: int| 0 <= j < k ==> node_name(#[trigger] self.children_spec()[j]) != Some(name@),
            decreases self.children_spec().len() - k,
        {
            match name_of(&self.children[k]) {
                Some(other) => {
                    if *other == owned {
                        return Some(&self.children[k]);
                    }
                },
                None => {},
            }
            k = k + 1;
        }
        None
    }

    pub fn schema(&self) -> (r: &String)
        ensures
            r@ == self.schema_spec(),
    {
        &self.schema
    }

    pub fn version(&self) -> (r: i32)
        ensures
            r == self.version_spec(),
    {
        self.version
    }

    /// The message forms of the children, in order.
    pub fn pack_children(&self) -> (r: Vec<wire::Node>)
        ensures
            r@.len() == self.children_spec().len(),
            forall|k: int| 0 <= k < r@.len() ==> packs_tree(self.children_spec()[k], #[trigger] r@[k]),
    {
        let mut out: Vec<wire::Node> = Vec::new();
        let mut k: usize = 0;
        while k < self.children.len()
            invariant
                k <= self.children_spec().len(),
                out@.len() == k,
                forall|j: int| 0 <= j < k ==> packs_tree(self.children_spec()[j], #[trigger] out@[j]),
            decreases self.children_spec().len() - k,
        {
            out.push(pack_node(&self.children[k]));
            k = k + 1;
        }
        out
    }

    /// The message form of this group and everything below it.
    pub fn pack(&self) -> (r: wire::Node)
        ensures
            packs_tree(Node::Group(*self), r),
    {
        wire::Node {
            node: Some(
                wire::NodeKind::Group(
                    wire::Group {
                        id: self.info.id as i32,
                        name: self.info.name.clone(),
                        pretty: self.info.pretty.clone(),
                        desc: self.info.desc.clone(),
                        schema: self.schema.clone(),
                        version: self.version,
                        children: self.pack_children(),
                    },
                ),
            ),
        }
    }

    /// The group a message holds. Children that do not unpack are left out;
    /// of children that share a name the later is kept.
    pub fn unpack(group: &wire::Group) -> (r: Self)
        ensures
            info_unpacks(r.info(), group.id, group.name, group.pretty, group.desc),
            r.schema_spec() == group.schema@,
            r.version_spec() == group.version,
            names_distinct(r.children_spec()),
            r.children_spec().len() <= group.children@.len(),
    {
        let mut kept: Vec<Node> = Vec::new();
        let mut k: usize = 0;
        while k < group.children.len()
            invariant
                k <= group.children@.len(),
                kept@.len() <= k,
                names_distinct(kept@),
            decreases group.children@.len() - k,
        {
            match unpack_node(&group.children[k]) {
                Ok(n) => {
                    insert_child(&mut kept, n);
                },
                Err(_) => {},
            }
            k = k + 1;
        }
        Group {
            info: NodeInfo {
                id: id_from(group.id),
                name: group.name.clone(),
                pretty: group.pretty.clone(),
                desc: group.desc.clone(),
            },
            children: kept,
            schema: group.schema.clone(),
            version: group.version,
        }
    }
}

/// Whether `w` is the message form of `n`, its children aside.
pub open spec fn packs_shallow(n: Node, w: wire::Node) -> bool {
    match (n, w.node) {
        (Node::Group(g), Some(wire::NodeKind::Group(x))) => info_packs(g.info(), x.id, x.name, x.pretty, x.desc)
            && x.schema@ == g.schema_spec() && x.version == g.version_spec() && x.children@.len() == g.children_spec().len(),
        (Node::Variable(v), Some(wire::NodeKind::Var(x))) => info_packs(v.info(), x.id, x.name, x.pretty, x.desc)
            && match x.data_type {
            Some(t) => type_packs(v.data_type(), t),
            None => false,
        },
        (Node::Action(a), Some(wire::NodeKind::Action(x))) => info_packs(a.info(), x.id, x.name, x.pretty, x.desc)
            && match (x.arg_type, x.ret_type) {
            (Some(t), Some(u)) => type_packs(a.arg_type_spec(), t) && type_packs(a.ret_type_spec(), u),
            _ => false,
        },
        (Node::Placeholder(p), Some(wire::NodeKind::Placeholder(x))) => x == p.id_spec() as i32,
        _ => false,
    }
}

/// Whether `w` is the message form of `n` and of everything below it.
pub open spec fn packs_tree(n: Node, w: wire::Node) -> bool
    decreases n,
    via packs_tree_decreases
{
    &&& packs_shallow(n, w)
    &&& match (n, w.node) {
        (Node::Group(g), Some(wire::NodeKind::Group(x))) => forall|k: int|
            0 <= k < g.children_spec().len() ==> packs_tree(g.children_spec()[k], #[trigger] x.children@[k]),
        _ => true,
    }
}

#[via_fn]
proof fn packs_tree_decreases(n: Node, w: wire::Node) {
    broadcast use vstd::std_specs::vec::axiom_vec_index_decreases;

    if let Node::Group(g) = n {
        assert(decreases_to!(n => n->Group_0));
        assert(decreases_to!(g => g.children));
        assert(decreases_to!(g.children => g.children@));
        assert forall|k: int| 0 <= k < g.children@.len() implies decreases_to!(n => g.children@[k]) by {
            assert(decreases_to!(g.children@ => g.children@[k]));
        }
    }
}

/// The message form of `n` and everything below it.
fn pack_node(n: &Node) -> (r: wire::Node)
    ensures
        packs_tree(*n, r),
    decreases n,
{
    match n {
        Node::Group(g) => {
            let mut out: Vec<wire::Node> = Vec::new();
            let mut k: usize = 0;
            while k < g.children.len()
                invariant
                    *n == Node::Group(*g),
                    k <= g.children@.len(),
                    out@.len() == k,
                    forall|j: int| 0 <= j < k ==> packs_tree(g.children@[j], #[trigger] out@[j]),
                decreases g.children@.len() - k,
            {
                proof {
                    broadcast use vstd::std_specs::vec::axiom_vec_index_decreases;

                    assert(*n is Group);
                    assert((*n)->Group_0 == *g);
                    assert(decreases_to!(*n => (*n)->Group_0));
                    assert(decreases_to!(*g => g.children));
                    assert(decreases_to!(g.children => g.children@));
                    assert(decreases_to!(g.children@ => g.children@[k as int]));
                }
                out.push(pack_node(&g.children[k]));
                k = k + 1;
            }
            wire::Node {
                node: Some(
                    wire::NodeKind::Group(
                        wire::Group {
                            id: g.info.id as i32,
                            name: g.info.name.clone(),
                            pretty: g.info.pretty.clone(),
                            desc: g.info.desc.clone(),
                            schema: g.schema.clone(),
                            version: g.version,
                            children: out,
                        },
                    ),
                ),
            }
        },
        Node::Variable(v) => v.pack(),
        Node::Action(a) => a.pack(),
        Node::Placeholder(p) => p.pack(),
    }
}

/// Whether `n` is what the message `w` holds, its children aside.
pub open spec fn unpacks_shallow(w: wire::Node, n: Node) -> bool {
    match (w.node, n) {
        (Some(wire::NodeKind::Group(x)), Node::Group(g)) => {
            &&& info_unpacks(g.info(), x.id, x.name, x.pretty, x.desc)
            &&& g.schema_spec() == x.schema@
            &&& g.version_spec() == x.version
            &&& names_distinct(g.children_spec())
            &&& g.children_spec().len() <= x.children@.len()
        },
        (Some(wire::NodeKind::Var(x)), Node::Variable(v)) => info_unpacks(
            v.info(),
            x.id,
            x.name,
            x.pretty,
            x.desc,
        ) && match x.data_type {
            Some(t) => type_packs(v.data_type(), t),
            None => false,
        },
        (Some(wire::NodeKind::Action(x)), Node::Action(a)) => info_unpacks(
            a.info(),
            x.id,
            x.name,
            x.pretty,
            x.desc,
        ) && match (x.arg_type, x.ret_type) {
            (Some(t), Some(u)) => type_packs(a.arg_type_spec(), t) && type_packs(a.ret_type_spec(), u),
            _ => false,
        },
        (Some(wire::NodeKind::Placeholder(x)), Node::Placeholder(p)) => p.id_spec() == id_of(x),
        _ => false,
    }
}

/// The node a message holds.
fn unpack_node(proto: &wire::Node) -> (r: Result<Node, UnpackError>)
    ensures
        match proto.node {
            Some(wire::NodeKind::Var(x)) => r is Ok <==> match x.data_type {
                Some(t) => t.class == wire::Class::Enum || t.labels@.len() == 0,
                None => false,
            },
            Some(wire::NodeKind::Action(x)) => r is Ok <==> match (x.arg_type, x.ret_type) {
                (Some(t), Some(u)) => (t.class == wire::Class::Enum || t.labels@.len() == 0) && (
                u.class == wire::Class::Enum || u.labels@.len() == 0),
                _ => false,
            },
            _ => true,
        },
        r matches Ok(n) ==> unpacks_shallow(*proto, n),
        proto.node is None <==> r == Err::<Node, UnpackError>(UnpackError::NullNodeError),
        r matches Ok(n) ==> match (n, proto.node) {
            (Node::Group(_), Some(wire::NodeKind::Group(_))) => true,
            (Node::Variable(_), Some(wire::NodeKind::Var(_))) => true,
            (Node::Action(_), Some(wire::NodeKind::Action(_))) => true,
            (Node::Placeholder(p), Some(wire::NodeKind::Placeholder(x))) => p.0 == id_of(x),
            _ => false,
        },
        proto.node matches Some(wire::NodeKind::Group(_)) ==> r is Ok,
        proto.node matches Some(wire::NodeKind::Placeholder(_)) ==> r is Ok,
    decreases proto,
{
    match &proto.node {
        None => Err(UnpackError::NullNodeError),
        Some(wire::NodeKind::Group(group)) => {
            let mut kept: Vec<Node> = Vec::new();
            let mut k: usize = 0;
            while k < group.children.len()
                invariant
                    proto.node == Some(wire::NodeKind::Group(*group)),
                    k <= group.children@.len(),
                    names_distinct(kept@),
                    kept@.len() <= k,
                decreases group.children@.len() - k,
            {
                proof {
                    broadcast use vstd::std_specs::vec::axiom_vec_index_decreases;

                    let nk = proto.node->0;
                    assert(decreases_to!(*proto => proto.node));
                    assert(decreases_to!(proto.node => nk));
                    assert(decreases_to!(nk => nk->Group_0));
                    assert(decreases_to!(*group => group.children));
                    assert(decreases_to!(group.children => group.children@));
                    assert(decreases_to!(group.children@ => group.children@[k as int]));
                }
                match unpack_node(&group.children[k]) {
                    Ok(n) => {
                        insert_child(&mut kept, n);
                    },
                    Err(_) => {},
                }
                k = k + 1;
            }
            let res = Group {
                info: NodeInfo {
                    id: id_from(group.id),
                    name: group.name.clone(),
                    pretty: group.pretty.clone(),
                    desc: group.desc.clone(),
                },
                children: kept,
                schema: group.schema.clone(),
                version: group.version,
            };
            proof {
                assert(info_unpacks(res.info, group.id, group.name, group.pretty, group.desc));
            }
            Ok(Node::Group(res))
        },
        Some(wire::NodeKind::Var(v)) => match Variable::unpack(v) {
            Ok(x) => Ok(Node::Variable(x)),
            Err(e) => Err(e),
        },
        Some(wire::NodeKind::Action(a)) => match Action::unpack(a) {
            Ok(x) => Ok(Node::Action(x)),
            Err(e) => Err(e),
        },
        Some(wire::NodeKind::Placeholder(x)) => Ok(Node::Placeholder(Placeholder::unpack(*x))),
    }
}

impl Node {
    pub fn group(
        id: NodeID,
        name: &str,
        pretty: &str,
        desc: &str,
        children: Vec<Node>,
        schema: &str,
        version: i32,
    ) -> (r: Self)
        ensures
            r matches Node::Group(g) && g.info().id == id && g.info().name@ == name@
                && g.schema_spec() == schema@ && g.version_spec() == version,
    {
        let info = NodeInfo::new(id, name, pretty, desc);
        Node::Group(Group::new(info, children, schema.to_owned(), version))
    }

    pub fn action(
        id: NodeID,
        name: &str,
        pretty: &str,
        desc: &str,
        arg_type: Type,
        ret_type: Type,
    ) -> (r: Self)
        ensures
            r matches Node::Action(a) && a.info().id == id && a.info().name@ == name@
                && a.arg_type_spec() == arg_type && a.ret_type_spec() == ret_type,
    {
        let info = NodeInfo::new(id, name, pretty, desc);
        Node::Action(Action::new(info, arg_type, ret_type))
    }

    pub fn variable(id: NodeID, name: &str, pretty: &str, desc: &str, data_type: Type) -> (r: Self)
        ensures
            r matches Node::Variable(v) && v.info().id == id && v.info().name@ == name@
                && v.data_type() == data_type,
    {
        let info = NodeInfo::new(id, name, pretty, desc);
        Node::Variable(Variable::new(info, data_type))
    }

    pub fn placeholder(id: NodeID) -> (r: Self)
        ensures
            r matches Node::Placeholder(p) && p.id_spec() == id,
    {
        Node::Placeholder(Placeholder(id))
    }

    /// What the node carries; a placeholder carries nothing yet.
    pub fn info(&self) -> (r: Option<&NodeInfo>)
        ensures
            r is None <==> self is Placeholder,
            r matches Some(i) ==> node_name(*self) == Some(i.name@),
    {
        match self {
            Node::Group(g) => Some(&g.info),
            Node::Variable(v) => Some(&v.info),
            Node::Action(a) => Some(&a.info),
            Node::Placeholder(_) => None,
        }
    }

    /// The node's id; for a placeholder, the id it stands for.
    pub fn id(&self) -> (r: NodeID)
        ensures
            r == match *self {
                Node::Group(g) => g.info().id,
                Node::Variable(v) => v.info().id,
                Node::Action(a) => a.info().id,
                Node::Placeholder(p) => p.id_spec(),
            },
    {
        match self {
            Node::Group(g) => g.info.id,
            Node::Variable(v) => v.info.id,
            Node::Action(a) => a.info.id,
            Node::Placeholder(p) => p.0,
        }
    }

    /// The kind of node, as a word.
    pub fn type_str(&self) -> (r: &'static str)
        ensures
            r@ == match self {
                Node::Action(_) => "Action"@,
                Node::Group(_) => "Group"@,
                Node::Placeholder(_) => "Placeholder"@,
                Node::Variable(_) => "Variable"@,
            },
    {
        match self {
            Node::Action(_) => "Action",
            Node::Group(_) => "Group",
            Node::Placeholder(_) => "Placeholder",
            Node::Variable(_) => "Variable",
        }
    }

    /// The message form of this node and everything below it.
    pub fn pack(&self) -> (r: wire::Node)
        ensures
            packs_tree(*self, r),
    {
        pack_node(self)
    }

    /// The node a message holds; a message without a node is refused.
    pub fn unpack(proto: &wire::Node) -> (r: Result<Node, UnpackError>)
        ensures
            match proto.node {
                Some(wire::NodeKind::Var(x)) => r is Ok <==> match x.data_type {
                    Some(t) => t.class == wire::Class::Enum || t.labels@.len() == 0,
                    None => false,
                },
                Some(wire::NodeKind::Action(x)) => r is Ok <==> match (x.arg_type, x.ret_type) {
                    (Some(t), Some(u)) => (t.class == wire::Class::Enum || t.labels@.len() == 0) && (
                    u.class == wire::Class::Enum || u.labels@.len() == 0),
                    _ => false,
                },
                _ => true,
            },
            proto.node is None <==> r == Err::<Node, UnpackError>(UnpackError::NullNodeError),
            r matches Ok(n) ==> unpacks_shallow(*proto, n),
            proto.node matches Some(wire::NodeKind::Group(_)) ==> r matches Ok(Node::Group(_)),
            proto.node matches Some(wire::NodeKind::Placeholder(x)) ==> r matches Ok(Node::Placeholder(p)) && p.id_spec() == id_of(x),
    {
        unpack_node(proto)
    }
}

} // verus!
