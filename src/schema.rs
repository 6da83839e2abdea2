//! The schema tree of a device, built once from its configuration together
//! with the layout of each CAN id.
//!
//! The tree is held as an arena: node `i` has id `i`, node 0 is the root
//! group, and every other node names its parent, which comes before it.
use std::collections::HashMap;

use vstd::prelude::*;

use crate::can::{perxml_format, perxml_type, DataType};
use crate::nodes::NodeID;
use crate::types::strings_view;

verus! {

/// The type of a variable: its format, its unit and, for enums, the labels.
#[derive(Debug, Clone)]
pub struct Type {
    pub format: DataType,
    pub units: Option<String>,
    pub enum_values: Option<Vec<String>>,
}

impl Type {
    pub fn new(format: DataType, units: Option<String>, enum_values: Option<Vec<String>>) -> (r: Self)
        ensures
            r.format == format,
            r.units == units,
            r.enum_values == enum_values,
    {
        Type { format, units, enum_values }
    }
}

/// What every node of the tree carries.
#[derive(Debug, Clone)]
pub struct NodeInfo {
    pub id: NodeID,
    /// The name in code, the last segment of the node's path.
    pub name: String,
    /// The name for people.
    pub pretty: String,
    pub description: String,
}

/// The kind of a node.
#[derive(Debug, Clone)]
pub enum Kind {
    Group,
    Variable(Type),
}

/// One node of the tree.
#[derive(Debug, Clone)]
pub struct Entry {
    pub info: NodeInfo,
    pub parent: NodeID,
    pub kind: Kind,
}

/// Why a configuration does not make a tree.
#[derive(Debug, Clone, Copy, PartialEq, Eq, Structural)]
pub enum SchemaError {
    /// A path runs through a variable.
    NotAGroup,
    /// Two variables share a path, or a variable sits where a group is.
    DuplicatePath,
    /// A type name that no format stands for.
    UnknownType,
    /// More nodes than ids.
    TooManyNodes,
}

/// The largest number of nodes a tree can hold: one per id.
pub const MAX_NODES: usize = 0x1_0000;

/// The path from the root to node `i`: the names of the nodes on the way,
/// the root excluded.
pub open spec fn path_of(nodes: Seq<Entry>, i: int) -> Seq<Seq<char>>
    decreases i,
{
    if i <= 0 || i >= nodes.len() || nodes[i].parent as int >= i {
        Seq::empty()
    } else {
        path_of(nodes, nodes[i].parent as int).push(nodes[i].info.name@)
    }
}

/// Whether node `i` is a group.
pub open spec fn is_group(nodes: Seq<Entry>, i: int) -> bool {
    nodes[i].kind is Group
}

/// The tree is well formed: a root group, parents that are groups and come
/// first, ids that are positions, and no two nodes on one path.
pub open spec fn tree_wf(nodes: Seq<Entry>) -> bool {
    &&& 1 <= nodes.len() <= MAX_NODES
    &&& is_group(nodes, 0)
    &&& forall|i: int|
        0 < i < nodes.len() ==> (#[trigger] nodes[i]).parent < i && is_group(
            nodes,
            nodes[i].parent as int,
        )
    &&& forall|i: int| 0 <= i < nodes.len() ==> (#[trigger] nodes[i]).info.id == i
    &&& forall|i: int, j: int|
        0 <= i < j < nodes.len() ==> #[trigger] path_of(nodes, i) != #[trigger] path_of(nodes, j)
}

/// Whether some node has path `p`.
pub open spec fn has_path(nodes: Seq<Entry>, p: Seq<Seq<char>>) -> bool {
    exists|i: int| 0 <= i < nodes.len() && path_of(nodes, i) == p
}

/// Whether the path `segs` runs through a variable: some proper prefix of
/// it is the path of a variable.
pub open spec fn blocked(nodes: Seq<Entry>, segs: Seq<Seq<char>>) -> bool {
    exists|k: int, i: int|
        1 <= k < segs.len() && 0 <= i < nodes.len() && path_of(nodes, i) == segs.subrange(0, k)
            && !is_group(nodes, i)
}

/// The pieces of `s` between its dots, in order; `s` without a dot is one
/// piece, and an empty piece stands before or after a dot at either end.
pub open spec fn dot_split(s: Seq<char>) -> Seq<Seq<char>>
    decreases s.len(),
{
    if s.len() == 0 {
        seq![Seq::<char>::empty()]
    } else {
        let rest = dot_split(s.drop_last());
        if s.last() == '.' {
            rest.push(Seq::<char>::empty())
        } else {
            rest.update(rest.len() - 1, rest.last().push(s.last()))
        }
    }
}

/// Relies on `str::split` with a `char` pattern: the pieces between the
/// dots, in order, at least one.
#[verifier::external_body]
fn split_dots(s: &str) -> (r: Vec<String>)
    ensures
        r@.len() >= 1,
        strings_view(r@) == dot_split(s@),
{
    s.split('.').map(|p| p.to_owned()).collect()
}

/// Whether `q` is a non-empty prefix of `p`.
pub open spec fn prefix_of(q: Seq<Seq<char>>, p: Seq<Seq<char>>) -> bool {
    1 <= q.len() <= p.len() && p.subrange(0, q.len() as int) == q
}

/// Whether a variable of the tree has path `q`.
pub open spec fn has_var(nodes: Seq<Entry>, q: Seq<Seq<char>>) -> bool {
    exists|i: int| 0 <= i < nodes.len() && path_of(nodes, i) == q && !is_group(nodes, i)
}

/// Whether path `q` is taken once the variables at `earlier` have gone into
/// the tree: a node had it, or it leads to one of them.
pub open spec fn present(nodes: Seq<Entry>, earlier: Seq<Seq<Seq<char>>>, q: Seq<Seq<char>>) -> bool {
    has_path(nodes, q) || exists|e: int| 0 <= e < earlier.len() && prefix_of(q, earlier[e])
}

/// Whether a variable has path `q` once the variables at `earlier` have gone
/// into the tree.
pub open spec fn var_at(nodes: Seq<Entry>, earlier: Seq<Seq<Seq<char>>>, q: Seq<Seq<char>>) -> bool {
    has_var(nodes, q) || earlier.contains(q)
}

/// What stops a variable at path `p` once the variables at `earlier` have
/// gone into the tree: a variable on the way, or a node at `p` itself.
pub open spec fn clash(nodes: Seq<Entry>, earlier: Seq<Seq<Seq<char>>>, p: Seq<Seq<char>>) -> Option<
    SchemaError,
> {
    if exists|k: int| 1 <= k < p.len() && var_at(nodes, earlier, #[trigger] p.subrange(0, k)) {
        Some(SchemaError::NotAGroup)
    } else if present(nodes, earlier, p) {
        Some(SchemaError::DuplicatePath)
    } else {
        None
    }
}

/// The first of the paths `ps`, from position `j` on, that cannot go into
/// the tree after the ones before it, and why.
pub open spec fn first_clash(nodes: Seq<Entry>, ps: Seq<Seq<Seq<char>>>, j: int) -> Option<(int, SchemaError)>
    decreases ps.len() - j,
{
    if j < 0 || j >= ps.len() {
        None
    } else {
        match clash(nodes, ps.subrange(0, j), ps[j]) {
            Some(e) => Some((j, e)),
            None => first_clash(nodes, ps, j + 1),
        }
    }
}

/// The number of segments of the first `j` paths of `ps`.
pub open spec fn sum_len(ps: Seq<Seq<Seq<char>>>, j: int) -> int
    decreases j,
{
    if j <= 0 {
        0
    } else {
        sum_len(ps, j - 1) + ps[j - 1].len()
    }
}

proof fn lemma_path_unfold(nodes: Seq<Entry>, i: int)
    requires
        tree_wf(nodes),
        0 < i < nodes.len(),
    ensures
        path_of(nodes, i) == path_of(nodes, nodes[i].parent as int).push(nodes[i].info.name@),
{
    assert(nodes[i].parent < i);
}

proof fn lemma_path_len(nodes: Seq<Entry>, i: int)
    requires
        tree_wf(nodes),
        0 <= i < nodes.len(),
    ensures
        (path_of(nodes, i).len() == 0) == (i == 0),
{
    if i > 0 {
        lemma_path_unfold(nodes, i);
    }
}

/// Pushing a node leaves the paths of the others as they were.
proof fn lemma_path_push(nodes: Seq<Entry>, e: Entry, i: int)
    requires
        0 <= i < nodes.len(),
    ensures
        path_of(nodes.push(e), i) == path_of(nodes, i),
    decreases i,
{
    if i > 0 && nodes[i].parent as int >= 0 && (nodes[i].parent as int) < i {
        assert(nodes.push(e)[i] == nodes[i]);
        lemma_path_push(nodes, e, nodes[i].parent as int);
    } else {
        assert(nodes.push(e)[i] == nodes[i]);
    }
}

/// The ancestor of node `i` whose path has `k` segments.
pub open spec fn ancestor(nodes: Seq<Entry>, i: int, k: int) -> int
    decreases i,
{
    if i <= 0 || i >= nodes.len() || nodes[i].parent as int >= i || path_of(nodes, i).len() <= k {
        i
    } else {
        ancestor(nodes, nodes[i].parent as int, k)
    }
}

/// Every prefix of a path is the path of an ancestor, a group where the
/// prefix is proper.
proof fn lemma_ancestor(nodes: Seq<Entry>, i: int, k: int)
    requires
        tree_wf(nodes),
        0 <= i < nodes.len(),
        0 <= k <= path_of(nodes, i).len(),
    ensures
        0 <= ancestor(nodes, i, k) < nodes.len(),
        path_of(nodes, ancestor(nodes, i, k)) == path_of(nodes, i).subrange(0, k),
        k < path_of(nodes, i).len() ==> is_group(nodes, ancestor(nodes, i, k)),
    decreases i,
{
    if i == 0 {
        assert(path_of(nodes, i).subrange(0, k) =~= path_of(nodes, i));
    } else {
        lemma_path_unfold(nodes, i);
        let p = nodes[i].parent as int;
        if path_of(nodes, i).len() <= k {
            assert(path_of(nodes, i).subrange(0, k) =~= path_of(nodes, i));
        } else {
            lemma_ancestor(nodes, p, k);
            assert(path_of(nodes, i).subrange(0, k) =~= path_of(nodes, p).subrange(0, k));
            if k == path_of(nodes, p).len() {
                assert(path_of(nodes, p).subrange(0, k) =~= path_of(nodes, p));
            }
        }
    }
}

/// The unique node with a given path.
proof fn lemma_unique(nodes: Seq<Entry>, i: int, j: int)
    requires
        tree_wf(nodes),
        0 <= i < nodes.len(),
        0 <= j < nodes.len(),
        path_of(nodes, i) == path_of(nodes, j),
    ensures
        i == j,
{
    if i < j {
        assert(path_of(nodes, i) != path_of(nodes, j));
    } else if j < i {
        assert(path_of(nodes, j) != path_of(nodes, i));
    }
}

/// A device's schema tree.
pub struct Tree {
    name: String,
    nodes: Vec<Entry>,
}

impl Tree {
    pub closed spec fn entries(&self) -> Seq<Entry> {
        self.nodes@
    }

    pub closed spec fn name_spec(&self) -> Seq<char> {
        self.name@
    }

    pub open spec fn wf(&self) -> bool {
        tree_wf(self.entries())
    }

    /// A tree that holds its root group alone.
    pub fn new(name: String) -> (r: Self)
        ensures
            r.wf(),
            r.entries().len() == 1,
            r.name_spec() == name@,
    {
        let root = Entry {
            info: NodeInfo {
                id: 0,
                name: String::new(),
                pretty: String::new(),
                description: String::new(),
            },
            parent: 0,
            kind: Kind::Group,
        };
        let mut nodes: Vec<Entry> = Vec::new();
        nodes.push(root);
        Tree { name, nodes }
    }

    /// The number of nodes.
    pub fn len(&self) -> (r: usize)
        ensures
            r == self.entries().len(),
    {
        self.nodes.len()
    }

    /// Node `id`, where there is one.
    pub fn get(&self, id: NodeID) -> (r: Option<&Entry>)
        ensures
            match r {
                Some(e) => id < self.entries().len() && *e == self.entries()[id as int],
                None => id >= self.entries().len(),
            },
    {
        if (id as usize) < self.nodes.len() {
            Some(&self.nodes[id as usize])
        } else {
            None
        }
    }

    /// The child of `parent` named `name`, where there is one.
    fn find_child(&self, parent: usize, name: &String) -> (r: Option<usize>)
        requires
            self.wf(),
        ensures
            match r {
                Some(c) => 0 < c < self.entries().len() && self.entries()[c as int].parent
                    == parent && self.entries()[c as int].info.name@ == name@,
                None => forall|c: int|
                    0 < c < self.entries().len() ==> !((#[trigger] self.entries()[c]).parent
                        == parent && self.entries()[c].info.name@ == name@),
            },
    {
        let mut c: usize = 1;
        while c < self.nodes.len()
            invariant
                1 <= c <= self.entries().len(),
                forall|d: int|
                    0 < d < c ==> !((#[trigger] self.entries()[d]).parent == parent
                        && self.entries()[d].info.name@ == name@),
            decreases self.entries().len() - c,
        {
            if self.nodes[c].parent as usize == parent && self.nodes[c].info.name == *name {
                return Some(c);
            }
            c = c + 1;
        }
        None
    }

    /// Adds a node under `parent` and returns its id.
    fn push_node(&mut self, parent: usize, name: &String, pretty: String, description: String, kind: Kind) -> (r: usize)
        requires
            old(self).wf(),
            parent < old(self).entries().len() < MAX_NODES,
            is_group(old(self).entries(), parent as int),
            !has_path(old(self).entries(), path_of(old(self).entries(), parent as int).push(name@)),
        ensures
            final(self).wf(),
            r == old(self).entries().len(),
            final(self).name_spec() == old(self).name_spec(),
            final(self).entries().len() == r + 1,
            final(self).entries().subrange(0, r as int) == old(self).entries(),
            path_of(final(self).entries(), r as int) == path_of(old(self).entries(), parent as int).push(name@),
            final(self).entries()[r as int].kind == kind,
            final(self).entries()[r as int].info.pretty == pretty,
            final(self).entries()[r as int].info.description == description,
            forall|i: int| 0 <= i < r ==> path_of(final(self).entries(), i) == path_of(old(self).entries(), i),
    {
        let id = self.nodes.len();
        let ghost before = self.nodes@;
        let e = Entry {
            info: NodeInfo { id: id as NodeID, name: name.clone(), pretty, description },
            parent: parent as NodeID,
            kind,
        };
        self.nodes.push(e);
        proof {
            let after = self.nodes@;
            assert(after =~= before.push(e));
            assert forall|i: int| 0 <= i < id implies path_of(after, i) == path_of(before, i) by {
                lemma_path_push(before, e, i);
            }
            lemma_path_push(before, e, parent as int);
            assert(after[id as int] == e);
            assert(path_of(after, id as int) == path_of(before, parent as int).push(name@));
            assert(after.subrange(0, id as int) =~= before);
            assert forall|i: int| 0 < i < after.len() implies (#[trigger] after[i]).parent < i
                && is_group(after, after[i].parent as int) by {
                if i < id {
                    assert(after[i] == before[i]);
                    assert(after[before[i].parent as int] == before[before[i].parent as int]);
                }
            }
            assert forall|i: int, j: int|
                0 <= i < j < after.len() implies #[trigger] path_of(after, i) != #[trigger] path_of(
                after,
                j,
            ) by {
                if j < id {
                    assert(path_of(before, i) != path_of(before, j));
                } else {
                    assert(path_of(after, i) == path_of(before, i));
                }
            }
        }
        id
    }

    /// Adds a variable at the path `segs`, creating the groups on the way
    /// that are not there yet, and returns its id. Fails, changing nothing,
    /// where the path runs through a variable, where a node has the path
    /// already, or where the ids run out.
    pub fn insert_variable(
        &mut self,
        segs: &Vec<String>,
        ty: Type,
        pretty: String,
        description: String,
    ) -> (r: Result<NodeID, SchemaError>)
        requires
            old(self).wf(),
            segs@.len() >= 1,
        ensures
            final(self).wf(),
            final(self).name_spec() == old(self).name_spec(),
            (r == Err::<NodeID, SchemaError>(SchemaError::NotAGroup)) == blocked(
                old(self).entries(),
                strings_view(segs@),
            ),
            (r == Err::<NodeID, SchemaError>(SchemaError::DuplicatePath)) == (!blocked(
                old(self).entries(),
                strings_view(segs@),
            ) && has_path(old(self).entries(), strings_view(segs@))),
            r is Err ==> final(self).entries() == old(self).entries(),
            r == Err::<NodeID, SchemaError>(SchemaError::TooManyNodes) ==> old(self).entries().len()
                + segs@.len() > MAX_NODES,
            r is Err ==> r == Err::<NodeID, SchemaError>(SchemaError::NotAGroup) || r == Err::<
                NodeID,
                SchemaError,
            >(SchemaError::DuplicatePath) || r == Err::<NodeID, SchemaError>(
                SchemaError::TooManyNodes,
            ),
            !blocked(old(self).entries(), strings_view(segs@)) && !has_path(
                old(self).entries(),
                strings_view(segs@),
            ) && old(self).entries().len() + segs@.len() <= MAX_NODES ==> r is Ok,
            r matches Ok(id) ==> {
                let nodes = final(self).entries();
                let old_nodes = old(self).entries();
                &&& id == nodes.len() - 1
                &&& old_nodes.len() <= id
                &&& nodes.subrange(0, old_nodes.len() as int) == old_nodes
                &&& path_of(nodes, id as int) == strings_view(segs@)
                &&& nodes[id as int].kind == Kind::Variable(ty)
                &&& nodes[id as int].info.pretty == pretty
                &&& nodes[id as int].info.description == description
                &&& forall|i: int|
                    0 <= i < old_nodes.len() ==> path_of(nodes, i) == path_of(old_nodes, i)
                &&& forall|i: int| old_nodes.len() <= i < id ==> is_group(nodes, i)
                &&& forall|i: int|
                    old_nodes.len() <= i < nodes.len() ==> prefix_of(
                        #[trigger] path_of(nodes, i),
                        strings_view(segs@),
                    )
                &&& nodes.len() <= old_nodes.len() + segs@.len()
            },
    {
        let ghost old_nodes = self.nodes@;
        let ghost p = strings_view(segs@);
        let n = segs.len();
        let mut cur: usize = 0;
        let mut k: usize = 0;
        proof {
            assert(p.subrange(0, 0) =~= Seq::<Seq<char>>::empty());
        }
        // Walk down the groups that are there already.
        while k + 1 < n
            invariant
                self.nodes@ == old_nodes,
                old_nodes == old(self).entries(),
                self.name_spec() == old(self).name_spec(),
                self.wf(),
                n == segs@.len(),
                p == strings_view(segs@),
                k + 1 <= n,
                cur < old_nodes.len(),
                is_group(old_nodes, cur as int),
                path_of(old_nodes, cur as int) == p.subrange(0, k as int),
                forall|m: int, i: int|
                    1 <= m <= k && 0 <= i < old_nodes.len() && path_of(old_nodes, i) == p.subrange(
                        0,
                        m,
                    ) ==> is_group(old_nodes, i),
            decreases n - k,
        {
            match self.find_child(cur, &segs[k]) {
                Some(c) => {
                    proof {
                        lemma_path_unfold(old_nodes, c as int);
                        assert(p.subrange(0, k + 1) =~= p.subrange(0, k as int).push(p[k as int]));
                        assert(path_of(old_nodes, c as int) == p.subrange(0, k + 1));
                    }
                    match self.nodes[c].kind {
                        Kind::Group => {},
                        Kind::Variable(_) => {
                            proof {
                                assert(blocked(old_nodes, p)) by {
                                    assert(!is_group(old_nodes, c as int));
                                }
                            }
                            return Err(SchemaError::NotAGroup);
                        },
                    }
                    proof {
                        assert forall|m: int, i: int|
                            1 <= m <= k + 1 && 0 <= i < old_nodes.len() && path_of(old_nodes, i)
                                == p.subrange(0, m) implies is_group(old_nodes, i) by {
                            if m == k + 1 {
                                lemma_unique(old_nodes, i, c as int);
                            }
                        }
                    }
                    cur = c;
                    k = k + 1;
                },
                None => {
                    proof {
                        self.lemma_absent_below(cur as int, segs@[k as int]@);
                        assert(p.subrange(0, k + 1) =~= p.subrange(0, k as int).push(p[k as int]));
                        self.lemma_no_deeper(p, k as int + 1);
                    }
                    return self.create_below(cur, k, segs, ty, pretty, description);
                },
            }
        }
        match self.find_child(cur, &segs[k]) {
            Some(c) => {
                proof {
                    lemma_path_unfold(old_nodes, c as int);
                    assert(p.subrange(0, k + 1) =~= p.subrange(0, k as int).push(p[k as int]));
                    assert(p.subrange(0, n as int) =~= p);
                    assert(path_of(old_nodes, c as int) == p);
                }
                Err(SchemaError::DuplicatePath)
            },
            None => {
                proof {
                    self.lemma_absent_below(cur as int, segs@[k as int]@);
                    assert(p.subrange(0, k + 1) =~= p.subrange(0, k as int).push(p[k as int]));
                    self.lemma_no_deeper(p, k as int + 1);
                }
                self.create_below(cur, k, segs, ty, pretty, description)
            },
        }
    }

    /// Where `parent` has no child named `name`, no node has the path of
    /// `parent` with `name` added.
    proof fn lemma_absent_below(&self, parent: int, name: Seq<char>)
        requires
            self.wf(),
            0 <= parent < self.entries().len(),
            forall|c: int|
                0 < c < self.entries().len() ==> !((#[trigger] self.entries()[c]).parent == parent
                    && self.entries()[c].info.name@ == name),
        ensures
            !has_path(self.entries(), path_of(self.entries(), parent).push(name)),
    {
        let nodes = self.entries();
        if has_path(nodes, path_of(nodes, parent).push(name)) {
            let j = choose|j: int| 0 <= j < nodes.len() && path_of(nodes, j) == path_of(nodes, parent).push(name);
            lemma_path_len(nodes, j);
            lemma_path_unfold(nodes, j);
            let q = nodes[j].parent as int;
            assert(path_of(nodes, q) =~= path_of(nodes, j).drop_last());
            assert(path_of(nodes, parent) =~= path_of(nodes, j).drop_last());
            lemma_unique(nodes, q, parent);
            assert(path_of(nodes, j).last() == nodes[j].info.name@);
            assert(path_of(nodes, parent).push(name).last() == name);
            assert(nodes[j].info.name@ == name);
            assert(!(nodes[j].parent == parent && nodes[j].info.name@ == name));
        }
    }

    /// Where no node has the path `p[..k]`, no node has a longer prefix of
    /// `p` for its path, and `p` runs through no variable past `k`.
    proof fn lemma_no_deeper(&self, p: Seq<Seq<char>>, k: int)
        requires
            self.wf(),
            1 <= k <= p.len(),
            !has_path(self.entries(), p.subrange(0, k)),
        ensures
            forall|m: int| k <= m <= p.len() ==> !has_path(self.entries(), #[trigger] p.subrange(0, m)),
    {
        let nodes = self.entries();
        assert forall|m: int| k <= m <= p.len() implies !has_path(nodes, #[trigger] p.subrange(0, m)) by {
            if has_path(nodes, p.subrange(0, m)) {
                let j = choose|j: int| 0 <= j < nodes.len() && path_of(nodes, j) == p.subrange(0, m);
                lemma_ancestor(nodes, j, k);
                assert(p.subrange(0, m).subrange(0, k) =~= p.subrange(0, k));
            }
        }
    }

    /// Creates the groups for `segs[k..n-1]` below `cur` and the variable
    /// for the last segment below them.
    fn create_below(
        &mut self,
        cur: usize,
        k: usize,
        segs: &Vec<String>,
        ty: Type,
        pretty: String,
        description: String,
    ) -> (r: Result<NodeID, SchemaError>)
        requires
            old(self).wf(),
            k < segs@.len(),
            cur < old(self).entries().len(),
            is_group(old(self).entries(), cur as int),
            path_of(old(self).entries(), cur as int) == strings_view(segs@).subrange(0, k as int),
            forall|m: int|
                k < m <= segs@.len() ==> !has_path(
                    old(self).entries(),
                    #[trigger] strings_view(segs@).subrange(0, m),
                ),
            forall|m: int, i: int|
                1 <= m <= k && 0 <= i < old(self).entries().len() && path_of(old(self).entries(), i)
                    == strings_view(segs@).subrange(0, m) ==> is_group(old(self).entries(), i),
        ensures
            final(self).wf(),
            final(self).name_spec() == old(self).name_spec(),
            ({
                let old_nodes = old(self).entries();
                let p = strings_view(segs@);
                &&& !blocked(old_nodes, p)
                &&& !has_path(old_nodes, p)
                &&& r is Err ==> final(self).entries() == old_nodes && r == Err::<
                    NodeID,
                    SchemaError,
                >(SchemaError::TooManyNodes) && old_nodes.len() + segs@.len() > MAX_NODES
                &&& old_nodes.len() + segs@.len() <= MAX_NODES ==> r is Ok
                &&& r matches Ok(id) ==> {
                    let nodes = final(self).entries();
                    &&& id == nodes.len() - 1
                    &&& old_nodes.len() <= id
                    &&& nodes.subrange(0, old_nodes.len() as int) == old_nodes
                    &&& path_of(nodes, id as int) == p
                    &&& nodes[id as int].kind == Kind::Variable(ty)
                    &&& nodes[id as int].info.pretty == pretty
                    &&& nodes[id as int].info.description == description
                    &&& forall|i: int|
                        0 <= i < old_nodes.len() ==> path_of(nodes, i) == path_of(old_nodes, i)
                    &&& forall|i: int| old_nodes.len() <= i < id ==> is_group(nodes, i)
                    &&& forall|i: int|
                        old_nodes.len() <= i < nodes.len() ==> prefix_of(#[trigger] path_of(nodes, i), p)
                    &&& nodes.len() <= old_nodes.len() + segs@.len()
                }
            }),
    {
        let ghost old_nodes = self.nodes@;
        let ghost p = strings_view(segs@);
        let n = segs.len();
        proof {
            assert(p.subrange(0, n as int) =~= p);
            assert(!has_path(old_nodes, p.subrange(0, n as int)));
            assert(!blocked(old_nodes, p)) by {
                if blocked(old_nodes, p) {
                    let (m, i) = choose|m: int, i: int|
                        1 <= m < p.len() && 0 <= i < old_nodes.len() && path_of(old_nodes, i)
                            == p.subrange(0, m) && !is_group(old_nodes, i);
                    if m > k {
                        assert(has_path(old_nodes, p.subrange(0, m)));
                    }
                }
            }
        }
        if n - k > MAX_NODES - self.nodes.len() {
            return Err(SchemaError::TooManyNodes);
        }
        let mut parent = cur;
        let mut j = k;
        while j + 1 < n
            invariant
                self.wf(),
                self.name_spec() == old(self).name_spec(),
                n == segs@.len(),
                p == strings_view(segs@),
                k <= j < n,
                old_nodes.len() + (j - k) == self.entries().len(),
                self.entries().len() + (n - j) <= MAX_NODES,
                self.entries().subrange(0, old_nodes.len() as int) == old_nodes,
                parent < self.entries().len(),
                is_group(self.entries(), parent as int),
                path_of(self.entries(), parent as int) == p.subrange(0, j as int),
                forall|m: int| j < m <= n ==> !has_path(self.entries(), #[trigger] p.subrange(0, m)),
                forall|i: int|
                    0 <= i < old_nodes.len() ==> path_of(self.entries(), i) == path_of(old_nodes, i),
                forall|i: int| old_nodes.len() <= i < self.entries().len() ==> is_group(self.entries(), i),
                forall|i: int|
                    old_nodes.len() <= i < self.entries().len() ==> prefix_of(#[trigger] path_of(self.entries(), i), p),
            decreases n - j,
        {
            proof {
                assert(p.subrange(0, j + 1) =~= p.subrange(0, j as int).push(p[j as int]));
            }
            let ghost before = self.nodes@;
            let g = self.push_node(parent, &segs[j], String::new(), String::new(), Kind::Group);
            proof {
                let after = self.nodes@;
                assert(after.subrange(0, old_nodes.len() as int) =~= before.subrange(0, old_nodes.len() as int));
                assert forall|m: int| j + 1 < m <= n implies !has_path(after, #[trigger] p.subrange(0, m)) by {
                    if has_path(after, p.subrange(0, m)) {
                        let i = choose|i: int| 0 <= i < after.len() && path_of(after, i) == p.subrange(0, m);
                        if i < g {
                            assert(has_path(before, p.subrange(0, m)));
                        } else {
                            assert(path_of(after, i).len() == j + 1);
                        }
                    }
                }
                assert forall|i: int| old_nodes.len() <= i < after.len() implies is_group(after, i) by {
                    if i < g {
                        assert(after[i] == before[i]);
                        assert(is_group(before, i));
                    }
                }
                assert forall|i: int| 0 <= i < old_nodes.len() implies path_of(after, i) == path_of(old_nodes, i) by {
                    assert(path_of(after, i) == path_of(before, i));
                }
                assert forall|i: int| old_nodes.len() <= i < after.len() implies prefix_of(#[trigger] path_of(after, i), p) by {
                    if i < g {
                        assert(path_of(after, i) == path_of(before, i));
                    } else {
                        assert(p.subrange(0, j + 1).len() == j + 1);
                    }
                }
            }
            parent = g;
            j = j + 1;
        }
        proof {
            assert(p.subrange(0, j + 1) =~= p.subrange(0, j as int).push(p[j as int]));
            assert(p.subrange(0, n as int) =~= p);
        }
        let ghost before = self.nodes@;
        let id = self.push_node(parent, &segs[j], pretty, description, Kind::Variable(ty));
        proof {
            let after = self.nodes@;
            assert(after.subrange(0, old_nodes.len() as int) =~= before.subrange(0, old_nodes.len() as int));
            assert forall|i: int| 0 <= i < old_nodes.len() implies path_of(after, i) == path_of(old_nodes, i) by {
                assert(path_of(after, i) == path_of(before, i));
            }
            assert forall|i: int| old_nodes.len() <= i < id implies is_group(after, i) by {
                assert(after[i] == before[i]);
                assert(is_group(before, i));
            }
            assert forall|i: int| old_nodes.len() <= i < after.len() implies prefix_of(#[trigger] path_of(after, i), p) by {
                if i < id {
                    assert(path_of(after, i) == path_of(before, i));
                } else {
                    assert(p.subrange(0, n as int) =~= p);
                }
            }
        }
        Ok(id as NodeID)
    }
}

/// One configured value of a CAN id: where it goes in the tree, its type
/// name and what describes it.
#[derive(Debug, Clone)]
pub struct CanValueConfig {
    pub access_string: String,
    pub ty: String,
    pub unit: Option<String>,
    /// The enum labels, separated by dots.
    pub enum_values: Option<String>,
    pub name: String,
    pub description: String,
}

/// A CAN id and the values its payload carries, in payload order.
#[derive(Debug, Clone)]
pub struct CanIdConfig {
    pub id: u32,
    pub values: Vec<CanValueConfig>,
}

/// Whether layout entry `e` names a variable of `nodes` whose format is the
/// entry's.
pub open spec fn entry_valid(nodes: Seq<Entry>, e: (DataType, NodeID)) -> bool {
    &&& (e.1 as int) < nodes.len()
    &&& nodes[e.1 as int].kind matches Kind::Variable(t) && t.format == e.0
}

/// Whether layout entry `e` stands for configured value `v` in `nodes`.
pub open spec fn entry_matches(nodes: Seq<Entry>, e: (DataType, NodeID), v: CanValueConfig) -> bool {
    &&& entry_valid(nodes, e)
    &&& perxml_format(v.ty@) == Some(e.0)
    &&& path_of(nodes, e.1 as int) == dot_split(v.access_string@)
}

/// Whether every entry of every layout of `m` names a variable of `nodes`.
pub open spec fn layouts_valid(nodes: Seq<Entry>, m: Map<u32, Vec<(DataType, NodeID)>>) -> bool {
    forall|k: u32, j: int|
        m.contains_key(k) && 0 <= j < m[k]@.len() ==> entry_valid(nodes, #[trigger] m[k]@[j])
}

proof fn lemma_entry_valid_kept(old_nodes: Seq<Entry>, nodes: Seq<Entry>, e: (DataType, NodeID))
    requires
        entry_valid(old_nodes, e),
        old_nodes.len() <= nodes.len(),
        nodes.subrange(0, old_nodes.len() as int) == old_nodes,
    ensures
        entry_valid(nodes, e),
{
    assert(nodes[e.1 as int] == nodes.subrange(0, old_nodes.len() as int)[e.1 as int]);
}

/// The paths and variables of `cur` are those of `base` with the
/// variables at `earlier` gone in.
pub open spec fn tracks(cur: Seq<Entry>, base: Seq<Entry>, earlier: Seq<Seq<Seq<char>>>) -> bool {
    &&& forall|q: Seq<Seq<char>>|
        #![trigger has_path(cur, q)]
        #![trigger present(base, earlier, q)]
        q.len() >= 1 ==> (has_path(cur, q) <==> present(base, earlier, q))
    &&& forall|q: Seq<Seq<char>>|
        #![trigger has_var(cur, q)]
        #![trigger var_at(base, earlier, q)]
        q.len() >= 1 ==> (has_var(cur, q) <==> var_at(base, earlier, q))
}

proof fn lemma_tracks_start(base: Seq<Entry>)
    ensures
        tracks(base, base, Seq::empty()),
{
    assert forall|q: Seq<Seq<char>>| q.len() >= 1 implies (has_path(base, q) <==> present(base, Seq::empty(), q)) by {}
    assert forall|q: Seq<Seq<char>>| q.len() >= 1 implies (has_var(base, q) <==> var_at(base, Seq::empty(), q)) by {}
}

/// Where `cur` tracks `base` and `earlier`, what stops a variable at `p` in
/// `cur` is what `clash` says.
proof fn lemma_clash_tracked(cur: Seq<Entry>, base: Seq<Entry>, earlier: Seq<Seq<Seq<char>>>, p: Seq<Seq<char>>)
    requires
        tracks(cur, base, earlier),
        p.len() >= 1,
    ensures
        blocked(cur, p) <==> clash(base, earlier, p) == Some(SchemaError::NotAGroup),
        !blocked(cur, p) ==> (has_path(cur, p) <==> clash(base, earlier, p) == Some(
            SchemaError::DuplicatePath,
        )),
        clash(base, earlier, p) is None <==> !blocked(cur, p) && !has_path(cur, p),
{
    if blocked(cur, p) {
        let (k, i) = choose|k: int, i: int|
            1 <= k < p.len() && 0 <= i < cur.len() && path_of(cur, i) == p.subrange(0, k) && !is_group(cur, i);
        assert(has_var(cur, p.subrange(0, k)));
        assert(var_at(base, earlier, p.subrange(0, k)));
    }
    if exists|k: int| 1 <= k < p.len() && var_at(base, earlier, #[trigger] p.subrange(0, k)) {
        let k = choose|k: int| 1 <= k < p.len() && var_at(base, earlier, #[trigger] p.subrange(0, k));
        assert(has_var(cur, p.subrange(0, k)));
        let i = choose|i: int| 0 <= i < cur.len() && path_of(cur, i) == p.subrange(0, k) && !is_group(cur, i);
        assert(blocked(cur, p));
    }
    assert(has_path(cur, p) <==> present(base, earlier, p));
}

/// One more variable, at `p`, going into `cur` keeps the tracking.
proof fn lemma_tracks_step(
    base: Seq<Entry>,
    earlier: Seq<Seq<Seq<char>>>,
    cur: Seq<Entry>,
    next: Seq<Entry>,
    p: Seq<Seq<char>>,
    id: int,
)
    requires
        tracks(cur, base, earlier),
        tree_wf(cur),
        tree_wf(next),
        cur.len() <= id == next.len() - 1,
        next.subrange(0, cur.len() as int) == cur,
        forall|i: int| 0 <= i < cur.len() ==> path_of(next, i) == path_of(cur, i),
        forall|i: int| cur.len() <= i < id ==> is_group(next, i),
        forall|i: int| cur.len() <= i < next.len() ==> prefix_of(#[trigger] path_of(next, i), p),
        path_of(next, id) == p,
        p.len() >= 1,
        !is_group(next, id),
    ensures
        tracks(next, base, earlier.push(p)),
{
    let e2 = earlier.push(p);
    assert forall|q: Seq<Seq<char>>| q.len() >= 1 implies (has_path(next, q) <==> present(base, e2, q)) by {
        if has_path(next, q) {
            let i = choose|i: int| 0 <= i < next.len() && path_of(next, i) == q;
            if i < cur.len() {
                assert(has_path(cur, q));
                assert(present(base, earlier, q));
                if !has_path(base, q) {
                    let e = choose|e: int| 0 <= e < earlier.len() && prefix_of(q, earlier[e]);
                    assert(e2[e] == earlier[e]);
                }
            } else {
                assert(prefix_of(q, e2[earlier.len() as int]));
            }
        }
        if present(base, e2, q) {
            if has_path(base, q) {
                assert(present(base, earlier, q));
            } else {
                let e = choose|e: int| 0 <= e < e2.len() && prefix_of(q, e2[e]);
                if e < earlier.len() {
                    assert(e2[e] == earlier[e]);
                    assert(present(base, earlier, q));
                } else {
                    lemma_ancestor(next, id, q.len() as int);
                    assert(path_of(next, ancestor(next, id, q.len() as int)) == q);
                }
            }
            if present(base, earlier, q) {
                assert(has_path(cur, q));
                let i = choose|i: int| 0 <= i < cur.len() && path_of(cur, i) == q;
                assert(path_of(next, i) == q);
            }
        }
    }
    assert forall|q: Seq<Seq<char>>| q.len() >= 1 implies (has_var(next, q) <==> var_at(base, e2, q)) by {
        if has_var(next, q) {
            let i = choose|i: int| 0 <= i < next.len() && path_of(next, i) == q && !is_group(next, i);
            if i < cur.len() {
                assert(next[i] == next.subrange(0, cur.len() as int)[i]);
                assert(has_var(cur, q));
                assert(var_at(base, earlier, q));
                if earlier.contains(q) {
                    let e = choose|e: int| 0 <= e < earlier.len() && earlier[e] == q;
                    assert(e2[e] == q);
                }
            } else {
                assert(i == id);
                assert(e2[earlier.len() as int] == q);
            }
        }
        if var_at(base, e2, q) {
            if has_var(base, q) {
                assert(var_at(base, earlier, q));
            } else {
                let e = choose|e: int| 0 <= e < e2.len() && e2[e] == q;
                if e < earlier.len() {
                    assert(e2[e] == earlier[e]);
                    assert(earlier.contains(q));
                }
            }
            if var_at(base, earlier, q) {
                assert(has_var(cur, q));
                let i = choose|i: int| 0 <= i < cur.len() && path_of(cur, i) == q && !is_group(cur, i);
                assert(next[i] == next.subrange(0, cur.len() as int)[i]);
                assert(path_of(next, i) == q);
            } else {
                assert(q == p);
                assert(has_var(next, q));
            }
        }
    }
}

proof fn lemma_sum_len_mono(ps: Seq<Seq<Seq<char>>>, a: int, b: int)
    requires
        0 <= a <= b <= ps.len(),
    ensures
        sum_len(ps, a) <= sum_len(ps, b),
    decreases b - a,
{
    if a < b {
        lemma_sum_len_mono(ps, a, b - 1);
    }
}

/// Where no path before `j` clashes, the first clash is the first from `j`.
proof fn lemma_first_clash_from(nodes: Seq<Entry>, ps: Seq<Seq<Seq<char>>>, i: int, j: int)
    requires
        0 <= i <= j <= ps.len(),
        forall|m: int| 0 <= m < j ==> clash(nodes, ps.subrange(0, m), #[trigger] ps[m]) is None,
    ensures
        first_clash(nodes, ps, i) == first_clash(nodes, ps, j),
    decreases j - i,
{
    if i < j {
        lemma_first_clash_from(nodes, ps, i + 1, j);
    }
}

/// The paths of the configured values, in order.
pub open spec fn value_paths(values: Seq<CanValueConfig>) -> Seq<Seq<Seq<char>>> {
    values.map_values(|v: CanValueConfig| dot_split(v.access_string@))
}

/// Whether every configured value names a known type.
pub open spec fn types_known(values: Seq<CanValueConfig>) -> bool {
    forall|j: int| 0 <= j < values.len() ==> perxml_format(#[trigger] values[j].ty@) is Some
}

/// Whether every value of `values` names a known type.
fn check_types(values: &Vec<CanValueConfig>) -> (r: bool)
    ensures
        r == types_known(values@),
{
    let mut i: usize = 0;
    while i < values.len()
        invariant
            i <= values@.len(),
            forall|j: int| 0 <= j < i ==> perxml_format(#[trigger] values@[j].ty@) is Some,
        decreases values@.len() - i,
    {
        if perxml_type(values[i].ty.as_str()).is_none() {
            return false;
        }
        i = i + 1;
    }
    true
}

/// Puts one configured value, whose type name is known, into the tree at
/// its path. `base` and `earlier` say where the tree comes from.
fn insert_value(
    value: &CanValueConfig,
    tree: &mut Tree,
    Ghost(base): Ghost<Seq<Entry>>,
    Ghost(earlier): Ghost<Seq<Seq<Seq<char>>>>,
) -> (r: Result<(DataType, NodeID), SchemaError>)
    requires
        old(tree).wf(),
        tracks(old(tree).entries(), base, earlier),
        perxml_format(value.ty@) is Some,
    ensures
        final(tree).wf(),
        final(tree).name_spec() == old(tree).name_spec(),
        ({
            let p = dot_split(value.access_string@);
            let before = old(tree).entries();
            let after = final(tree).entries();
            &&& p.len() >= 1
            &&& r is Err ==> after == before
            &&& clash(base, earlier, p) matches Some(e) ==> r == Err::<(DataType, NodeID), SchemaError>(e)
            &&& clash(base, earlier, p) is None && before.len() + p.len() <= MAX_NODES ==> r is Ok
            &&& r matches Err(e) ==> clash(base, earlier, p) == Some(e) || (e == SchemaError::TooManyNodes
                && clash(base, earlier, p) is None && before.len() + p.len() > MAX_NODES)
            &&& r matches Ok(entry) ==> {
                &&& tracks(after, base, earlier.push(p))
                &&& before.len() <= after.len() <= before.len() + p.len()
                &&& after.subrange(0, before.len() as int) == before
                &&& entry_matches(after, entry, *value)
                &&& entry.1 >= before.len()
            }
        }),
{
    let format = match perxml_type(value.ty.as_str()) {
        Some(f) => f,
        None => vstd::pervasive::unreached(),
    };
    let segs = split_dots(value.access_string.as_str());
    let labels = match &value.enum_values {
        Some(e) => Some(split_dots(e.as_str())),
        None => None,
    };
    let data_type = Type::new(format, value.unit.clone(), labels);
    let ghost before = tree.entries();
    let ghost p = strings_view(segs@);
    proof {
        lemma_clash_tracked(before, base, earlier, p);
    }
    let id = tree.insert_variable(&segs, data_type, value.name.clone(), value.description.clone())?;
    proof {
        let after = tree.entries();
        assert(after.subrange(0, before.len() as int) =~= before);
        lemma_tracks_step(base, earlier, before, after, p, id as int);
        assert(entry_valid(after, (format, id)));
    }
    Ok((format, id))
}

/// The layout of the values of one CAN id, where the tree tracks `base`
/// with the variables at `earlier` gone in; see `insert_nodes`.
fn insert_nodes_from(
    can_id: &CanIdConfig,
    tree: &mut Tree,
    id_map: &mut HashMap<u32, Vec<(DataType, NodeID)>>,
    Ghost(base): Ghost<Seq<Entry>>,
    Ghost(earlier): Ghost<Seq<Seq<Seq<char>>>>,
    Ghost(l0): Ghost<int>,
) -> (r: Result<(), SchemaError>)
    requires
        old(tree).wf(),
        layouts_valid(old(tree).entries(), old(id_map)@),
        tracks(old(tree).entries(), base, earlier),
        old(tree).entries().len() <= l0 + sum_len(earlier, earlier.len() as int),
        forall|m: int| 0 <= m < earlier.len() ==> clash(base, earlier.subrange(0, m), #[trigger] earlier[m]) is None,
    ensures
        final(tree).wf(),
        final(tree).name_spec() == old(tree).name_spec(),
        old(tree).entries().len() <= final(tree).entries().len(),
        final(tree).entries().subrange(0, old(tree).entries().len() as int) == old(tree).entries(),
        layouts_valid(final(tree).entries(), final(id_map)@),
        r is Err ==> final(id_map)@ == old(id_map)@,
        (r == Err::<(), SchemaError>(SchemaError::UnknownType)) == !types_known(can_id.values@),
        r == Err::<(), SchemaError>(SchemaError::UnknownType) ==> final(tree).entries() == old(tree).entries(),
        ({
            let q = earlier + value_paths(can_id.values@);
            let o = earlier.len() as int;
            &&& types_known(can_id.values@) ==> match first_clash(base, q, o) {
                Some((j, e)) => l0 + sum_len(q, j) <= MAX_NODES ==> r == Err::<(), SchemaError>(e),
                None => l0 + sum_len(q, q.len() as int) <= MAX_NODES ==> r is Ok,
            }
            &&& r == Err::<(), SchemaError>(SchemaError::NotAGroup) || r == Err::<(), SchemaError>(
                SchemaError::DuplicatePath,
            ) ==> match first_clash(base, q, o) {
                Some((j, e)) => r == Err::<(), SchemaError>(e),
                None => false,
            }
            &&& r == Err::<(), SchemaError>(SchemaError::TooManyNodes) ==> types_known(can_id.values@)
                && l0 + sum_len(q, q.len() as int) > MAX_NODES && match first_clash(base, q, o) {
                Some((j, e)) => l0 + sum_len(q, j) > MAX_NODES,
                None => true,
            }
            &&& r is Ok ==> tracks(final(tree).entries(), base, q) && final(tree).entries().len()
                <= l0 + sum_len(q, q.len() as int) && forall|m: int|
                0 <= m < q.len() ==> clash(base, q.subrange(0, m), #[trigger] q[m]) is None
        }),
        r is Ok ==> final(id_map)@.dom() == old(id_map)@.dom().insert(can_id.id) && (forall|k: u32|
            k != can_id.id && old(id_map)@.contains_key(k) ==> final(id_map)@[k] == old(
            id_map,
        )@[k]) && final(id_map)@[can_id.id]@.len() == can_id.values@.len() && forall|j: int|
            0 <= j < can_id.values@.len() ==> entry_matches(
                final(tree).entries(),
                #[trigger] final(id_map)@[can_id.id]@[j],
                can_id.values@[j],
            ) && final(id_map)@[can_id.id]@[j].1 >= old(tree).entries().len(),
{
    broadcast use vstd::std_specs::hash::group_hash_axioms;

    let ghost start = tree.entries();
    let ghost ps = value_paths(can_id.values@);
    let ghost q = earlier + ps;
    let ghost o = earlier.len() as int;
    if !check_types(&can_id.values) {
        return Err(SchemaError::UnknownType);
    }
    proof {
        assert(q.subrange(0, o) =~= earlier);
        assert forall|m: int| 0 <= m < o implies clash(base, q.subrange(0, m), #[trigger] q[m]) is None by {
            assert(q.subrange(0, m) =~= earlier.subrange(0, m));
            assert(q[m] == earlier[m]);
        }
        lemma_sum_len_prefix(q, earlier, o);
    }
    let mut entries: Vec<(DataType, NodeID)> = Vec::new();
    let mut i: usize = 0;
    while i < can_id.values.len()
        invariant
            tree.wf(),
            tree.name_spec() == old(tree).name_spec(),
            start == old(tree).entries(),
            ps == value_paths(can_id.values@),
            q == earlier + ps,
            o == earlier.len(),
            types_known(can_id.values@),
            start.len() <= tree.entries().len(),
            tree.entries().subrange(0, start.len() as int) == start,
            *id_map == *old(id_map),
            layouts_valid(tree.entries(), id_map@),
            i <= can_id.values@.len(),
            entries@.len() == i,
            forall|j: int|
                0 <= j < i ==> entry_matches(tree.entries(), #[trigger] entries@[j], can_id.values@[j])
                    && entries@[j].1 >= start.len(),
            tracks(tree.entries(), base, q.subrange(0, o + i)),
            tree.entries().len() <= l0 + sum_len(q, o + i),
            forall|m: int| 0 <= m < o + i ==> clash(base, q.subrange(0, m), #[trigger] q[m]) is None,
        decreases can_id.values@.len() - i,
    {
        let ghost before = tree.entries();
        let ghost pos = o + i;
        proof {
            lemma_first_clash_from(base, q, o, pos);
            lemma_sum_len_mono(q, pos + 1, q.len() as int);
            assert(perxml_format(can_id.values@[i as int].ty@) is Some);
            assert(q[pos] == ps[i as int]);
            assert(ps[i as int] == dot_split(can_id.values@[i as int].access_string@));
        }
        let (format, id) = match insert_value(
            &can_id.values[i],
            tree,
            Ghost(base),
            Ghost(q.subrange(0, pos)),
        ) {
            Ok(entry) => entry,
            Err(e) => {
                proof {
                    lemma_sum_len_mono(q, pos, q.len() as int);
                    if e != SchemaError::TooManyNodes {
                        assert(first_clash(base, q, pos) == Some((pos, e)));
                    } else {
                        assert(first_clash(base, q, o) == first_clash(base, q, pos + 1)) by {
                            lemma_first_clash_from(base, q, o, pos + 1);
                        }
                        if let Some((j, e2)) = first_clash(base, q, o) {
                            lemma_first_clash_ge(base, q, pos + 1);
                            lemma_sum_len_mono(q, pos + 1, j);
                        }
                    }
                }
                return Err(e);
            },
        };
        proof {
            let after = tree.entries();
            assert(after.subrange(0, start.len() as int) =~= after.subrange(0, before.len() as int).subrange(0, start.len() as int));
            assert forall|j: int| 0 <= j < i implies entry_matches(after, #[trigger] entries@[j], can_id.values@[j])
                && entries@[j].1 >= start.len() by {
                let e = entries@[j];
                assert(entry_matches(before, e, can_id.values@[j]));
                lemma_entry_valid_kept(before, after, e);
                lemma_path_prefix(before, after, e.1 as int);
            }
            assert forall|k: u32, j: int|
                id_map@.contains_key(k) && 0 <= j < id_map@[k]@.len() implies entry_valid(after, #[trigger] id_map@[k]@[j]) by {
                lemma_entry_valid_kept(before, after, id_map@[k]@[j]);
            }
            assert(q.subrange(0, pos).push(q[pos]) =~= q.subrange(0, pos + 1));
            assert forall|m: int| 0 <= m < pos + 1 implies clash(base, q.subrange(0, m), #[trigger] q[m]) is None by {
            }
        }
        entries.push((format, id));
        proof {
            assert(entry_matches(tree.entries(), entries@[i as int], can_id.values@[i as int]));
        }
        i = i + 1;
    }
    proof {
        assert(q.subrange(0, q.len() as int) =~= q);
        lemma_first_clash_from(base, q, o, q.len() as int);
    }
    let ghost final_entries = entries@;
    id_map.insert(can_id.id, entries);
    proof {
        assert forall|k: u32, j: int|
            id_map@.contains_key(k) && 0 <= j < id_map@[k]@.len() implies entry_valid(tree.entries(), #[trigger] id_map@[k]@[j]) by {
            if k == can_id.id {
                assert(entry_matches(tree.entries(), final_entries[j], can_id.values@[j]));
            }
        }
        assert(id_map@.dom() =~= old(id_map)@.dom().insert(can_id.id));
    }
    Ok(())
}

/// The sum over a prefix is the sum over the sequence it is a prefix of.
proof fn lemma_sum_len_prefix(q: Seq<Seq<Seq<char>>>, a: Seq<Seq<Seq<char>>>, n: int)
    requires
        0 <= n <= a.len() <= q.len(),
        q.subrange(0, a.len() as int) == a,
    ensures
        sum_len(q, n) == sum_len(a, n),
    decreases n,
{
    if n > 0 {
        assert(q[n - 1] == q.subrange(0, a.len() as int)[n - 1]);
        lemma_sum_len_prefix(q, a, n - 1);
    }
}

/// Puts the values of one CAN id into the tree, in order, and records the
/// layout of that id: the format and the new variable of each value.
///
/// An unknown type name is found before anything changes. Otherwise the
/// first value whose path runs through a variable (`NotAGroup`) or is taken
/// already (`DuplicatePath`) stops the work, as does running out of ids;
/// the values before it stay in the tree, and the layouts are left as they
/// were. Success is owed where no value clashes and the segments of all
/// paths fit among the ids left.
pub fn insert_nodes(
    can_id: &CanIdConfig,
    tree: &mut Tree,
    id_map: &mut HashMap<u32, Vec<(DataType, NodeID)>>,
) -> (r: Result<(), SchemaError>)
    requires
        old(tree).wf(),
        layouts_valid(old(tree).entries(), old(id_map)@),
    ensures
        final(tree).wf(),
        final(tree).name_spec() == old(tree).name_spec(),
        old(tree).entries().len() <= final(tree).entries().len(),
        final(tree).entries().subrange(0, old(tree).entries().len() as int) == old(tree).entries(),
        layouts_valid(final(tree).entries(), final(id_map)@),
        r is Err ==> final(id_map)@ == old(id_map)@,
        (r == Err::<(), SchemaError>(SchemaError::UnknownType)) == !types_known(can_id.values@),
        r == Err::<(), SchemaError>(SchemaError::UnknownType) ==> final(tree).entries() == old(tree).entries(),
        ({
            let base = old(tree).entries();
            let ps = value_paths(can_id.values@);
            &&& types_known(can_id.values@) && first_clash(base, ps, 0) is None && base.len()
                + sum_len(ps, ps.len() as int) <= MAX_NODES ==> r is Ok
            &&& types_known(can_id.values@) ==> match first_clash(base, ps, 0) {
                Some((j, e)) => base.len() + sum_len(ps, j) <= MAX_NODES ==> r == Err::<
                    (),
                    SchemaError,
                >(e),
                None => true,
            }
            &&& r == Err::<(), SchemaError>(SchemaError::NotAGroup) || r == Err::<(), SchemaError>(
                SchemaError::DuplicatePath,
            ) ==> match first_clash(base, ps, 0) {
                Some((j, e)) => r == Err::<(), SchemaError>(e),
                None => false,
            }
            &&& r == Err::<(), SchemaError>(SchemaError::TooManyNodes) ==> types_known(can_id.values@)
                && base.len() + sum_len(ps, ps.len() as int) > MAX_NODES
            &&& r is Ok ==> tracks(final(tree).entries(), base, ps) && final(tree).entries().len()
                <= base.len() + sum_len(ps, ps.len() as int)
        }),
        r is Ok ==> final(id_map)@.dom() == old(id_map)@.dom().insert(can_id.id) && (forall|k: u32|
            k != can_id.id && old(id_map)@.contains_key(k) ==> final(id_map)@[k] == old(
            id_map,
        )@[k]) && final(id_map)@[can_id.id]@.len() == can_id.values@.len() && forall|j: int|
            0 <= j < can_id.values@.len() ==> entry_matches(
                final(tree).entries(),
                #[trigger] final(id_map)@[can_id.id]@[j],
                can_id.values@[j],
            ) && final(id_map)@[can_id.id]@[j].1 >= old(tree).entries().len(),
{
    let ghost base = tree.entries();
    let ghost ps = value_paths(can_id.values@);
    proof {
        lemma_tracks_start(base);
        assert(Seq::<Seq<Seq<char>>>::empty() + ps =~= ps);
    }
    insert_nodes_from(can_id, tree, id_map, Ghost(base), Ghost(Seq::empty()), Ghost(base.len() as int))
}

/// A clash found from position `j` on lies at `j` or after it.
proof fn lemma_first_clash_ge(nodes: Seq<Entry>, ps: Seq<Seq<Seq<char>>>, j: int)
    ensures
        first_clash(nodes, ps, j) matches Some((m, e)) ==> j <= m < ps.len() && clash(
            nodes,
            ps.subrange(0, m),
            ps[m],
        ) == Some(e),
    decreases ps.len() - j,
{
    if 0 <= j < ps.len() {
        lemma_first_clash_ge(nodes, ps, j + 1);
    }
}

/// The position of the last of the first `n` entries of `ids` for CAN id
/// `k`, or -1 where there is none.
pub open spec fn last_with_id(ids: Seq<CanIdConfig>, n: int, k: u32) -> int
    decreases n,
{
    if n <= 0 {
        -1
    } else if ids[n - 1].id == k {
        n - 1
    } else {
        last_with_id(ids, n - 1, k)
    }
}

/// Whether `layout` stands, entry for entry, for the configured `values`.
pub open spec fn layout_matches(
    nodes: Seq<Entry>,
    layout: Seq<(DataType, NodeID)>,
    values: Seq<CanValueConfig>,
) -> bool {
    &&& layout.len() == values.len()
    &&& forall|j: int| 0 <= j < layout.len() ==> entry_matches(nodes, #[trigger] layout[j], values[j])
}

proof fn lemma_path_prefix(old_nodes: Seq<Entry>, nodes: Seq<Entry>, i: int)
    requires
        0 <= i < old_nodes.len() <= nodes.len(),
        nodes.subrange(0, old_nodes.len() as int) == old_nodes,
    ensures
        path_of(nodes, i) == path_of(old_nodes, i),
    decreases i,
{
    assert(nodes[i] == nodes.subrange(0, old_nodes.len() as int)[i]);
    if i > 0 && (old_nodes[i].parent as int) < i {
        lemma_path_prefix(old_nodes, nodes, old_nodes[i].parent as int);
    }
}

proof fn lemma_layout_kept(
    old_nodes: Seq<Entry>,
    nodes: Seq<Entry>,
    layout: Seq<(DataType, NodeID)>,
    values: Seq<CanValueConfig>,
)
    requires
        layout_matches(old_nodes, layout, values),
        old_nodes.len() <= nodes.len(),
        nodes.subrange(0, old_nodes.len() as int) == old_nodes,
    ensures
        layout_matches(nodes, layout, values),
{
    assert forall|j: int| 0 <= j < layout.len() implies entry_matches(nodes, #[trigger] layout[j], values[j]) by {
        let e = layout[j];
        assert(entry_matches(old_nodes, e, values[j]));
        lemma_entry_valid_kept(old_nodes, nodes, e);
        lemma_path_prefix(old_nodes, nodes, e.1 as int);
    }
}

/// The paths of the values of the first `n` configuration entries, in order.
pub open spec fn flat_paths(ids: Seq<CanIdConfig>, n: int) -> Seq<Seq<Seq<char>>>
    decreases n,
{
    if n <= 0 {
        Seq::empty()
    } else {
        flat_paths(ids, n - 1) + value_paths(ids[n - 1].values@)
    }
}

/// Whether every value of every configuration entry names a known type.
pub open spec fn all_types_known(ids: Seq<CanIdConfig>) -> bool {
    forall|c: int| 0 <= c < ids.len() ==> types_known(#[trigger] ids[c].values@)
}

proof fn lemma_flat_prefix(ids: Seq<CanIdConfig>, a: int, b: int)
    requires
        0 <= a <= b <= ids.len(),
    ensures
        flat_paths(ids, a).len() <= flat_paths(ids, b).len(),
        flat_paths(ids, b).subrange(0, flat_paths(ids, a).len() as int) == flat_paths(ids, a),
    decreases b - a,
{
    if a < b {
        lemma_flat_prefix(ids, a, b - 1);
        let fa = flat_paths(ids, a);
        let fb1 = flat_paths(ids, b - 1);
        let fb = flat_paths(ids, b);
        assert(fb.subrange(0, fb1.len() as int) =~= fb1);
        assert(fb.subrange(0, fa.len() as int) =~= fb1.subrange(0, fa.len() as int));
    } else {
        assert(flat_paths(ids, b).subrange(0, flat_paths(ids, a).len() as int) =~= flat_paths(ids, a));
    }
}

/// The first clash among the first `n` paths is the first clash, where it
/// lies before `n`.
proof fn lemma_first_clash_trunc(base: Seq<Entry>, ps: Seq<Seq<Seq<char>>>, n: int, i: int)
    requires
        0 <= i <= n <= ps.len(),
    ensures
        first_clash(base, ps.subrange(0, n), i) == match first_clash(base, ps, i) {
            Some((j, e)) => if j < n {
                Some((j, e))
            } else {
                None
            },
            None => None,
        },
    decreases n - i,
{
    let q = ps.subrange(0, n);
    if i < n {
        assert(q.subrange(0, i) =~= ps.subrange(0, i));
        assert(q[i] == ps[i]);
        lemma_first_clash_trunc(base, ps, n, i + 1);
        lemma_first_clash_ge(base, ps, i + 1);
    } else {
        lemma_first_clash_ge(base, ps, i);
    }
}

/// A fresh tree holds no non-empty path.
proof fn lemma_tracks_fresh(nodes: Seq<Entry>)
    requires
        tree_wf(nodes),
        nodes.len() == 1,
    ensures
        tracks(nodes, Seq::empty(), Seq::empty()),
{
    assert forall|q: Seq<Seq<char>>| q.len() >= 1 implies (has_path(nodes, q) <==> present(Seq::empty(), Seq::empty(), q)) by {
        if has_path(nodes, q) {
            let i = choose|i: int| 0 <= i < nodes.len() && path_of(nodes, i) == q;
            assert(i == 0);
        }
    }
    assert forall|q: Seq<Seq<char>>| q.len() >= 1 implies (has_var(nodes, q) <==> var_at(Seq::empty(), Seq::empty(), q)) by {
        if has_var(nodes, q) {
            let i = choose|i: int| 0 <= i < nodes.len() && path_of(nodes, i) == q && !is_group(nodes, i);
            assert(i == 0);
        }
    }
}

/// Builds the tree of a CAN device and the layout of each of its ids from
/// the configuration, in configuration order. Each id's layout stands for
/// the last configuration entry with that id.
///
/// An unknown type name anywhere is found before anything is built.
/// Otherwise the first value, in configuration order, whose path runs
/// through a variable or is taken already gives `NotAGroup` or
/// `DuplicatePath`. Success is owed where no value clashes and the
/// segments of all paths fit among the ids of one tree.
pub fn build_can_tree(name: String, ids: &Vec<CanIdConfig>) -> (r: Result<
    (Tree, HashMap<u32, Vec<(DataType, NodeID)>>),
    SchemaError,
>)
    ensures
        (r is Err && r->Err_0 == SchemaError::UnknownType) == !all_types_known(ids@),
        ({
            let ps = flat_paths(ids@, ids@.len() as int);
            let fresh = Seq::<Entry>::empty();
            &&& all_types_known(ids@) && first_clash(fresh, ps, 0) is None && 1 + sum_len(
                ps,
                ps.len() as int,
            ) <= MAX_NODES ==> r is Ok
            &&& all_types_known(ids@) ==> match first_clash(fresh, ps, 0) {
                Some((j, e)) => 1 + sum_len(ps, j) <= MAX_NODES ==> r is Err && r->Err_0 == e,
                None => true,
            }
            &&& r is Err && (r->Err_0 == SchemaError::NotAGroup || r->Err_0
                == SchemaError::DuplicatePath) ==> match first_clash(fresh, ps, 0) {
                Some((j, e)) => r->Err_0 == e,
                None => false,
            }
            &&& r is Err && r->Err_0 == SchemaError::TooManyNodes ==> all_types_known(ids@) && 1
                + sum_len(ps, ps.len() as int) > MAX_NODES
        }),
        r matches Ok((tree, m)) ==> {
            &&& tree.wf()
            &&& tree.name_spec() == name@
            &&& layouts_valid(tree.entries(), m@)
            &&& forall|k: u32| #[trigger] m@.contains_key(k) <==> last_with_id(ids@, ids@.len() as int, k) >= 0
            &&& forall|k: u32| #[trigger] m@.contains_key(k) ==> layout_matches(
                tree.entries(),
                m@[k]@,
                ids@[last_with_id(ids@, ids@.len() as int, k)].values@,
            )
        },
{
    broadcast use vstd::std_specs::hash::group_hash_axioms;

    let ghost all = flat_paths(ids@, ids@.len() as int);
    let ghost fresh = Seq::<Entry>::empty();
    let mut c: usize = 0;
    while c < ids.len()
        invariant
            c <= ids@.len(),
            forall|d: int| 0 <= d < c ==> types_known(#[trigger] ids@[d].values@),
        decreases ids@.len() - c,
    {
        if !check_types(&ids[c].values) {
            return Err(SchemaError::UnknownType);
        }
        c = c + 1;
    }
    let mut tree = Tree::new(name);
    let mut id_map: HashMap<u32, Vec<(DataType, NodeID)>> = HashMap::new();
    proof {
        lemma_tracks_fresh(tree.entries());
    }
    let mut i: usize = 0;
    while i < ids.len()
        invariant
            all_types_known(ids@),
            all == flat_paths(ids@, ids@.len() as int),
            fresh == Seq::<Entry>::empty(),
            tree.wf(),
            tree.name_spec() == name@,
            layouts_valid(tree.entries(), id_map@),
            i <= ids@.len(),
            tracks(tree.entries(), fresh, flat_paths(ids@, i as int)),
            tree.entries().len() <= 1 + sum_len(flat_paths(ids@, i as int), flat_paths(ids@, i as int).len() as int),
            forall|m: int| 0 <= m < flat_paths(ids@, i as int).len() ==> clash(
                fresh,
                flat_paths(ids@, i as int).subrange(0, m),
                #[trigger] flat_paths(ids@, i as int)[m],
            ) is None,
            forall|k: u32| #[trigger] id_map@.contains_key(k) <==> last_with_id(ids@, i as int, k) >= 0,
            forall|k: u32| #[trigger] id_map@.contains_key(k) ==> 0 <= last_with_id(ids@, i as int, k) < i
                && layout_matches(
                tree.entries(),
                id_map@[k]@,
                ids@[last_with_id(ids@, i as int, k)].values@,
            ),
        decreases ids@.len() - i,
    {
        let ghost before = id_map@;
        let ghost old_nodes = tree.entries();
        let ghost f = flat_paths(ids@, i as int);
        let ghost f1 = flat_paths(ids@, i + 1);
        proof {
            assert(types_known(ids@[i as int].values@));
            assert(f1 == f + value_paths(ids@[i as int].values@));
            lemma_flat_prefix(ids@, i as int, ids@.len() as int);
            lemma_flat_prefix(ids@, i + 1, ids@.len() as int);
            assert forall|m: int| 0 <= m < f.len() implies clash(fresh, all.subrange(0, m), #[trigger] all[m]) is None by {
                assert(all.subrange(0, m) =~= f.subrange(0, m));
                assert(all[m] == all.subrange(0, f.len() as int)[m]);
            }
            lemma_first_clash_from(fresh, all, 0, f.len() as int);
            lemma_first_clash_trunc(fresh, all, f1.len() as int, f.len() as int);
            lemma_sum_len_prefix(all, f1, f1.len() as int);
            lemma_sum_len_mono(all, f1.len() as int, all.len() as int);
            lemma_first_clash_ge(fresh, all, f.len() as int);
        }
        match insert_nodes_from(&ids[i], &mut tree, &mut id_map, Ghost(fresh), Ghost(f), Ghost(1int)) {
            Ok(()) => {},
            Err(e) => {
                proof {
                    if let Some((j, e2)) = first_clash(fresh, all, 0) {
                        if j < f1.len() {
                            lemma_sum_len_prefix(all, f1, j);
                        } else {
                            lemma_sum_len_mono(all, f1.len() as int, j);
                        }
                    }
                }
                return Err(e);
            },
        }
        proof {
            let c = ids@[i as int];
            assert forall|k: u32| #[trigger] id_map@.contains_key(k) <==> last_with_id(ids@, i + 1, k) >= 0 by {
                if k != c.id {
                    assert(last_with_id(ids@, i + 1, k) == last_with_id(ids@, i as int, k));
                }
            }
            assert forall|k: u32| #[trigger] id_map@.contains_key(k) implies 0 <= last_with_id(ids@, i + 1, k) < i + 1
                && layout_matches(
                tree.entries(),
                id_map@[k]@,
                ids@[last_with_id(ids@, i + 1, k)].values@,
            ) by {
                if k == c.id {
                    assert(last_with_id(ids@, i + 1, k) == i);
                    assert forall|j: int| 0 <= j < id_map@[k]@.len() implies entry_matches(
                        tree.entries(),
                        #[trigger] id_map@[k]@[j],
                        c.values@[j],
                    ) by {
                    }
                } else {
                    assert(last_with_id(ids@, i + 1, k) == last_with_id(ids@, i as int, k));
                    assert(before.contains_key(k));
                    lemma_layout_kept(
                        old_nodes,
                        tree.entries(),
                        before[k]@,
                        ids@[last_with_id(ids@, i as int, k)].values@,
                    );
                }
            }
        }
        i = i + 1;
    }
    proof {
        lemma_first_clash_from(fresh, all, 0, all.len() as int);
    }
    Ok((tree, id_map))
}

} // verus!
