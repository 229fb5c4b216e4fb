//! The mathematical model of the cluster map: a tree of weighted nodes, the
//! children of each node kept in the order of their names.

use vstd::prelude::*;
use crate::names::{
    lemma_name_before_total, lemma_name_before_transitive, lemma_sorted_names_distinct,
    name_before, names_sorted,
};
use crate::path::{components, is_name};

verus! {

/// A node of the cluster map together with everything below it.
///
/// `names[i]` is the name of the child `kids[i]`.
pub ghost struct Tree {
    pub weight: u64,
    pub out: bool,
    pub names: Seq<Seq<char>>,
    pub kids: Seq<Tree>,
}

/// The weight that results from adding `delta` to `weight`. Weights are
/// kept modulo 2^64: taking away more than is there wraps around.
pub open spec fn wrapped(weight: u64, delta: i64) -> u64 {
    if weight + delta > u64::MAX {
        (weight + delta - 0x1_0000_0000_0000_0000) as u64
    } else if weight + delta < 0 {
        (weight + delta + 0x1_0000_0000_0000_0000) as u64
    } else {
        (weight + delta) as u64
    }
}

/// The place at which `name` stands, or would have to be put, in a sorted
/// list of names: the number of names that come before it.
pub open spec fn slot(names: Seq<Seq<char>>, name: Seq<char>) -> int
    decreases names.len(),
{
    if names.len() == 0 || !name_before(names[0], name) {
        0
    } else {
        1 + slot(names.drop_first(), name)
    }
}

/// The sum of the weights of the given nodes.
pub open spec fn kids_weight(kids: Seq<Tree>) -> int
    decreases kids.len(),
{
    if kids.len() == 0 {
        0
    } else {
        kids_weight(kids.drop_last()) + kids.last().weight
    }
}

impl Tree {
    /// A node without weight and without children, in service: the tree of
    /// a new cluster map, and every node as it is first created.
    pub open spec fn empty() -> Tree {
        Tree { weight: 0, out: false, names: Seq::empty(), kids: Seq::empty() }
    }

    /// A node without children: a place where data can be put.
    pub open spec fn is_leaf(self) -> bool {
        self.kids.len() == 0
    }

    /// Every child has a name, the names hold no separator and stand in
    /// strictly rising order, and the same holds below each child.
    pub open spec fn valid(self) -> bool
        decreases self,
    {
        &&& self.names.len() == self.kids.len()
        &&& names_sorted(self.names)
        &&& forall|i: int| 0 <= i < self.names.len() ==> is_name(#[trigger] self.names[i])
        &&& forall|i: int| 0 <= i < self.kids.len() ==> (#[trigger] self.kids[i]).valid()
    }

    /// The index of the child called `name`, if there is one.
    pub open spec fn position(self, name: Seq<char>) -> Option<int> {
        if self.names.contains(name) {
            Some(self.names.index_of(name))
        } else {
            None
        }
    }

    /// The node reached by going down the given names, if every one of them
    /// names a child of the node reached before.
    pub open spec fn resolve(self, names: Seq<Seq<char>>) -> Option<Tree>
        decreases names.len(),
    {
        if names.len() == 0 {
            Some(self)
        } else {
            match self.position(names[0]) {
                Some(i) => self.kids[i].resolve(names.drop_first()),
                None => None,
            }
        }
    }

    /// The node that a path addresses.
    pub open spec fn lookup(self, path: Seq<char>) -> Option<Tree> {
        self.resolve(components(path))
    }

    /// The node with a child called `name`: the node itself where it has
    /// one, else the node with a new empty child put in at its place in the
    /// order of names.
    pub open spec fn with_child(self, name: Seq<char>) -> Tree {
        if self.position(name) is Some {
            self
        } else {
            let at = slot(self.names, name);
            Tree {
                names: self.names.insert(at, name),
                kids: self.kids.insert(at, Tree::empty()),
                ..self
            }
        }
    }

    /// The tree after `delta` was added to the weight of this node and of
    /// every node down the given names, nodes that were missing on the way
    /// being created first.
    pub open spec fn add_weight(self, names: Seq<Seq<char>>, delta: i64) -> Tree
        decreases names.len(),
    {
        let bumped = Tree { weight: wrapped(self.weight, delta), ..self };
        if names.len() == 0 {
            bumped
        } else {
            let grown = bumped.with_child(names[0]);
            let at = grown.position(names[0]).unwrap();
            Tree {
                kids: grown.kids.update(
                    at,
                    grown.kids[at].add_weight(names.drop_first(), delta),
                ),
                ..grown
            }
        }
    }

    /// The tree with the node down the given names replaced by `sub`. Where
    /// the names lead to no node, the tree itself.
    pub open spec fn replaced(self, names: Seq<Seq<char>>, sub: Tree) -> Tree
        decreases names.len(),
    {
        if names.len() == 0 {
            sub
        } else {
            match self.position(names[0]) {
                Some(i) => Tree {
                    kids: self.kids.update(i, self.kids[i].replaced(names.drop_first(), sub)),
                    ..self
                },
                None => self,
            }
        }
    }

    /// The tree after the node down the given names was marked in or out of
    /// service. Where the names lead to no node, the tree itself.
    pub open spec fn with_out(self, names: Seq<Seq<char>>, out: bool) -> Tree {
        match self.resolve(names) {
            Some(node) => self.replaced(names, Tree { out: out, ..node }),
            None => self,
        }
    }

    /// The weight of the node down the given names, and nothing where they
    /// lead to no node.
    pub open spec fn weight_at(self, names: Seq<Seq<char>>) -> u64 {
        match self.resolve(names) {
            Some(node) => node.weight,
            None => 0,
        }
    }

    /// The weight of every node that has children is the sum of their
    /// weights.
    pub open spec fn balanced(self) -> bool
        decreases self,
    {
        &&& !self.is_leaf() ==> self.weight == kids_weight(self.kids)
        &&& forall|i: int| 0 <= i < self.kids.len() ==> (#[trigger] self.kids[i]).balanced()
    }
}

/// `slot` is the one place that has only earlier names before it and no
/// earlier name at it.
pub proof fn lemma_slot(names: Seq<Seq<char>>, name: Seq<char>)
    ensures
        0 <= slot(names, name) <= names.len(),
        forall|j: int| 0 <= j < slot(names, name) ==> name_before(names[j], name),
        slot(names, name) < names.len() ==> !name_before(names[slot(names, name)], name),
    decreases names.len(),
{
    if names.len() > 0 && name_before(names[0], name) {
        let rest = names.drop_first();
        lemma_slot(rest, name);
        assert forall|j: int| 0 <= j < slot(names, name) implies name_before(names[j], name) by {
            if j > 0 {
                assert(names[j] == rest[j - 1]);
            }
        }
    }
}

/// A place that has only earlier names before it and no earlier name at it
/// is the slot.
pub proof fn lemma_slot_unique(names: Seq<Seq<char>>, name: Seq<char>, k: int)
    requires
        0 <= k <= names.len(),
        forall|j: int| 0 <= j < k ==> name_before(names[j], name),
        k < names.len() ==> !name_before(names[k], name),
    ensures
        slot(names, name) == k,
    decreases names.len(),
{
    if names.len() > 0 && name_before(names[0], name) {
        lemma_slot_unique(names.drop_first(), name, k - 1);
    }
}

/// In a valid tree a child is found at `i` exactly if `i` holds its name.
pub proof fn lemma_position(t: Tree, name: Seq<char>, i: int)
    requires
        names_sorted(t.names),
        0 <= i < t.names.len(),
        t.names[i] == name,
    ensures
        t.position(name) == Some(i),
{
    lemma_sorted_names_distinct(t.names);
}

/// Putting a missing child in at its slot keeps the node valid, and the
/// child is then found there.
pub proof fn lemma_with_child(t: Tree, name: Seq<char>)
    requires
        t.valid(),
        is_name(name),
    ensures
        t.with_child(name).valid(),
        t.with_child(name).weight == t.weight,
        t.with_child(name).out == t.out,
        t.position(name) is Some ==> t.with_child(name) == t,
        t.position(name) is None ==> {
            &&& t.with_child(name).position(name) == Some(slot(t.names, name))
            &&& t.with_child(name).kids[slot(t.names, name)] == Tree::empty()
        },
{
    if t.position(name) is None {
        let at = slot(t.names, name);
        let g = t.with_child(name);
        lemma_slot(t.names, name);
        assert forall|i: int, j: int| 0 <= i < j < g.names.len() implies name_before(
            g.names[i],
            g.names[j],
        ) by {
            if i == at {
                // The name that stood at the slot is not before `name`, nor
                // the same: `name` comes before it and all behind it.
                lemma_name_before_total(t.names[at], name);
                if j - 1 > at {
                    lemma_name_before_transitive(name, t.names[at], t.names[j - 1]);
                }
            }
        }
        assert(forall|i: int| 0 <= i < g.names.len() ==> is_name(#[trigger] g.names[i]));
        assert(forall|i: int| 0 <= i < g.kids.len() ==> (#[trigger] g.kids[i]).valid());
        lemma_position(g, name, at);
    }
}

/// Adding weight keeps a tree valid.
pub proof fn lemma_add_weight_valid(t: Tree, names: Seq<Seq<char>>, delta: i64)
    requires
        t.valid(),
        forall|i: int| 0 <= i < names.len() ==> is_name(#[trigger] names[i]),
    ensures
        t.add_weight(names, delta).valid(),
        t.add_weight(names, delta).weight == wrapped(t.weight, delta),
        t.add_weight(names, delta).out == t.out,
    decreases names.len(),
{
    if names.len() > 0 {
        let bumped = Tree { weight: wrapped(t.weight, delta), ..t };
        lemma_with_child(bumped, names[0]);
        let grown = bumped.with_child(names[0]);
        let at = grown.position(names[0]).unwrap();
        let rest = names.drop_first();
        assert(forall|i: int| 0 <= i < rest.len() ==> is_name(#[trigger] rest[i]));
        lemma_add_weight_valid(grown.kids[at], rest, delta);
    }
}

/// After weight was added down some names, the node at each part of the
/// way is there, and weighs what it weighed before and `delta` more.
pub proof fn lemma_add_weight_on_the_way(t: Tree, names: Seq<Seq<char>>, delta: i64, k: int)
    requires
        t.valid(),
        forall|i: int| 0 <= i < names.len() ==> is_name(#[trigger] names[i]),
        0 <= k <= names.len(),
    ensures
        t.add_weight(names, delta).resolve(names.take(k)) is Some,
        t.add_weight(names, delta).weight_at(names.take(k)) == wrapped(
            t.weight_at(names.take(k)),
            delta,
        ),
    decreases names.len(),
{
    if k == 0 {
        lemma_add_weight_valid(t, names, delta);
    } else {
        let bumped = Tree { weight: wrapped(t.weight, delta), ..t };
        lemma_with_child(bumped, names[0]);
        let grown = bumped.with_child(names[0]);
        let at = grown.position(names[0]).unwrap();
        let rest = names.drop_first();
        assert(forall|i: int| 0 <= i < rest.len() ==> is_name(#[trigger] rest[i]));
        lemma_add_weight_on_the_way(grown.kids[at], rest, delta, k - 1);
        assert(names.take(k).drop_first() =~= rest.take(k - 1));
    }
}

/// The node that replaces another is found where that one was.
pub proof fn lemma_replaced_resolve(t: Tree, names: Seq<Seq<char>>, sub: Tree)
    requires
        t.valid(),
        t.resolve(names) is Some,
    ensures
        t.replaced(names, sub).resolve(names) == Some(sub),
    decreases names.len(),
{
    if names.len() > 0 {
        let i = t.position(names[0]).unwrap();
        lemma_replaced_resolve(t.kids[i], names.drop_first(), sub);
    }
}

/// A node that was marked is found marked, and the same in all else.
pub proof fn lemma_with_out_marks(t: Tree, names: Seq<Seq<char>>, out: bool)
    requires
        t.valid(),
        t.resolve(names) is Some,
    ensures
        t.with_out(names, out).resolve(names) == Some(
            Tree { out: out, ..t.resolve(names).unwrap() },
        ),
{
    lemma_replaced_resolve(t, names, Tree { out: out, ..t.resolve(names).unwrap() });
}

/// Replacing a node by a valid one keeps a tree valid.
pub proof fn lemma_replaced_valid(t: Tree, names: Seq<Seq<char>>, sub: Tree)
    requires
        t.valid(),
        sub.valid(),
    ensures
        t.replaced(names, sub).valid(),
    decreases names.len(),
{
    if names.len() > 0 {
        if let Some(i) = t.position(names[0]) {
            lemma_replaced_valid(t.kids[i], names.drop_first(), sub);
        }
    }
}

/// What is reached in a valid tree is a valid tree.
pub proof fn lemma_resolve_valid(t: Tree, names: Seq<Seq<char>>)
    requires
        t.valid(),
    ensures
        t.resolve(names) matches Some(node) ==> node.valid(),
    decreases names.len(),
{
    if names.len() > 0 {
        if let Some(i) = t.position(names[0]) {
            lemma_resolve_valid(t.kids[i], names.drop_first());
        }
    }
}

/// Marking a node keeps a tree valid.
pub proof fn lemma_with_out_valid(t: Tree, names: Seq<Seq<char>>, out: bool)
    requires
        t.valid(),
    ensures
        t.with_out(names, out).valid(),
{
    lemma_resolve_valid(t, names);
    if let Some(node) = t.resolve(names) {
        lemma_replaced_valid(t, names, Tree { out: out, ..node });
    }
}

} // verus!
