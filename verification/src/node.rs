//! The cluster map as it is held in memory.

use vstd::prelude::*;
use vstd::string::StringExecFns;
use crate::names::{
    lemma_name_before_strict, lemma_name_before_transitive, name_before, name_order, NameOrder,
};
use crate::path::{
    components, is_name, lemma_components_are_names, lemma_first_slash, lemma_head_is_name,
    split_first, tail,
};
use crate::tree::{
    lemma_add_weight_valid, lemma_position, lemma_slot_unique, lemma_with_child, Tree,
};

verus! {

/// A node of the cluster map. It owns its children, which it keeps sorted by
/// name.
pub(crate) struct Node {
    pub(crate) weight: u64,
    pub(crate) out: bool,
    pub(crate) names: Vec<String>,
    pub(crate) kids: Vec<Node>,
}

impl Node {
    /// The tree that this node stands for.
    pub(crate) open spec fn view(&self) -> Tree
        decreases self,
    {
        Tree {
            weight: self.weight,
            out: self.out,
            names: Seq::new(self.names@.len(), |i: int| self.names@[i]@),
            kids: Seq::new(
                self.kids@.len(),
                |i: int|
                    if 0 <= i < self.kids@.len() {
                        self.kids@[i].view()
                    } else {
                        Tree::empty()
                    },
            ),
        }
    }

    /// A node without weight and without children, in service.
    pub(crate) fn new() -> (node: Node)
        ensures
            node@ == Tree::empty(),
    {
        let node = Node { weight: 0, out: false, names: Vec::new(), kids: Vec::new() };
        assert(node@.names =~= Seq::empty());
        assert(node@.kids =~= Seq::empty());
        node
    }

    /// Looks for the child called `name`.
    pub(crate) fn find(&self, name: &str) -> (found: Option<usize>)
        requires
            self@.valid(),
        ensures
            match found {
                Some(i) => self@.position(name@) == Some(i as int),
                None => self@.position(name@) is None,
            },
    {
        let mut i: usize = 0;
        while i < self.names.len()
            invariant
                self@.valid(),
                i <= self.names.len(),
                forall|j: int| 0 <= j < i ==> self@.names[j] != name@,
            decreases self.names.len() - i,
        {
            match name_order(name, self.names[i].as_str()) {
                NameOrder::Same => {
                    proof {
                        lemma_position(self@, name@, i as int);
                    }
                    return Some(i);
                },
                NameOrder::Before => {
                    proof {
                        assert forall|j: int| 0 <= j < self@.names.len() implies self@.names[j]
                            != name@ by {
                            lemma_name_before_strict(name@, name@);
                            if j > i {
                                lemma_name_before_transitive(
                                    name@,
                                    self@.names[i as int],
                                    self@.names[j],
                                );
                            }
                        }
                    }
                    return None;
                },
                NameOrder::After => {
                    proof {
                        lemma_name_before_strict(name@, name@);
                    }
                },
            }
            i = i + 1;
        }
        None
    }

    /// Finds the child called `name`, creating it empty if there is none,
    /// and says where it stands.
    pub(crate) fn child_slot(&mut self, name: &str) -> (at: usize)
        requires
            old(self)@.valid(),
            is_name(name@),
        ensures
            final(self)@ == old(self)@.with_child(name@),
            final(self)@.valid(),
            final(self)@.position(name@) == Some(at as int),
            at < final(self).kids.len(),
    {
        let mut i: usize = 0;
        while i < self.names.len()
            invariant
                *self == *old(self),
                self@.valid(),
                i <= self.names.len(),
                forall|j: int| 0 <= j < i ==> name_before(self@.names[j], name@),
            ensures
                i < self.names.len() ==> name_before(name@, self@.names[i as int]),
            decreases self.names.len() - i,
        {
            match name_order(name, self.names[i].as_str()) {
                NameOrder::Same => {
                    proof {
                        lemma_position(self@, name@, i as int);
                        lemma_with_child(self@, name@);
                    }
                    return i;
                },
                NameOrder::Before => {
                    break ;
                },
                NameOrder::After => {},
            }
            i = i + 1;
        }
        proof {
            let t = self@;
            lemma_name_before_strict(name@, name@);
            if i < t.names.len() {
                lemma_name_before_strict(name@, t.names[i as int]);
            }
            assert forall|j: int| 0 <= j < t.names.len() implies t.names[j] != name@ by {
                if j > i {
                    lemma_name_before_transitive(name@, t.names[i as int], t.names[j]);
                }
            }
            lemma_slot_unique(t.names, name@, i as int);
            lemma_with_child(t, name@);
        }
        let ghost before = self@;
        self.names.insert(i, String::from_str(name));
        self.kids.insert(i, Node::new());
        proof {
            let g = before.with_child(name@);
            assert(self@.names =~= g.names);
            assert(self@.kids =~= g.kids);
        }
        i
    }

    /// Adds `delta` to the weight of this node and of every node down the
    /// path, creating the nodes that are missing on the way.
    pub(crate) fn add_weight(&mut self, path: &str, delta: i64)
        requires
            old(self)@.valid(),
        ensures
            final(self)@ == old(self)@.add_weight(components(path@), delta),
            final(self)@.valid(),
        decreases path@.len(),
    {
        proof {
            lemma_components_are_names(path@);
            lemma_add_weight_valid(self@, components(path@), delta);
        }
        self.weight = self.weight.wrapping_add_signed(delta);
        if path.is_empty() {
            return ;
        }
        let (name, suffix) = split_first(path);
        proof {
            lemma_head_is_name(path@);
            lemma_first_slash(path@);
        }
        let at: usize = self.child_slot(name);
        self.kids[at].add_weight(suffix, delta);
        proof {
            let names = components(path@);
            assert(names.drop_first() =~= components(tail(path@)));
            assert(self@.kids =~= old(self)@.add_weight(names, delta).kids);
        }
    }

    /// The node that a path addresses.
    pub(crate) fn get(&self, path: &str) -> (found: Option<&Node>)
        requires
            self@.valid(),
        ensures
            match found {
                Some(node) => self@.lookup(path@) == Some(node@) && node@.valid(),
                None => self@.lookup(path@) is None,
            },
        decreases path@.len(),
    {
        if path.is_empty() {
            return Some(self);
        }
        let (name, suffix) = split_first(path);
        proof {
            lemma_first_slash(path@);
            assert(components(path@).drop_first() =~= components(tail(path@)));
        }
        match self.find(name) {
            Some(i) => self.kids[i].get(suffix),
            None => None,
        }
    }

    /// The node that a path addresses, to be changed in place.
    pub(crate) fn get_mut(&mut self, path: &str) -> (found: Option<&mut Node>)
        requires
            old(self)@.valid(),
        ensures
            match found {
                Some(node) => old(self)@.lookup(path@) == Some(node@),
                None => old(self)@.lookup(path@) is None,
            },
            differs_below(
                old(self)@,
                final(self)@,
                components(path@),
                match found {
                    Some(node) => Some(final(node)@),
                    None => None,
                },
            ),
        decreases path@.len(),
    {
        if path.is_empty() {
            return Some(self);
        }
        let (name, suffix) = split_first(path);
        proof {
            lemma_first_slash(path@);
            assert(components(path@).drop_first() =~= components(tail(path@)));
        }
        match self.find(name) {
            Some(i) => self.kids[i].get_mut(suffix),
            None => None,
        }
    }

    /// A copy of the node and of everything below it.
    pub(crate) fn duplicate(&self) -> (copy: Node)
        ensures
            copy@ == self@,
        decreases self,
    {
        let mut names: Vec<String> = Vec::new();
        let mut i: usize = 0;
        while i < self.names.len()
            invariant
                i <= self.names.len(),
                names.len() == i,
                forall|j: int| 0 <= j < i ==> names@[j]@ == self.names@[j]@,
            decreases self.names.len() - i,
        {
            names.push(self.names[i].clone());
            i = i + 1;
        }
        let mut kids: Vec<Node> = Vec::new();
        let mut k: usize = 0;
        while k < self.kids.len()
            invariant
                k <= self.kids.len(),
                kids.len() == k,
                forall|j: int| 0 <= j < k ==> kids@[j]@ == self.kids@[j]@,
            decreases self.kids.len() - k,
        {
            kids.push(self.kids[k].duplicate());
            k = k + 1;
        }
        let copy = Node { weight: self.weight, out: self.out, names, kids };
        assert(copy@.names =~= self@.names);
        assert(copy@.kids =~= self@.kids);
        copy
    }
}

/// `after` is `before` but for the node down `names`, which is now `sub`:
/// said child by child, as a borrow of that node leaves the tree behind.
/// Where the names lead to no node, there is no `sub` and the two trees are
/// the same.
pub(crate) open spec fn differs_below(
    before: Tree,
    after: Tree,
    names: Seq<Seq<char>>,
    sub: Option<Tree>,
) -> bool
    decreases names.len(),
{
    if names.len() == 0 {
        sub == Some(after)
    } else {
        match before.position(names[0]) {
            Some(i) => {
                &&& after.weight == before.weight
                &&& after.out == before.out
                &&& after.names =~= before.names
                &&& after.kids.len() == before.kids.len()
                &&& forall|j: int|
                    0 <= j < before.kids.len() && j != i ==> after.kids[j] == before.kids[j]
                &&& differs_below(before.kids[i], after.kids[i], names.drop_first(), sub)
            },
            None => after == before && sub is None,
        }
    }
}

/// What `differs_below` says child by child is the replacement of one node.
pub(crate) proof fn lemma_differs_below(
    before: Tree,
    after: Tree,
    names: Seq<Seq<char>>,
    sub: Option<Tree>,
)
    requires
        before.valid(),
        differs_below(before, after, names, sub),
    ensures
        match sub {
            Some(s) => before.resolve(names) is Some && after == before.replaced(names, s),
            None => before.resolve(names) is None && after == before,
        },
    decreases names.len(),
{
    if names.len() > 0 {
        if let Some(i) = before.position(names[0]) {
            lemma_differs_below(before.kids[i], after.kids[i], names.drop_first(), sub);
            match sub {
                Some(s) => {
                    assert(after.kids =~= before.replaced(names, s).kids);
                },
                None => {
                    assert(after.kids =~= before.kids);
                },
            }
        }
    }
}

} // verus!
