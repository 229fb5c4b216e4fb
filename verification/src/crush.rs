//! The cluster map and what can be asked of it.

use vstd::prelude::*;
use crate::balance::{keeps_balance, lemma_add_weight_balanced};
use crate::error::CrushError;
use crate::node::{lemma_differs_below, Node};
use crate::path::{components, lemma_components_are_names};
use crate::select::{
    in_service_leaf, lemma_locate_succeeds, lemma_select_from, select, select_from, selected,
    serviceable, texts, MAX_FAILURES,
};
use crate::table::LnTable;
use crate::tree::{
    lemma_add_weight_on_the_way, lemma_with_out_marks, lemma_with_out_valid, wrapped, Tree,
};

verus! {

/// A cluster map: a weighted tree of storage locations, and the rule by
/// which placement groups are put on its leaves.
pub struct Crush {
    root: Node,
}

impl Crush {
    #[verifier::type_invariant]
    spec fn well_formed(&self) -> bool {
        self.root@.valid()
    }

    /// The tree that the map holds.
    pub closed spec fn view(&self) -> Tree {
        self.root@
    }

    /// A cluster map without any node but its root.
    pub fn new() -> (map: Crush)
        ensures
            map@ == Tree::empty(),
    {
        Crush { root: Node::new() }
    }

    /// Adds `weight` to the node at `path` and to every node above it.
    /// Nodes that the path names and that are not there are created first,
    /// without weight and in service.
    pub fn add_weight(&mut self, path: &str, weight: i64)
        ensures
            final(self)@ == old(self)@.add_weight(components(path@), weight),
            final(self)@.valid(),
            final(self)@.weight == wrapped(old(self)@.weight, weight),
            final(self)@.lookup(path@) is Some,
            final(self)@.weight_at(components(path@)) == wrapped(
                old(self)@.weight_at(components(path@)),
                weight,
            ),
            old(self)@.balanced() ==> (final(self)@.balanced() <==> keeps_balance(
                old(self)@,
                components(path@),
                weight,
            )),
    {
        proof {
            use_type_invariant(&*self);
            let names = components(path@);
            lemma_components_are_names(path@);
            lemma_add_weight_on_the_way(self@, names, weight, 0);
            lemma_add_weight_on_the_way(self@, names, weight, names.len() as int);
            assert(names.take(names.len() as int) =~= names);
            if self@.balanced() {
                lemma_add_weight_balanced(self@, path@, weight);
            }
        }
        let mut root = Node::new();
        std::mem::swap(&mut root, &mut self.root);
        root.add_weight(path, weight);
        self.root = root;
    }

    /// The weight of the whole cluster.
    pub fn total_weight(&self) -> (weight: u64)
        ensures
            weight == self@.weight,
            self@.valid(),
    {
        proof {
            use_type_invariant(self);
        }
        self.root.weight
    }

    /// The weight of the node at `path`.
    pub fn get_weight(&self, path: &str) -> (weight: Result<u64, CrushError>)
        ensures
            match self@.lookup(path@) {
                Some(node) => weight == Ok::<u64, CrushError>(node.weight),
                None => weight == Err::<u64, CrushError>(CrushError::NodeNotFound),
            },
            self@.valid(),
    {
        proof {
            use_type_invariant(self);
        }
        match self.root.get(path) {
            Some(node) => Ok(node.weight),
            None => Err(CrushError::NodeNotFound),
        }
    }

    /// Whether the node at `path` is out of service.
    pub fn get_inout(&self, path: &str) -> (out: Result<bool, CrushError>)
        ensures
            match self@.lookup(path@) {
                Some(node) => out == Ok::<bool, CrushError>(node.out),
                None => out == Err::<bool, CrushError>(CrushError::NodeNotFound),
            },
            self@.valid(),
    {
        proof {
            use_type_invariant(self);
        }
        match self.root.get(path) {
            Some(node) => Ok(node.out),
            None => Err(CrushError::NodeNotFound),
        }
    }

    /// Marks the node at `path` as out of service (`true`) or in service
    /// (`false`). Nothing else changes, and nothing at all if there is no
    /// such node.
    pub fn set_inout(&mut self, path: &str, out: bool) -> (done: Result<(), CrushError>)
        ensures
            match old(self)@.lookup(path@) {
                Some(_) => done is Ok,
                None => done == Err::<(), CrushError>(CrushError::NodeNotFound),
            },
            final(self)@ == old(self)@.with_out(components(path@), out),
            final(self)@.valid(),
            old(self)@.lookup(path@) matches Some(node) ==> final(self)@.lookup(path@) == Some(
                Tree { out: out, ..node },
            ),
    {
        proof {
            use_type_invariant(&*self);
        }
        let mut root = Node::new();
        std::mem::swap(&mut root, &mut self.root);
        let ghost before = root@;
        let ghost mut after: Option<Tree> = None;
        let done = match root.get_mut(path) {
            Some(node) => {
                node.out = out;
                proof {
                    after = Some(node@);
                }
                Ok(())
            },
            None => Err(CrushError::NodeNotFound),
        };
        proof {
            lemma_differs_below(before, root@, components(path@), after);
            lemma_with_out_valid(before, components(path@), out);
            if before.lookup(path@) is Some {
                lemma_with_out_marks(before, components(path@), out);
            }
        }
        self.root = root;
        done
    }

    /// Selects the leaves that hold the `num` replicas of placement group
    /// `pgid`, and gives their paths in the order of the replicas.
    ///
    /// The result is the one that `select` describes, for this tree and
    /// this table, and so the same whenever it is asked for. Where it is a
    /// list of paths, there are `num` of them, all different, and each
    /// addresses a leaf that is in service.
    pub fn select(&self, table: &LnTable, pgid: u32, num: u32) -> (placed: Result<
        Vec<String>,
        CrushError,
    >)
        ensures
            selected(self@, table@, pgid, num, placed),
            placed matches Ok(paths) ==> {
                &&& paths.len() == num
                &&& texts(paths@).no_duplicates()
                &&& forall|i: int|
                    0 <= i < paths.len() ==> in_service_leaf(self@, #[trigger] paths[i]@)
            },
            self@.valid(),
    {
        proof {
            use_type_invariant(self);
            lemma_select_from(self@, table@, pgid, num as int, 0, Seq::empty(), 0);
        }
        let mut targets: Vec<String> = Vec::new();
        let mut failures: u32 = 0;
        let mut r: u32 = 0;
        assert(texts(targets@) =~= Seq::<Seq<char>>::empty());
        while r < num
            invariant
                self.root@.valid(),
                self@ == self.root@,
                r <= num,
                failures <= MAX_FAILURES,
                select(self@, table@, pgid, num) == select_from(
                    self@,
                    table@,
                    pgid,
                    num as int,
                    r as int,
                    texts(targets@),
                    failures as int,
                ),
            decreases num - r,
        {
            match self.root.place_replica(table, pgid, r, &targets, failures) {
                Ok((path, count)) => {
                    let ghost before = texts(targets@);
                    let ghost text = path@;
                    targets.push(path);
                    failures = count;
                    assert(texts(targets@) =~= before.push(text));
                },
                Err(e) => {
                    return Err(e);
                },
            }
            r = r + 1;
        }
        proof {
            let paths = texts(targets@);
            assert forall|i: int| 0 <= i < targets.len() implies in_service_leaf(
                self@,
                #[trigger] targets[i]@,
            ) by {
                assert(paths[i] == targets[i]@);
            }
        }
        Ok(targets)
    }

    /// Locates placement group `pgid`: the path of the leaf that holds its
    /// first replica.
    pub fn locate(&self, table: &LnTable, pgid: u32) -> (placed: Result<String, CrushError>)
        ensures
            match placed {
                Ok(path) => {
                    &&& select(self@, table@, pgid, 1) == Ok::<Seq<Seq<char>>, CrushError>(
                        seq![path@],
                    )
                    &&& in_service_leaf(self@, path@)
                },
                Err(e) => select(self@, table@, pgid, 1) == Err::<Seq<Seq<char>>, CrushError>(e),
            },
            serviceable(self@) && !self@.is_leaf() ==> placed is Ok,
            self@.valid(),
    {
        proof {
            if serviceable(self@) && !self@.is_leaf() {
                lemma_locate_succeeds(self@, table@, pgid);
            }
        }
        match self.select(table, pgid, 1) {
            Ok(mut paths) => {
                let ghost all = texts(paths@);
                match paths.pop() {
                    Some(path) => {
                        assert(all =~= seq![path@]);
                        Ok(path)
                    },
                    None => Err(CrushError::PlacementExhausted),
                }
            },
            Err(e) => Err(e),
        }
    }
}

impl Clone for Crush {
    /// A cluster map that holds the same tree.
    fn clone(&self) -> (copy: Crush)
        ensures
            copy@ == self@,
    {
        proof {
            use_type_invariant(self);
        }
        Crush { root: self.root.duplicate() }
    }
}

impl Default for Crush {
    /// A cluster map without any node but its root.
    fn default() -> (map: Crush)
        ensures
            map@ == Tree::empty(),
    {
        Crush::new()
    }
}

} // verus!
