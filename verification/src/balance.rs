//! The bookkeeping of weights: when the weight of every node that has
//! children stays the sum of their weights.

use vstd::prelude::*;
use crate::path::{components, is_name, lemma_components_are_names};
use crate::tree::{
    kids_weight, lemma_add_weight_valid, lemma_slot, lemma_with_child, slot, wrapped, Tree,
};

verus! {

/// By how much adding `delta` changes `weight`: `delta` itself, unless the
/// sum leaves the range of a weight and wraps around.
pub open spec fn shift(weight: u64, delta: i64) -> int {
    wrapped(weight, delta) - weight
}

/// Adding `delta` down the given names leaves a balanced tree balanced.
///
/// That is so where the names end at a leaf (or nothing is added), where no
/// leaf that carries weight is given a child, and where the weight of every
/// node on the way changes by as much as that of the next: by `delta`
/// itself as long as no weight wraps around.
pub open spec fn keeps_balance(t: Tree, names: Seq<Seq<char>>, delta: i64) -> bool
    decreases names.len(),
{
    if names.len() == 0 {
        t.is_leaf() || delta == 0
    } else if t.is_leaf() {
        t.weight == 0
    } else {
        match t.position(names[0]) {
            Some(i) => {
                &&& shift(t.weight, delta) == shift(t.kids[i].weight, delta)
                &&& keeps_balance(t.kids[i], names.drop_first(), delta)
            },
            None => shift(t.weight, delta) == shift(0, delta),
        }
    }
}

/// The sum of weights after one node was exchanged for another.
proof fn lemma_kids_weight_update(kids: Seq<Tree>, i: int, kid: Tree)
    requires
        0 <= i < kids.len(),
    ensures
        kids_weight(kids.update(i, kid)) == kids_weight(kids) - kids[i].weight + kid.weight,
    decreases kids.len(),
{
    let changed = kids.update(i, kid);
    if i == kids.len() - 1 {
        assert(changed.drop_last() =~= kids.drop_last());
    } else {
        lemma_kids_weight_update(kids.drop_last(), i, kid);
        assert(changed.drop_last() =~= kids.drop_last().update(i, kid));
    }
}

/// The sum of weights after one more node was put in.
proof fn lemma_kids_weight_insert(kids: Seq<Tree>, i: int, kid: Tree)
    requires
        0 <= i <= kids.len(),
    ensures
        kids_weight(kids.insert(i, kid)) == kids_weight(kids) + kid.weight,
    decreases kids.len(),
{
    let more = kids.insert(i, kid);
    if i == kids.len() {
        assert(more.drop_last() =~= kids);
    } else {
        lemma_kids_weight_insert(kids.drop_last(), i, kid);
        assert(more.drop_last() =~= kids.drop_last().insert(i, kid));
    }
}

/// Balance under `add_weight`, by the names of a path.
proof fn lemma_add_weight_balance(t: Tree, names: Seq<Seq<char>>, delta: i64)
    requires
        t.valid(),
        t.balanced(),
        forall|i: int| 0 <= i < names.len() ==> is_name(#[trigger] names[i]),
    ensures
        t.add_weight(names, delta).balanced() <==> keeps_balance(t, names, delta),
    decreases names.len(),
{
    if names.len() > 0 {
        let name = names[0];
        let rest = names.drop_first();
        assert(forall|i: int| 0 <= i < rest.len() ==> is_name(#[trigger] rest[i]));
        // The node with the child that the names lead to, the child as it
        // was and as it is after the rest of the names were followed.
        let bumped = Tree { weight: wrapped(t.weight, delta), ..t };
        lemma_with_child(bumped, name);
        let grown = bumped.with_child(name);
        let at = grown.position(name).unwrap();
        let sub = grown.kids[at];
        let moved = sub.add_weight(rest, delta);
        let result = t.add_weight(names, delta);
        lemma_add_weight_valid(sub, rest, delta);
        lemma_add_weight_balance(sub, rest, delta);
        lemma_kids_weight_update(grown.kids, at, moved);
        assert(result.kids[at] == moved);
        if t.position(name) is None {
            lemma_slot(t.names, name);
            lemma_kids_weight_insert(t.kids, slot(t.names, name), Tree::empty());
        }
        if keeps_balance(t, names, delta) {
            assert(forall|j: int|
                0 <= j < result.kids.len() ==> (#[trigger] result.kids[j]).balanced());
        }
    }
}

/// The weight invariant under `add_weight`: a balanced tree is balanced
/// again after weight was added at a path exactly if the path and the
/// amount keep the balance. So it is whenever weight is added to a leaf, or
/// to a path that creates one, without any weight on the way leaving its
/// range.
pub proof fn lemma_add_weight_balanced(t: Tree, path: Seq<char>, delta: i64)
    requires
        t.valid(),
        t.balanced(),
    ensures
        t.add_weight(components(path), delta).balanced() <==> keeps_balance(
            t,
            components(path),
            delta,
        ),
{
    lemma_components_are_names(path);
    lemma_add_weight_balance(t, components(path), delta);
}

/// The tree after weight was added at each of the given paths in turn.
pub open spec fn add_weights(t: Tree, changes: Seq<(Seq<char>, i64)>) -> Tree
    decreases changes.len(),
{
    if changes.len() == 0 {
        t
    } else {
        add_weights(t.add_weight(components(changes[0].0), changes[0].1), changes.drop_first())
    }
}

/// Each of the given changes keeps the balance of the tree that the
/// changes before it have made.
pub open spec fn keep_balance(t: Tree, changes: Seq<(Seq<char>, i64)>) -> bool
    decreases changes.len(),
{
    changes.len() > 0 ==> {
        &&& keeps_balance(t, components(changes[0].0), changes[0].1)
        &&& keep_balance(
            t.add_weight(components(changes[0].0), changes[0].1),
            changes.drop_first(),
        )
    }
}

/// The weight invariant: after any number of changes that each keep the
/// balance, the weight of every node that has children is the sum of their
/// weights.
pub proof fn lemma_add_weights_balanced(t: Tree, changes: Seq<(Seq<char>, i64)>)
    requires
        t.valid(),
        t.balanced(),
        keep_balance(t, changes),
    ensures
        add_weights(t, changes).balanced(),
        add_weights(t, changes).valid(),
    decreases changes.len(),
{
    if changes.len() > 0 {
        let path = changes[0].0;
        let delta = changes[0].1;
        lemma_add_weight_balanced(t, path, delta);
        lemma_components_are_names(path);
        lemma_add_weight_valid(t, components(path), delta);
        lemma_add_weights_balanced(t.add_weight(components(path), delta), changes.drop_first());
    }
}

/// A map that holds nothing but its root is balanced.
pub proof fn lemma_empty_balanced()
    ensures
        Tree::empty().balanced(),
        Tree::empty().valid(),
{
}

} // verus!
