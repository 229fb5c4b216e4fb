//! What a change of the map moves.
//!
//! Taking leaves out of service moves the placement groups that were placed
//! on them, and no others. Adding weight somewhere moves placement groups
//! towards it, and none anywhere else.

use vstd::prelude::*;
use crate::draw::{
    chosen, draw, heavier_at, lemma_chosen, lemma_draw_moves_to_heavier, lemma_wins_unique,
};
use crate::names::lemma_sorted_names_distinct;
use crate::error::CrushError;
use crate::path::{join, lemma_components_of_join};
use crate::select::{
    in_service_leaf, lemma_resolve_push, lemma_resolved_names, place, select, select_from,
    serviceable, LOCAL_RETRIES, MAX_FAILURES,
};
use crate::tree::{lemma_resolve_valid, Tree};

verus! {

/// `u` is `t` with, perhaps, more of its nodes out of service: the two have
/// the same nodes with the same weights, and what is out in `t` is out in
/// `u`.
pub open spec fn more_out(t: Tree, u: Tree) -> bool
    decreases t,
{
    &&& u.weight == t.weight
    &&& u.names == t.names
    &&& u.kids.len() == t.kids.len()
    &&& t.out ==> u.out
    &&& forall|i: int| 0 <= i < t.kids.len() ==> more_out(#[trigger] t.kids[i], u.kids[i])
}

/// Every tree is itself with no more of its nodes out.
pub proof fn lemma_more_out_reflexive(t: Tree)
    ensures
        more_out(t, t),
    decreases t,
{
    assert forall|i: int| 0 <= i < t.kids.len() implies more_out(
        #[trigger] t.kids[i],
        t.kids[i],
    ) by {
        lemma_more_out_reflexive(t.kids[i]);
    }
}

/// Taking out more, and then more again, is taking out more.
pub proof fn lemma_more_out_transitive(t: Tree, u: Tree, v: Tree)
    requires
        more_out(t, u),
        more_out(u, v),
    ensures
        more_out(t, v),
    decreases t,
{
    assert forall|i: int| 0 <= i < t.kids.len() implies more_out(
        #[trigger] t.kids[i],
        v.kids[i],
    ) by {
        lemma_more_out_transitive(t.kids[i], u.kids[i], v.kids[i]);
    }
}

/// Marking a node out of service takes out more and nothing else.
pub proof fn lemma_with_out_more_out(t: Tree, names: Seq<Seq<char>>)
    requires
        t.valid(),
    ensures
        more_out(t, t.with_out(names, true)),
    decreases names.len(),
{
    lemma_more_out_reflexive(t);
    if t.resolve(names) is Some && names.len() > 0 {
        let i = t.position(names[0]).unwrap();
        lemma_with_out_more_out(t.kids[i], names.drop_first());
        let u = t.with_out(names, true);
        assert forall|j: int| 0 <= j < t.kids.len() implies more_out(
            #[trigger] t.kids[j],
            u.kids[j],
        ) by {
            if j != i {
                lemma_more_out_reflexive(t.kids[j]);
            }
        }
    }
}

/// A tree with more of its nodes out is as valid as it was.
pub proof fn lemma_more_out_valid(t: Tree, u: Tree)
    requires
        t.valid(),
        more_out(t, u),
    ensures
        u.valid(),
    decreases t,
{
    assert forall|i: int| 0 <= i < u.kids.len() implies (#[trigger] u.kids[i]).valid() by {
        lemma_more_out_valid(t.kids[i], u.kids[i]);
    }
}

/// Whether nodes are in or out of service has no part in a draw.
pub proof fn lemma_more_out_chosen(t: Tree, u: Tree, table: Seq<u64>, key: u32, attempt: u32)
    requires
        more_out(t, u),
    ensures
        chosen(u, table, key, attempt) == chosen(t, table, key, attempt),
{
    lemma_chosen(t, table, key, attempt);
    lemma_chosen(u, table, key, attempt);
    assert forall|j: int| 0 <= j < t.kids.len() implies (#[trigger] u.kids[j]).weight
        == t.kids[j].weight by {
        assert(more_out(t.kids[j], u.kids[j]));
    }
    assert(forall|j: int|
        0 <= j < t.kids.len() ==> #[trigger] draw(u, table, key, attempt, j) == draw(
            t,
            table,
            key,
            attempt,
            j,
        ));
    if let Some(i) = chosen(t, table, key, attempt) {
        lemma_wins_unique(u, table, key, attempt, i, chosen(u, table, key, attempt).unwrap());
    }
}

/// A replica that is placed on a leaf which stays in service is placed on
/// it still, after as many rejections.
proof fn lemma_place_stable(
    t: Tree,
    u: Tree,
    table: Seq<u64>,
    pgid: u32,
    r: int,
    taken: Seq<Seq<char>>,
    at: Tree,
    au: Tree,
    above: Seq<Seq<char>>,
    failures: int,
    local: int,
)
    requires
        u.valid(),
        more_out(t, u),
        more_out(at, au),
        u.resolve(above) == Some(au),
        match place(t, table, pgid, r, taken, at, above, failures, local) {
            Ok((path, _)) => in_service_leaf(u, path),
            Err(_) => false,
        },
    ensures
        place(u, table, pgid, r, taken, au, above, failures, local) == place(
            t,
            table,
            pgid,
            r,
            taken,
            at,
            above,
            failures,
            local,
        ),
    decreases MAX_FAILURES - failures, at,
{
    if 0 <= failures <= MAX_FAILURES && r + failures <= u32::MAX {
        let attempt = (r + failures) as u32;
        lemma_chosen(at, table, pgid, attempt);
        lemma_more_out_chosen(at, au, table, pgid, attempt);
        lemma_resolve_valid(u, above);
        if let Some(i) = chosen(at, table, pgid, attempt) {
            let child = at.kids[i];
            let twin = au.kids[i];
            assert(more_out(child, twin));
            let names = above.push(at.names[i]);
            lemma_resolve_push(u, above, au, i);
            if !child.is_leaf() {
                lemma_place_stable(
                    t,
                    u,
                    table,
                    pgid,
                    r,
                    taken,
                    child,
                    twin,
                    names,
                    failures,
                    local,
                );
            } else if !child.out && !taken.contains(join(names)) {
                // The leaf is accepted on `t`; its path says that it is in
                // service on `u` as well.
                lemma_resolved_names(u, names);
                lemma_components_of_join(names);
            } else if failures < MAX_FAILURES {
                if local >= LOCAL_RETRIES {
                    let none = Seq::empty();
                    lemma_place_stable(t, u, table, pgid, r, taken, t, u, none, failures + 1, 0);
                } else {
                    lemma_place_stable(
                        t,
                        u,
                        table,
                        pgid,
                        r,
                        taken,
                        at,
                        au,
                        above,
                        failures + 1,
                        local + 1,
                    );
                }
            }
        }
    }
}

/// The paths of a selection start with those that were taken before it
/// went on.
proof fn lemma_select_from_extends(
    root: Tree,
    table: Seq<u64>,
    pgid: u32,
    num: int,
    r: int,
    taken: Seq<Seq<char>>,
    failures: int,
)
    ensures
        match select_from(root, table, pgid, num, r, taken, failures) {
            Ok(paths) => taken.len() <= paths.len() && forall|i: int|
                0 <= i < taken.len() ==> paths[i] == taken[i],
            Err(_) => true,
        },
    decreases num - r,
{
    if r < num {
        let placed = place(root, table, pgid, r, taken, root, Seq::empty(), failures, 0);
        if let Ok((path, count)) = placed {
            lemma_select_from_extends(root, table, pgid, num, r + 1, taken.push(path), count);
        }
    }
}

/// A selection that goes on from some replicas, and whose further leaves
/// all stay in service, goes on in the same way.
proof fn lemma_select_from_stable(
    t: Tree,
    u: Tree,
    table: Seq<u64>,
    pgid: u32,
    num: int,
    r: int,
    taken: Seq<Seq<char>>,
    failures: int,
)
    requires
        u.valid(),
        more_out(t, u),
        taken.len() == r,
        match select_from(t, table, pgid, num, r, taken, failures) {
            Ok(paths) => forall|i: int| r <= i < paths.len() ==> in_service_leaf(u, paths[i]),
            Err(_) => false,
        },
    ensures
        select_from(u, table, pgid, num, r, taken, failures) == select_from(
            t,
            table,
            pgid,
            num,
            r,
            taken,
            failures,
        ),
    decreases num - r,
{
    if r < num {
        if let Ok((path, count)) = place(t, table, pgid, r, taken, t, Seq::empty(), failures, 0) {
            let more = taken.push(path);
            // The path of this replica is among the paths of the selection.
            lemma_select_from_extends(t, table, pgid, num, r + 1, more, count);
            let paths = select_from(t, table, pgid, num, r + 1, more, count)->Ok_0;
            assert(in_service_leaf(u, paths[r]));
            lemma_place_stable(t, u, table, pgid, r, taken, t, u, Seq::empty(), failures, 0);
            lemma_select_from_stable(t, u, table, pgid, num, r + 1, more, count);
        }
    }
}

/// Taking leaves out of service moves only what was placed on them: a
/// selection none of whose leaves is taken out gives the same paths after
/// as before.
pub proof fn lemma_select_unmoved(t: Tree, u: Tree, table: Seq<u64>, pgid: u32, num: u32)
    requires
        t.valid(),
        more_out(t, u),
        match select(t, table, pgid, num) {
            Ok(paths) => forall|i: int| 0 <= i < paths.len() ==> in_service_leaf(u, paths[i]),
            Err(_) => false,
        },
    ensures
        select(u, table, pgid, num) == select(t, table, pgid, num),
{
    lemma_more_out_valid(t, u);
    lemma_select_from_stable(t, u, table, pgid, num as int, 0, Seq::empty(), 0);
}

/// The names of the walk from `node` down, every draw made under the same
/// attempt number: the walk of a replica that meets no rejection. It ends
/// at a leaf, or at a node none of whose children has weight.
pub open spec fn descent(node: Tree, table: Seq<u64>, key: u32, attempt: u32) -> Seq<Seq<char>>
    decreases node,
    via descent_decreases
{
    match chosen(node, table, key, attempt) {
        Some(i) => seq![node.names[i]] + descent(node.kids[i], table, key, attempt),
        None => Seq::empty(),
    }
}

#[via_fn]
proof fn descent_decreases(node: Tree, table: Seq<u64>, key: u32, attempt: u32) {
    lemma_chosen(node, table, key, attempt);
}

/// Below a serviceable node the first replica is placed where the descent
/// ends.
proof fn lemma_place_is_descent(
    root: Tree,
    table: Seq<u64>,
    pgid: u32,
    node: Tree,
    above: Seq<Seq<char>>,
)
    requires
        serviceable(node),
        !node.is_leaf(),
    ensures
        place(root, table, pgid, 0, Seq::empty(), node, above, 0, 0) == Ok::<
            (Seq<char>, int),
            CrushError,
        >((join(above + descent(node, table, pgid, 0)), 0)),
    decreases node,
{
    lemma_chosen(node, table, pgid, 0);
    if let Some(i) = chosen(node, table, pgid, 0) {
        let child = node.kids[i];
        let names = above.push(node.names[i]);
        let walk = above + descent(node, table, pgid, 0);
        assert(serviceable(child));
        if !child.is_leaf() {
            lemma_place_is_descent(root, table, pgid, child, names);
            assert(walk =~= names + descent(child, table, pgid, 0));
        } else {
            lemma_chosen(child, table, pgid, 0);
            assert(walk =~= names);
        }
    }
}

/// On a serviceable map that has nodes below its root, a placement group is
/// located where the descent from the root ends.
pub proof fn lemma_locate_is_descent(root: Tree, table: Seq<u64>, pgid: u32)
    requires
        serviceable(root),
        !root.is_leaf(),
    ensures
        select(root, table, pgid, 1) == Ok::<Seq<Seq<char>>, CrushError>(
            seq![join(descent(root, table, pgid, 0))],
        ),
{
    let walk = descent(root, table, pgid, 0);
    lemma_place_is_descent(root, table, pgid, root, Seq::empty());
    assert(Seq::<Seq<char>>::empty() + walk =~= walk);
    let one = Seq::<Seq<char>>::empty().push(join(walk));
    assert(select_from(root, table, pgid, 1, 1, one, 0) == Ok::<Seq<Seq<char>>, CrushError>(one));
}

/// `u` is `t` with more weight down the given names: on the nodes that the
/// names lead through, and nowhere else.
pub open spec fn heavier_down(t: Tree, u: Tree, names: Seq<Seq<char>>) -> bool
    decreases names.len(),
{
    &&& u.names == t.names
    &&& u.out == t.out
    &&& u.weight >= t.weight
    &&& if names.len() == 0 {
        u.kids == t.kids
    } else {
        match t.position(names[0]) {
            Some(c) => {
                &&& heavier_at(t, u, c)
                &&& forall|j: int|
                    0 <= j < t.kids.len() && j != c ==> #[trigger] u.kids[j] == t.kids[j]
                &&& heavier_down(t.kids[c], u.kids[c], names.drop_first())
            },
            None => false,
        }
    }
}

/// Adding weight to a node that is there, without any weight on the way
/// leaving its range, makes the map heavier down the names of the node.
pub proof fn lemma_add_weight_heavier(t: Tree, names: Seq<Seq<char>>, delta: i64)
    requires
        t.valid(),
        t.resolve(names) is Some,
        delta >= 0,
        forall|k: int| 0 <= k <= names.len() ==> t.weight_at(#[trigger] names.take(k)) + delta
            <= u64::MAX,
    ensures
        heavier_down(t, t.add_weight(names, delta), names),
    decreases names.len(),
{
    assert(t.weight_at(names.take(0)) == t.weight);
    if names.len() > 0 {
        let c = t.position(names[0]).unwrap();
        let rest = names.drop_first();
        assert forall|k: int| 0 <= k <= rest.len() implies t.kids[c].weight_at(
            #[trigger] rest.take(k),
        ) + delta <= u64::MAX by {
            assert(names.take(k + 1).drop_first() =~= rest.take(k));
        }
        lemma_add_weight_heavier(t.kids[c], rest, delta);
    }
}

/// A draw looks at the names and the weights of the children of a node,
/// and at nothing else of it.
proof fn lemma_same_children_chosen(t: Tree, u: Tree, table: Seq<u64>, key: u32, attempt: u32)
    requires
        u.names == t.names,
        u.kids == t.kids,
    ensures
        chosen(u, table, key, attempt) == chosen(t, table, key, attempt),
{
    lemma_chosen(t, table, key, attempt);
    lemma_chosen(u, table, key, attempt);
    assert(forall|j: int|
        0 <= j < t.kids.len() ==> #[trigger] draw(u, table, key, attempt, j) == draw(
            t,
            table,
            key,
            attempt,
            j,
        ));
    if let Some(i) = chosen(t, table, key, attempt) {
        lemma_wins_unique(u, table, key, attempt, i, chosen(u, table, key, attempt).unwrap());
    }
}

/// The walk `after` leaves the walk `before` at step `k`, where it turns to
/// the node that `names` lead to: up to there both follow the names, there
/// `after` follows them on and `before` does not.
pub open spec fn turns_at(
    before: Seq<Seq<char>>,
    after: Seq<Seq<char>>,
    names: Seq<Seq<char>>,
    k: int,
) -> bool {
    &&& 0 <= k < names.len()
    &&& k < after.len()
    &&& k <= before.len()
    &&& after.take(k + 1) == names.take(k + 1)
    &&& before.take(k) == names.take(k)
    &&& k < before.len() ==> before[k] != names[k]
}

/// Adding weight moves a walk only towards it: where a map grows heavier
/// down some names, every descent stays as it was, or leaves its old way at
/// a node on those names to follow them one step further.
pub proof fn lemma_descent_moves_to_heavier(
    t: Tree,
    u: Tree,
    names: Seq<Seq<char>>,
    table: Seq<u64>,
    key: u32,
    attempt: u32,
)
    requires
        t.valid(),
        heavier_down(t, u, names),
    ensures
        descent(u, table, key, attempt) == descent(t, table, key, attempt) || exists|k: int|
            turns_at(
                descent(t, table, key, attempt),
                descent(u, table, key, attempt),
                names,
                k,
            ),
    decreases t,
{
    let before = descent(t, table, key, attempt);
    let after = descent(u, table, key, attempt);
    lemma_chosen(t, table, key, attempt);
    lemma_chosen(u, table, key, attempt);
    if names.len() == 0 {
        lemma_same_children_chosen(t, u, table, key, attempt);
    } else {
        let c = t.position(names[0]).unwrap();
        let rest = names.drop_first();
        let drawn = chosen(u, table, key, attempt);
        lemma_draw_moves_to_heavier(t, u, c, table, key, attempt);
        if chosen(t, table, key, attempt) != drawn {
            // The draw has moved to the child that grew: the walk turns here.
            lemma_sorted_names_distinct(t.names);
            assert(after.take(1) =~= names.take(1));
            assert(before.take(0) =~= names.take(0));
            assert(turns_at(before, after, names, 0));
        } else if drawn == Some(c) {
            // Both walks go on below the child that grew.
            let below_t = descent(t.kids[c], table, key, attempt);
            let below_u = descent(u.kids[c], table, key, attempt);
            lemma_descent_moves_to_heavier(t.kids[c], u.kids[c], rest, table, key, attempt);
            if below_u != below_t {
                let k = choose|k: int| turns_at(below_t, below_u, rest, k);
                assert(after.take(k + 2) =~= seq![names[0]] + below_u.take(k + 1));
                assert(names.take(k + 2) =~= seq![names[0]] + rest.take(k + 1));
                assert(before.take(k + 1) =~= seq![names[0]] + below_t.take(k));
                assert(names.take(k + 1) =~= seq![names[0]] + rest.take(k));
                assert(turns_at(before, after, names, k + 1));
            }
        }
    }
}

/// Adding weight moves a placement only towards it: on serviceable maps,
/// of which the second is the first grown heavier down some names, a
/// placement group is located where its descent ends, and its descent on
/// the second map is that on the first, or leaves it at a node on those
/// names to follow them one step further.
pub proof fn lemma_locate_moves_to_heavier(
    t: Tree,
    u: Tree,
    names: Seq<Seq<char>>,
    table: Seq<u64>,
    pgid: u32,
)
    requires
        t.valid(),
        heavier_down(t, u, names),
        serviceable(t),
        serviceable(u),
        !t.is_leaf(),
    ensures
        select(t, table, pgid, 1) == Ok::<Seq<Seq<char>>, CrushError>(
            seq![join(descent(t, table, pgid, 0))],
        ),
        select(u, table, pgid, 1) == Ok::<Seq<Seq<char>>, CrushError>(
            seq![join(descent(u, table, pgid, 0))],
        ),
        descent(u, table, pgid, 0) == descent(t, table, pgid, 0) || exists|k: int|
            turns_at(descent(t, table, pgid, 0), descent(u, table, pgid, 0), names, k),
{
    lemma_locate_is_descent(t, table, pgid);
    lemma_locate_is_descent(u, table, pgid);
    lemma_descent_moves_to_heavier(t, u, names, table, pgid, 0);
}

} // verus!
