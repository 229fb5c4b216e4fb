//! Placement: which leaves of the cluster map hold the replicas of a
//! placement group.
//!
//! For each replica the tree is walked down from the root, one draw per
//! level, until a leaf is reached. A leaf that is out of service, or that an
//! earlier replica of the same selection already took, is rejected. A
//! rejection is counted and the draw is made again at the same node under
//! the next attempt number; after more than `LOCAL_RETRIES` rejections in a
//! row the walk starts over at the root. One count of rejections runs
//! through the whole selection, so no draw is ever made twice under the same
//! attempt number. A selection that has rejected more than `MAX_FAILURES`
//! leaves gives up.

use vstd::prelude::*;
use vstd::string::StringExecFns;
use crate::draw::{chosen, lemma_chosen};
use crate::error::CrushError;
use crate::node::Node;
use crate::path::{is_name, join, lemma_components_of_join, stem};
use crate::table::LnTable;
use crate::tree::{kids_weight, lemma_position, lemma_resolve_valid, Tree};

verus! {

/// How many rejections in a row are answered by a new draw at the same
/// node. The next one sends the walk back to the root.
pub const LOCAL_RETRIES: u32 = 3;

/// How many leaves one selection may reject before it gives up.
pub const MAX_FAILURES: u32 = 65536;

/// The leaf that replica `r` is placed on, as its path, and the number of
/// rejections counted when it was found.
///
/// The walk stands at `node`, which is reached from `root` by the names
/// `above`. `taken` holds the paths of the replicas placed before,
/// `failures` counts the rejections of the whole selection and `local`
/// those since the walk last left the root.
///
/// The draw at `node` is made under the attempt number `r + failures`. It
/// falls to a child. Below a child that has children the walk goes on. A
/// child that is a leaf is accepted if it is in service and not yet taken,
/// and its path is the result. Else it is rejected: the walk goes on at the
/// same node, or at the root where this was the rejection after
/// `LOCAL_RETRIES` in a row, with one more rejection counted.
///
/// There is no place, `PlacementExhausted`, where the root has no children,
/// where a leaf is rejected after `MAX_FAILURES` rejections, and where the
/// attempt number would leave the range of 32 bits. The draw stops with
/// `ZeroWeightChild` at a node that has children of which none has weight.
pub open spec fn place(
    root: Tree,
    table: Seq<u64>,
    pgid: u32,
    r: int,
    taken: Seq<Seq<char>>,
    node: Tree,
    above: Seq<Seq<char>>,
    failures: int,
    local: int,
) -> Result<(Seq<char>, int), CrushError>
    decreases MAX_FAILURES - failures, node,
    via place_decreases
{
    if failures < 0 || failures > MAX_FAILURES || r + failures > u32::MAX {
        Err(CrushError::PlacementExhausted)
    } else {
        match chosen(node, table, pgid, (r + failures) as u32) {
            None => if node.is_leaf() {
                Err(CrushError::PlacementExhausted)
            } else {
                Err(CrushError::ZeroWeightChild)
            },
            Some(i) => {
                let child = node.kids[i];
                let names = above.push(node.names[i]);
                if !child.is_leaf() {
                    place(root, table, pgid, r, taken, child, names, failures, local)
                } else if !child.out && !taken.contains(join(names)) {
                    Ok((join(names), failures))
                } else if failures >= MAX_FAILURES {
                    Err(CrushError::PlacementExhausted)
                } else if local >= LOCAL_RETRIES {
                    place(root, table, pgid, r, taken, root, Seq::empty(), failures + 1, 0)
                } else {
                    place(root, table, pgid, r, taken, node, above, failures + 1, local + 1)
                }
            },
        }
    }
}

#[via_fn]
proof fn place_decreases(
    root: Tree,
    table: Seq<u64>,
    pgid: u32,
    r: int,
    taken: Seq<Seq<char>>,
    node: Tree,
    above: Seq<Seq<char>>,
    failures: int,
    local: int,
) {
    if !(failures < 0 || failures > MAX_FAILURES || r + failures > u32::MAX) {
        lemma_chosen(node, table, pgid, (r + failures) as u32);
    }
}

/// The paths of replicas `r` up to `num`, put behind those already `taken`.
pub open spec fn select_from(
    root: Tree,
    table: Seq<u64>,
    pgid: u32,
    num: int,
    r: int,
    taken: Seq<Seq<char>>,
    failures: int,
) -> Result<Seq<Seq<char>>, CrushError>
    decreases num - r,
{
    if r >= num {
        Ok(taken)
    } else {
        match place(root, table, pgid, r, taken, root, Seq::empty(), failures, 0) {
            Ok((path, count)) => select_from(
                root,
                table,
                pgid,
                num,
                r + 1,
                taken.push(path),
                count,
            ),
            Err(e) => Err(e),
        }
    }
}

/// The leaves that hold the `num` replicas of placement group `pgid`, as
/// their paths and in the order of the replicas.
pub open spec fn select(root: Tree, table: Seq<u64>, pgid: u32, num: u32) -> Result<
    Seq<Seq<char>>,
    CrushError,
> {
    select_from(root, table, pgid, num as int, 0, Seq::empty(), 0)
}

/// `path` addresses a leaf that is in service.
pub open spec fn in_service_leaf(root: Tree, path: Seq<char>) -> bool {
    match root.lookup(path) {
        Some(node) => node.is_leaf() && !node.out,
        None => false,
    }
}

/// Going one name further down from a node that is reached leads to its
/// child of that name.
pub proof fn lemma_resolve_push(root: Tree, above: Seq<Seq<char>>, node: Tree, i: int)
    requires
        root.valid(),
        root.resolve(above) == Some(node),
        0 <= i < node.names.len(),
    ensures
        root.resolve(above.push(node.names[i])) == Some(node.kids[i]),
    decreases above.len(),
{
    let names = above.push(node.names[i]);
    if above.len() == 0 {
        lemma_position(node, node.names[i], i);
        assert(node.kids[i].resolve(names.drop_first()) == Some(node.kids[i]));
    } else {
        let k = root.position(above[0]).unwrap();
        assert(names.drop_first() =~= above.drop_first().push(node.names[i]));
        lemma_resolve_push(root.kids[k], above.drop_first(), node, i);
    }
}

/// The names that lead to a node of a valid tree hold no separator.
pub proof fn lemma_resolved_names(root: Tree, names: Seq<Seq<char>>)
    requires
        root.valid(),
        root.resolve(names) is Some,
    ensures
        forall|i: int| 0 <= i < names.len() ==> is_name(#[trigger] names[i]),
    decreases names.len(),
{
    if names.len() > 0 {
        let k = root.position(names[0]).unwrap();
        let rest = names.drop_first();
        lemma_resolved_names(root.kids[k], rest);
        assert forall|i: int| 0 <= i < names.len() implies is_name(#[trigger] names[i]) by {
            if i > 0 {
                assert(names[i] == rest[i - 1]);
            }
        }
    }
}

/// A replica is placed on a leaf that is in service and that no earlier
/// replica took, and the count of rejections never goes down nor beyond
/// its bound.
pub proof fn lemma_place(
    root: Tree,
    table: Seq<u64>,
    pgid: u32,
    r: int,
    taken: Seq<Seq<char>>,
    node: Tree,
    above: Seq<Seq<char>>,
    failures: int,
    local: int,
)
    requires
        root.valid(),
        root.resolve(above) == Some(node),
    ensures
        match place(root, table, pgid, r, taken, node, above, failures, local) {
            Ok((path, count)) => {
                &&& !taken.contains(path)
                &&& in_service_leaf(root, path)
                &&& 0 <= failures <= count <= MAX_FAILURES
            },
            Err(_) => true,
        },
    decreases MAX_FAILURES - failures, node,
{
    if 0 <= failures <= MAX_FAILURES && r + failures <= u32::MAX {
        lemma_chosen(node, table, pgid, (r + failures) as u32);
        lemma_resolve_valid(root, above);
        if let Some(i) = chosen(node, table, pgid, (r + failures) as u32) {
            let child = node.kids[i];
            let names = above.push(node.names[i]);
            lemma_resolve_push(root, above, node, i);
            if !child.is_leaf() {
                lemma_place(root, table, pgid, r, taken, child, names, failures, local);
            } else if !child.out && !taken.contains(join(names)) {
                lemma_resolved_names(root, names);
                lemma_components_of_join(names);
            } else if failures < MAX_FAILURES {
                if local >= LOCAL_RETRIES {
                    lemma_place(root, table, pgid, r, taken, root, Seq::empty(), failures + 1, 0);
                } else {
                    lemma_place(root, table, pgid, r, taken, node, above, failures + 1, local + 1);
                }
            }
        }
    }
}

/// What holds of the paths already taken holds of all the paths of a
/// selection that goes on from them.
pub proof fn lemma_select_from(
    root: Tree,
    table: Seq<u64>,
    pgid: u32,
    num: int,
    r: int,
    taken: Seq<Seq<char>>,
    failures: int,
)
    requires
        root.valid(),
        0 <= r <= num,
        taken.len() == r,
        taken.no_duplicates(),
        forall|i: int| 0 <= i < taken.len() ==> in_service_leaf(root, #[trigger] taken[i]),
    ensures
        match select_from(root, table, pgid, num, r, taken, failures) {
            Ok(paths) => {
                &&& paths.len() == num
                &&& paths.no_duplicates()
                &&& forall|i: int|
                    0 <= i < paths.len() ==> in_service_leaf(root, #[trigger] paths[i])
            },
            Err(_) => true,
        },
    decreases num - r,
{
    if r < num {
        lemma_place(root, table, pgid, r, taken, root, Seq::empty(), failures, 0);
        match place(root, table, pgid, r, taken, root, Seq::empty(), failures, 0) {
            Ok((path, count)) => {
                let more = taken.push(path);
                assert(more.no_duplicates());
                assert(forall|i: int|
                    0 <= i < more.len() ==> in_service_leaf(root, #[trigger] more[i]));
                lemma_select_from(root, table, pgid, num, r + 1, more, count);
            },
            Err(_) => {},
        }
    }
}

/// A selection that succeeds names as many leaves as were asked for.
pub proof fn lemma_select_count(root: Tree, table: Seq<u64>, pgid: u32, num: u32)
    requires
        root.valid(),
    ensures
        select(root, table, pgid, num) matches Ok(paths) ==> paths.len() == num,
{
    lemma_select_from(root, table, pgid, num as int, 0, Seq::empty(), 0);
}

/// No leaf holds two replicas of one selection: the paths of a selection
/// that succeeds are all different.
pub proof fn lemma_select_distinct(root: Tree, table: Seq<u64>, pgid: u32, num: u32)
    requires
        root.valid(),
    ensures
        select(root, table, pgid, num) matches Ok(paths) ==> paths.no_duplicates(),
{
    lemma_select_from(root, table, pgid, num as int, 0, Seq::empty(), 0);
}

/// Nothing is placed on what is out of service: every path of a selection
/// that succeeds addresses a leaf of the tree that is in service.
pub proof fn lemma_select_in_service(root: Tree, table: Seq<u64>, pgid: u32, num: u32)
    requires
        root.valid(),
    ensures
        select(root, table, pgid, num) matches Ok(paths) ==> forall|i: int|
            0 <= i < paths.len() ==> in_service_leaf(root, #[trigger] paths[i]),
{
    lemma_select_from(root, table, pgid, num as int, 0, Seq::empty(), 0);
}

/// Every walk down `t` ends at a leaf in service: a leaf is in service, and
/// a node with children has one with weight and is serviceable below each
/// child that has weight.
pub open spec fn serviceable(t: Tree) -> bool
    decreases t,
{
    if t.is_leaf() {
        !t.out
    } else {
        &&& exists|i: int| 0 <= i < t.kids.len() && (#[trigger] t.kids[i]).weight > 0
        &&& forall|i: int|
            0 <= i < t.kids.len() && (#[trigger] t.kids[i]).weight > 0 ==> serviceable(t.kids[i])
    }
}

/// Below a serviceable node a replica is placed at the first leaf that the
/// walk reaches, unless an earlier replica took a leaf or the attempts have
/// run out.
proof fn lemma_place_succeeds(
    root: Tree,
    table: Seq<u64>,
    pgid: u32,
    r: int,
    node: Tree,
    above: Seq<Seq<char>>,
    failures: int,
    local: int,
)
    requires
        serviceable(node),
        !node.is_leaf(),
        0 <= failures <= MAX_FAILURES,
        r + failures <= u32::MAX,
    ensures
        place(root, table, pgid, r, Seq::empty(), node, above, failures, local) matches Ok(
            (_, count),
        ) && count == failures,
    decreases node,
{
    lemma_chosen(node, table, pgid, (r + failures) as u32);
    if let Some(i) = chosen(node, table, pgid, (r + failures) as u32) {
        let child = node.kids[i];
        if !child.is_leaf() {
            let names = above.push(node.names[i]);
            lemma_place_succeeds(root, table, pgid, r, child, names, failures, local);
        }
    }
}

/// When a placement is owed: in a map that has nodes below its root, whose
/// every walk ends at a leaf in service, each placement group is located,
/// whatever the hash and the table give.
pub proof fn lemma_locate_succeeds(root: Tree, table: Seq<u64>, pgid: u32)
    requires
        serviceable(root),
        !root.is_leaf(),
    ensures
        select(root, table, pgid, 1) is Ok,
{
    lemma_place_succeeds(root, table, pgid, 0, root, Seq::empty(), 0, 0);
    let placed = place(root, table, pgid, 0, Seq::empty(), root, Seq::empty(), 0, 0);
    let path = placed->Ok_0.0;
    assert(select_from(root, table, pgid, 1, 1, Seq::<Seq<char>>::empty().push(path), 0) is Ok);
}

/// Every leaf of `t` has weight and is in service.
pub open spec fn leaves_ready(t: Tree) -> bool
    decreases t,
{
    if t.is_leaf() {
        t.weight > 0 && !t.out
    } else {
        forall|i: int| 0 <= i < t.kids.len() ==> leaves_ready(#[trigger] t.kids[i])
    }
}

/// The sum of the weights of some nodes is at least the weight of each.
proof fn lemma_kids_weight_bounds(kids: Seq<Tree>, i: int)
    requires
        0 <= i < kids.len(),
    ensures
        kids_weight(kids) >= kids[i].weight,
    decreases kids.len(),
{
    if i < kids.len() - 1 {
        lemma_kids_weight_bounds(kids.drop_last(), i);
    } else {
        lemma_kids_weight_nonnegative(kids.drop_last());
    }
}

/// A sum of weights is not negative.
proof fn lemma_kids_weight_nonnegative(kids: Seq<Tree>)
    ensures
        kids_weight(kids) >= 0,
    decreases kids.len(),
{
    if kids.len() > 0 {
        lemma_kids_weight_nonnegative(kids.drop_last());
    }
}

/// A balanced map whose leaves all have weight and are in service is
/// serviceable, and has weight itself.
pub proof fn lemma_ready_serviceable(t: Tree)
    requires
        t.balanced(),
        leaves_ready(t),
    ensures
        serviceable(t),
        t.weight > 0,
    decreases t,
{
    if !t.is_leaf() {
        assert forall|i: int| 0 <= i < t.kids.len() implies serviceable(#[trigger] t.kids[i])
            && t.kids[i].weight > 0 by {
            lemma_ready_serviceable(t.kids[i]);
        }
        lemma_kids_weight_bounds(t.kids, 0);
    }
}

/// A selection of no replicas is empty, on every map.
pub proof fn lemma_select_none(root: Tree, table: Seq<u64>, pgid: u32)
    ensures
        select(root, table, pgid, 0) == Ok::<Seq<Seq<char>>, CrushError>(Seq::empty()),
{
}

/// On a map that has nothing below its root, no replica has a place.
pub proof fn lemma_select_on_bare_root(root: Tree, table: Seq<u64>, pgid: u32, num: u32)
    requires
        root.is_leaf(),
        num > 0,
    ensures
        select(root, table, pgid, num) == Err::<Seq<Seq<char>>, CrushError>(
            CrushError::PlacementExhausted,
        ),
{
    lemma_chosen(root, table, pgid, 0);
}

/// `placed` is what the selection of `num` replicas of `pgid` gives on the
/// map `root`: the error of the selection, or paths with its texts.
pub open spec fn selected(
    root: Tree,
    table: Seq<u64>,
    pgid: u32,
    num: u32,
    placed: Result<Vec<String>, CrushError>,
) -> bool {
    match placed {
        Ok(paths) => select(root, table, pgid, num) == Ok::<Seq<Seq<char>>, CrushError>(
            texts(paths@),
        ),
        Err(e) => select(root, table, pgid, num) == Err::<Seq<Seq<char>>, CrushError>(e),
    }
}

/// A selection is determined by the map, the table, the placement group and
/// the number of replicas: whenever it is made, it fails in the same way or
/// gives the same paths.
pub proof fn lemma_select_deterministic(
    root: Tree,
    table: Seq<u64>,
    pgid: u32,
    num: u32,
    first: Result<Vec<String>, CrushError>,
    second: Result<Vec<String>, CrushError>,
)
    requires
        selected(root, table, pgid, num, first),
        selected(root, table, pgid, num, second),
    ensures
        match first {
            Ok(paths) => second is Ok && texts(second->Ok_0@) == texts(paths@),
            Err(e) => second == Err::<Vec<String>, CrushError>(e),
        },
{
}

/// The texts of a list of strings.
pub open spec fn texts(paths: Seq<String>) -> Seq<Seq<char>> {
    Seq::new(paths.len(), |i: int| paths[i]@)
}

/// Whether `path` is among `paths`.
pub fn holds(paths: &Vec<String>, path: &String) -> (found: bool)
    ensures
        found == texts(paths@).contains(path@),
{
    let mut i: usize = 0;
    while i < paths.len()
        invariant
            i <= paths.len(),
            forall|j: int| 0 <= j < i ==> texts(paths@)[j] != path@,
        decreases paths.len() - i,
    {
        if paths[i] == *path {
            assert(texts(paths@)[i as int] == path@);
            return true;
        }
        i = i + 1;
    }
    false
}

impl Node {
    /// Places replica `r` of placement group `pgid` in the tree below this
    /// node, which is the root.
    pub(crate) fn place_replica(
        &self,
        table: &LnTable,
        pgid: u32,
        r: u32,
        taken: &Vec<String>,
        failures: u32,
    ) -> (placed: Result<(String, u32), CrushError>)
        requires
            self@.valid(),
            failures <= MAX_FAILURES,
        ensures
            match placed {
                Ok((path, count)) => {
                    &&& place(
                        self@,
                        table@,
                        pgid,
                        r as int,
                        texts(taken@),
                        self@,
                        Seq::empty(),
                        failures as int,
                        0,
                    ) == Ok::<(Seq<char>, int), CrushError>((path@, count as int))
                    &&& count <= MAX_FAILURES
                },
                Err(e) => place(
                    self@,
                    table@,
                    pgid,
                    r as int,
                    texts(taken@),
                    self@,
                    Seq::empty(),
                    failures as int,
                    0,
                ) == Err::<(Seq<char>, int), CrushError>(e),
            },
    {
        let ghost goal = place(
            self@,
            table@,
            pgid,
            r as int,
            texts(taken@),
            self@,
            Seq::empty(),
            failures as int,
            0,
        );
        let mut node: &Node = self;
        let mut base: String = String::new();
        let mut count: u32 = failures;
        let mut local: u32 = 0;
        let ghost mut above: Seq<Seq<char>> = Seq::empty();
        proof {
            reveal_strlit("/");
        }
        loop
            invariant
                self@.valid(),
                node@.valid(),
                "/"@ == seq!['/'],
                base@ == stem(above),
                count <= MAX_FAILURES,
                local <= LOCAL_RETRIES,
                goal == place(
                    self@,
                    table@,
                    pgid,
                    r as int,
                    texts(taken@),
                    self@,
                    Seq::empty(),
                    failures as int,
                    0,
                ),
                goal == place(
                    self@,
                    table@,
                    pgid,
                    r as int,
                    texts(taken@),
                    node@,
                    above,
                    count as int,
                    local as int,
                ),
            decreases MAX_FAILURES - count, node@,
        {
            if r as u64 + count as u64 > u32::MAX as u64 {
                return Err(CrushError::PlacementExhausted);
            }
            let attempt: u32 = r + count;
            let i: usize = match node.choose_child(table, pgid, attempt) {
                Some(i) => i,
                None => {
                    if node.kids.len() == 0 {
                        return Err(CrushError::PlacementExhausted);
                    } else {
                        return Err(CrushError::ZeroWeightChild);
                    }
                },
            };
            let child: &Node = &node.kids[i];
            let name: &str = node.names[i].as_str();
            let ghost names = above.push(name@);
            proof {
                assert(node@.kids[i as int] == child@);
                assert(names.drop_last() =~= above);
            }
            if child.kids.len() > 0 {
                base.append(name);
                base.append("/");
                node = child;
                proof {
                    above = names;
                }
                continue ;
            }
            let mut path: String = base.clone();
            if name.is_empty() {
                path.append("/");
            } else {
                path.append(name);
            }
            if !child.out && !holds(taken, &path) {
                return Ok((path, count));
            }
            if count >= MAX_FAILURES {
                return Err(CrushError::PlacementExhausted);
            }
            count = count + 1;
            if local >= LOCAL_RETRIES {
                node = self;
                base = String::new();
                local = 0;
                proof {
                    above = Seq::empty();
                }
            } else {
                local = local + 1;
            }
        }
    }
}

} // verus!
