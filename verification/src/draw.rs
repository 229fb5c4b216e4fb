//! The weighted draw: which child of a node a key falls to.
//!
//! Every child that has weight draws a straw, whose length depends on the
//! child's name and weight, on the key and on the attempt, and on nothing
//! else. The shortest straw wins; among equally short ones the child whose
//! name comes first.

use vstd::prelude::*;
use crate::hash::{hash_name, name_hash};
use crate::node::Node;
use crate::table::{straw, straw_length, LnTable};
use crate::tree::Tree;

verus! {

/// The length of the straw that child `i` of `t` draws.
pub open spec fn draw(t: Tree, table: Seq<u64>, key: u32, attempt: u32, i: int) -> int {
    straw_length(table, name_hash(t.names[i], key, attempt), t.kids[i].weight)
}

/// Child `i` has weight and, among the first `n` children, draws a shorter
/// straw than every child with weight before it and none longer than any
/// after it.
pub open spec fn leads(t: Tree, table: Seq<u64>, key: u32, attempt: u32, n: int, i: int) -> bool {
    &&& 0 <= i < n
    &&& t.kids[i].weight > 0
    &&& forall|j: int|
        0 <= j < n && t.kids[j].weight > 0 ==> {
            &&& draw(t, table, key, attempt, i) <= #[trigger] draw(t, table, key, attempt, j)
            &&& j < i ==> draw(t, table, key, attempt, i) < draw(t, table, key, attempt, j)
        }
}

/// Child `i` wins the draw at `t`.
pub open spec fn wins(t: Tree, table: Seq<u64>, key: u32, attempt: u32, i: int) -> bool {
    leads(t, table, key, attempt, t.kids.len() as int, i)
}

/// The child that wins the draw at `t`, if any child has weight.
pub open spec fn chosen(t: Tree, table: Seq<u64>, key: u32, attempt: u32) -> Option<int> {
    if exists|i: int| wins(t, table, key, attempt, i) {
        Some(choose|i: int| wins(t, table, key, attempt, i))
    } else {
        None
    }
}

/// No two children win the same draw.
pub proof fn lemma_wins_unique(t: Tree, table: Seq<u64>, key: u32, attempt: u32, i: int, j: int)
    requires
        wins(t, table, key, attempt, i),
        wins(t, table, key, attempt, j),
    ensures
        i == j,
{
    if i < j {
        assert(draw(t, table, key, attempt, i) <= draw(t, table, key, attempt, j));
    } else if j < i {
        assert(draw(t, table, key, attempt, j) <= draw(t, table, key, attempt, i));
    }
}

/// The child that is chosen is the one that wins, and a child is chosen
/// unless none has weight.
pub proof fn lemma_chosen(t: Tree, table: Seq<u64>, key: u32, attempt: u32)
    ensures
        match chosen(t, table, key, attempt) {
            Some(i) => wins(t, table, key, attempt, i),
            None => forall|j: int| 0 <= j < t.kids.len() ==> (#[trigger] t.kids[j]).weight == 0,
        },
{
    if chosen(t, table, key, attempt) is None {
        let n = t.kids.len() as int;
        lemma_some_child_leads(t, table, key, attempt, n);
        if exists|i: int| leads(t, table, key, attempt, n, i) {
            let w = choose|i: int| leads(t, table, key, attempt, n, i);
            assert(wins(t, table, key, attempt, w));
        }
    }
}

/// Among the first `n` children one leads, unless none of them has weight.
proof fn lemma_some_child_leads(t: Tree, table: Seq<u64>, key: u32, attempt: u32, n: int)
    requires
        0 <= n <= t.kids.len(),
    ensures
        (exists|i: int| leads(t, table, key, attempt, n, i)) || forall|j: int|
            0 <= j < n ==> (#[trigger] t.kids[j]).weight == 0,
    decreases n,
{
    if n > 0 {
        let last = n - 1;
        lemma_some_child_leads(t, table, key, attempt, last);
        if t.kids[last].weight > 0 {
            if exists|i: int| leads(t, table, key, attempt, last, i) {
                let b = choose|i: int| leads(t, table, key, attempt, last, i);
                if draw(t, table, key, attempt, last) < draw(t, table, key, attempt, b) {
                    assert(leads(t, table, key, attempt, n, last));
                } else {
                    assert(leads(t, table, key, attempt, n, b));
                }
            } else {
                assert(leads(t, table, key, attempt, n, last));
            }
        } else if exists|i: int| leads(t, table, key, attempt, last, i) {
            let b = choose|i: int| leads(t, table, key, attempt, last, i);
            assert(leads(t, table, key, attempt, n, b));
        }
    }
}

/// `u` is `t` but for the weight of child `c`, which is in `u` at least
/// what it is in `t`.
pub open spec fn heavier_at(t: Tree, u: Tree, c: int) -> bool {
    &&& u.names == t.names
    &&& u.kids.len() == t.kids.len()
    &&& 0 <= c < t.kids.len()
    &&& forall|j: int|
        0 <= j < t.kids.len() && j != c ==> (#[trigger] u.kids[j]).weight == t.kids[j].weight
    &&& u.kids[c].weight >= t.kids[c].weight
}

/// A draw moves only towards weight that was added: where one child of a
/// node grows heavier and nothing else changes, every draw at the node
/// falls to the child it fell to before or to the one that grew, and what
/// fell to that one stays with it.
pub proof fn lemma_draw_moves_to_heavier(
    t: Tree,
    u: Tree,
    c: int,
    table: Seq<u64>,
    key: u32,
    attempt: u32,
)
    requires
        heavier_at(t, u, c),
    ensures
        chosen(u, table, key, attempt) == chosen(t, table, key, attempt) || chosen(
            u,
            table,
            key,
            attempt,
        ) == Some(c),
        chosen(t, table, key, attempt) == Some(c) ==> chosen(u, table, key, attempt) == Some(c),
{
    lemma_chosen(t, table, key, attempt);
    lemma_chosen(u, table, key, attempt);
    let n = t.kids.len() as int;
    // Every straw but that of `c` is as long as it was, and that of `c` is
    // no longer.
    assert(forall|j: int|
        0 <= j < n && j != c ==> draw(u, table, key, attempt, j) == draw(
            t,
            table,
            key,
            attempt,
            j,
        ));
    if t.kids[c].weight > 0 {
        let entry = table[(name_hash(t.names[c], key, attempt) & 0xFFFF) as int] as int;
        vstd::arithmetic::div_mod::lemma_div_is_ordered_by_denominator(
            entry,
            t.kids[c].weight as int,
            u.kids[c].weight as int,
        );
    }
    match chosen(t, table, key, attempt) {
        Some(i) => {
            let k = chosen(u, table, key, attempt).unwrap();
            if i == c {
                assert(wins(u, table, key, attempt, c));
                lemma_wins_unique(u, table, key, attempt, c, k);
            } else if k != c {
                assert(wins(t, table, key, attempt, k));
                lemma_wins_unique(t, table, key, attempt, i, k);
            }
        },
        None => {},
    }
}

impl Node {
    /// Draws among the children of this node.
    pub(crate) fn choose_child(&self, table: &LnTable, key: u32, attempt: u32) -> (winner: Option<
        usize,
    >)
        requires
            self@.valid(),
        ensures
            match winner {
                Some(i) => chosen(self@, table@, key, attempt) == Some(i as int) && i
                    < self.kids.len(),
                None => chosen(self@, table@, key, attempt) is None,
            },
    {
        let ghost t = self@;
        let mut winner: Option<usize> = None;
        let mut shortest: u64 = 0;
        let n: usize = self.kids.len();
        let mut i: usize = 0;
        while i < n
            invariant
                t == self@,
                t.valid(),
                n == self.kids.len(),
                i <= n,
                match winner {
                    Some(b) => leads(t, table@, key, attempt, i as int, b as int) && shortest
                        == draw(t, table@, key, attempt, b as int),
                    None => forall|j: int| 0 <= j < i ==> (#[trigger] t.kids[j]).weight == 0,
                },
            decreases n - i,
        {
            assert(t.kids[i as int] == self.kids[i as int]@);
            let digest: u64 = hash_name(self.names[i].as_str(), key, attempt);
            match straw(table, digest, self.kids[i].weight) {
                Some(length) => {
                    let better: bool = match winner {
                        Some(_) => length < shortest,
                        None => true,
                    };
                    if better {
                        winner = Some(i);
                        shortest = length;
                    }
                },
                None => {},
            }
            i = i + 1;
        }
        proof {
            lemma_chosen(t, table@, key, attempt);
            if let Some(b) = winner {
                let c = chosen(t, table@, key, attempt).unwrap();
                lemma_wins_unique(t, table@, key, attempt, b as int, c);
            }
        }
        winner
    }
}

} // verus!
