//! Paths: the names from the root down to a node, separated by `/`.
//!
//! The empty path is the root. A path is read from the left: what stands
//! before the first `/` is the name of a child, what stands behind it is a
//! path below that child. A `/` at the very end therefore adds nothing
//! (`a/` is `a`), while a `/` at the start names a child with the empty
//! name.

use vstd::prelude::*;
use vstd::string::StrSliceExecFns;

verus! {

/// The position of the first `/` in `p`, or the length of `p` if it holds
/// none.
pub open spec fn first_slash(p: Seq<char>) -> int
    decreases p.len(),
{
    if p.len() == 0 || p[0] == '/' {
        0
    } else {
        1 + first_slash(p.drop_first())
    }
}

/// The first name of a path.
pub open spec fn head(p: Seq<char>) -> Seq<char> {
    p.take(first_slash(p))
}

/// What follows the first name and its separator.
pub open spec fn tail(p: Seq<char>) -> Seq<char> {
    if first_slash(p) < p.len() {
        p.skip(first_slash(p) + 1)
    } else {
        Seq::empty()
    }
}

/// The names that a path is made of, from the root down.
pub open spec fn components(p: Seq<char>) -> Seq<Seq<char>>
    decreases p.len(),
    via components_decreases
{
    if p.len() == 0 {
        Seq::empty()
    } else {
        seq![head(p)] + components(tail(p))
    }
}

#[via_fn]
proof fn components_decreases(p: Seq<char>) {
    lemma_first_slash(p);
}

/// A name that can stand in a path: it holds no separator.
pub open spec fn is_name(n: Seq<char>) -> bool {
    !n.contains('/')
}

/// The names of a path down to a node, each followed by a separator: what
/// the path of any node below it starts with.
pub open spec fn stem(names: Seq<Seq<char>>) -> Seq<char>
    decreases names.len(),
{
    if names.len() == 0 {
        Seq::empty()
    } else {
        stem(names.drop_last()) + names.last() + seq!['/']
    }
}

/// The last piece of a path: the name itself, or a lone separator where the
/// name is empty, so that the piece is never empty.
pub open spec fn last_piece(name: Seq<char>) -> Seq<char> {
    if name.len() == 0 {
        seq!['/']
    } else {
        name
    }
}

/// The path that leads down the given names.
pub open spec fn join(names: Seq<Seq<char>>) -> Seq<char> {
    if names.len() == 0 {
        Seq::empty()
    } else {
        stem(names.drop_last()) + last_piece(names.last())
    }
}

/// `first_slash` is the one position that has no separator before it and
/// either ends the path or holds a separator.
pub proof fn lemma_first_slash(p: Seq<char>)
    ensures
        0 <= first_slash(p) <= p.len(),
        forall|j: int| 0 <= j < first_slash(p) ==> p[j] != '/',
        first_slash(p) < p.len() ==> p[first_slash(p)] == '/',
    decreases p.len(),
{
    if p.len() > 0 && p[0] != '/' {
        let q = p.drop_first();
        lemma_first_slash(q);
        assert forall|j: int| 0 <= j < first_slash(p) implies p[j] != '/' by {
            if j > 0 {
                assert(p[j] == q[j - 1]);
            }
        }
    }
}

/// A position that has no separator before it and either ends the path or
/// holds a separator is that of the first separator.
pub proof fn lemma_first_slash_unique(p: Seq<char>, k: int)
    requires
        0 <= k <= p.len(),
        forall|j: int| 0 <= j < k ==> p[j] != '/',
        k < p.len() ==> p[k] == '/',
    ensures
        first_slash(p) == k,
{
    lemma_first_slash(p);
}

/// The first name of a path holds no separator.
pub proof fn lemma_head_is_name(p: Seq<char>)
    ensures
        is_name(head(p)),
{
    lemma_first_slash(p);
}

/// Every name of a path holds no separator.
pub proof fn lemma_components_are_names(p: Seq<char>)
    ensures
        forall|i: int| 0 <= i < components(p).len() ==> is_name(#[trigger] components(p)[i]),
    decreases p.len(),
{
    if p.len() > 0 {
        lemma_first_slash(p);
        lemma_head_is_name(p);
        lemma_components_are_names(tail(p));
        let rest = components(tail(p));
        assert forall|i: int| 0 <= i < components(p).len() implies is_name(
            #[trigger] components(p)[i],
        ) by {
            if i > 0 {
                assert(components(p)[i] == rest[i - 1]);
            }
        }
    }
}

/// A stem read from its first name on.
proof fn lemma_stem_front(names: Seq<Seq<char>>)
    requires
        names.len() > 0,
    ensures
        stem(names) == names[0] + seq!['/'] + stem(names.drop_first()),
    decreases names.len(),
{
    if names.len() == 1 {
        assert(names.drop_last() =~= Seq::<Seq<char>>::empty());
        assert(names.drop_first() =~= Seq::<Seq<char>>::empty());
    } else {
        lemma_stem_front(names.drop_last());
        assert(names.drop_last().drop_first() =~= names.drop_first().drop_last());
    }
}

/// A path of several names read from its first name on.
proof fn lemma_join_front(names: Seq<Seq<char>>)
    requires
        names.len() > 1,
    ensures
        join(names) == names[0] + seq!['/'] + join(names.drop_first()),
{
    lemma_stem_front(names.drop_last());
    assert(names.drop_last().drop_first() =~= names.drop_first().drop_last());
}

/// Reading a joined path gives back the names it was joined from.
pub proof fn lemma_components_of_join(names: Seq<Seq<char>>)
    requires
        forall|i: int| 0 <= i < names.len() ==> is_name(#[trigger] names[i]),
    ensures
        components(join(names)) == names,
    decreases names.len(),
{
    let p = join(names);
    if names.len() == 1 {
        let n = names[0];
        if n.len() == 0 {
            lemma_first_slash_unique(p, 0);
        } else {
            assert(forall|j: int| 0 <= j < n.len() ==> n[j] != '/');
            lemma_first_slash_unique(p, n.len() as int);
        }
        assert(head(p) =~= n);
        assert(components(tail(p)) =~= Seq::<Seq<char>>::empty());
    } else if names.len() > 1 {
        let n = names[0];
        let rest = names.drop_first();
        lemma_join_front(names);
        assert(forall|j: int| 0 <= j < n.len() ==> p[j] != '/');
        lemma_first_slash_unique(p, n.len() as int);
        assert(head(p) =~= n);
        assert(tail(p) =~= join(rest));
        assert(forall|i: int| 0 <= i < rest.len() ==> is_name(#[trigger] rest[i]));
        lemma_components_of_join(rest);
    }
}

/// Splits a path into its first name and the path that remains below it.
/// Of the empty path both are empty.
pub fn split_first(path: &str) -> (parts: (&str, &str))
    ensures
        parts.0@ == head(path@),
        parts.1@ == tail(path@),
{
    let n: usize = path.unicode_len();
    let mut k: usize = 0;
    let mut found: bool = false;
    for c in it: path.chars()
        invariant
            it.seq() == path@,
            n == path@.len(),
            found ==> k < n && path@[k as int] == '/',
            !found ==> k == it.index(),
            k <= n,
            forall|j: int| 0 <= j < k ==> path@[j] != '/',
    {
        if !found {
            if c == '/' {
                found = true;
            } else {
                k = k + 1;
            }
        }
    }
    proof {
        lemma_first_slash_unique(path@, k as int);
    }
    let name = path.substring_char(0, k);
    if k < n {
        let rest = path.substring_char(k + 1, n);
        (name, rest)
    } else {
        proof {
            reveal_strlit("");
        }
        (name, "")
    }
}

} // verus!
