//! The order in which the children of a node are kept: names compare as
//! their UTF-8 encodings do, byte by byte.

use vstd::prelude::*;
use vstd::utf8::encode_utf8;

verus! {

/// How one name stands to another in the children's order.
#[derive(Clone, Copy, Debug, PartialEq, Eq, Structural)]
pub enum NameOrder {
    Before,
    Same,
    After,
}

/// Strict lexicographic order on byte strings: a proper prefix comes first,
/// otherwise the first differing byte decides.
pub open spec fn bytes_before(a: Seq<u8>, b: Seq<u8>) -> bool
    decreases a.len(),
{
    if b.len() == 0 {
        false
    } else if a.len() == 0 {
        true
    } else if a[0] != b[0] {
        a[0] < b[0]
    } else {
        bytes_before(a.drop_first(), b.drop_first())
    }
}

/// `a` sorts strictly before `b`.
pub open spec fn name_before(a: Seq<char>, b: Seq<char>) -> bool {
    bytes_before(encode_utf8(a), encode_utf8(b))
}

/// Every name stands before its successors.
pub open spec fn names_sorted(names: Seq<Seq<char>>) -> bool {
    forall|i: int, j: int| 0 <= i < j < names.len() ==> name_before(names[i], names[j])
}

/// No byte string comes before itself.
pub proof fn lemma_bytes_before_irreflexive(a: Seq<u8>)
    ensures
        !bytes_before(a, a),
    decreases a.len(),
{
    if a.len() > 0 {
        lemma_bytes_before_irreflexive(a.drop_first());
    }
}

/// What comes before an earlier byte string comes before the later one.
pub proof fn lemma_bytes_before_transitive(a: Seq<u8>, b: Seq<u8>, c: Seq<u8>)
    requires
        bytes_before(a, b),
        bytes_before(b, c),
    ensures
        bytes_before(a, c),
    decreases a.len(),
{
    if a.len() > 0 && a[0] == b[0] && b[0] == c[0] {
        lemma_bytes_before_transitive(a.drop_first(), b.drop_first(), c.drop_first());
    }
}

/// Of two different byte strings one comes before the other.
pub proof fn lemma_bytes_before_total(a: Seq<u8>, b: Seq<u8>)
    ensures
        bytes_before(a, b) || a == b || bytes_before(b, a),
    decreases a.len(),
{
    if a.len() > 0 && b.len() > 0 && a[0] == b[0] {
        lemma_bytes_before_total(a.drop_first(), b.drop_first());
        if a.drop_first() == b.drop_first() {
            assert(a =~= seq![a[0]] + a.drop_first());
            assert(b =~= seq![b[0]] + b.drop_first());
        }
    } else if a.len() == 0 && b.len() == 0 {
        assert(a =~= b);
    }
}

/// Names with the same encoding are the same name.
pub proof fn lemma_encoding_injective(a: Seq<char>, b: Seq<char>)
    requires
        encode_utf8(a) == encode_utf8(b),
    ensures
        a == b,
{
    vstd::utf8::encode_utf8_decode_utf8(a);
    vstd::utf8::encode_utf8_decode_utf8(b);
}

/// The order is strict: no name stands before itself, and of two names at
/// most one stands before the other.
pub proof fn lemma_name_before_strict(a: Seq<char>, b: Seq<char>)
    ensures
        !name_before(a, a),
        !(name_before(a, b) && name_before(b, a)),
{
    lemma_bytes_before_irreflexive(encode_utf8(a));
    if name_before(a, b) && name_before(b, a) {
        lemma_bytes_before_transitive(encode_utf8(a), encode_utf8(b), encode_utf8(a));
    }
}

/// What stands before an earlier name stands before the later one.
pub proof fn lemma_name_before_transitive(a: Seq<char>, b: Seq<char>, c: Seq<char>)
    requires
        name_before(a, b),
        name_before(b, c),
    ensures
        name_before(a, c),
{
    lemma_bytes_before_transitive(encode_utf8(a), encode_utf8(b), encode_utf8(c));
}

/// Of two different names one stands before the other.
pub proof fn lemma_name_before_total(a: Seq<char>, b: Seq<char>)
    ensures
        name_before(a, b) || a == b || name_before(b, a),
{
    lemma_bytes_before_total(encode_utf8(a), encode_utf8(b));
    if encode_utf8(a) == encode_utf8(b) {
        lemma_encoding_injective(a, b);
    }
}

/// A sorted list holds no name twice.
pub proof fn lemma_sorted_names_distinct(names: Seq<Seq<char>>)
    requires
        names_sorted(names),
    ensures
        names.no_duplicates(),
{
    assert forall|i: int, j: int|
        0 <= i < names.len() && 0 <= j < names.len() && i != j implies names[i] != names[j] by {
        lemma_name_before_strict(names[i], names[i]);
    }
}

/// Compares two names as their UTF-8 encodings compare.
pub fn name_order(a: &str, b: &str) -> (r: NameOrder)
    ensures
        r == NameOrder::Before <==> name_before(a@, b@),
        r == NameOrder::Same <==> a@ == b@,
        r == NameOrder::After <==> name_before(b@, a@),
{
    let x = a.as_bytes();
    let y = b.as_bytes();
    let ghost xs = x@;
    let ghost ys = y@;
    proof {
        assert(xs.skip(0) =~= xs);
        assert(ys.skip(0) =~= ys);
    }
    let mut i: usize = 0;
    while i < x.len() && i < y.len() && x[i] == y[i]
        invariant
            i <= x.len(),
            i <= y.len(),
            x@ == xs,
            y@ == ys,
            bytes_before(xs, ys) == bytes_before(xs.skip(i as int), ys.skip(i as int)),
            bytes_before(ys, xs) == bytes_before(ys.skip(i as int), xs.skip(i as int)),
            (xs == ys) == (xs.skip(i as int) == ys.skip(i as int)),
        decreases x.len() - i,
    {
        proof {
            let p = xs.skip(i as int);
            let q = ys.skip(i as int);
            assert(p.drop_first() =~= xs.skip(i + 1));
            assert(q.drop_first() =~= ys.skip(i + 1));
            if xs.skip(i + 1) == ys.skip(i + 1) {
                assert(p =~= seq![p[0]] + p.drop_first());
                assert(q =~= seq![q[0]] + q.drop_first());
            }
        }
        i = i + 1;
    }
    proof {
        lemma_name_before_strict(a@, b@);
        lemma_name_before_total(a@, b@);
        if xs == ys {
            lemma_encoding_injective(a@, b@);
        }
    }
    if i == x.len() {
        if i == y.len() {
            NameOrder::Same
        } else {
            NameOrder::Before
        }
    } else if i == y.len() {
        NameOrder::After
    } else if x[i] < y[i] {
        NameOrder::Before
    } else {
        NameOrder::After
    }
}

} // verus!
