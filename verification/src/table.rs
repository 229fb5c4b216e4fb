//! The table of scaled logarithms that turns a hash into the length of a
//! straw.
//!
//! The table is handed in from outside: entry `i` is meant to hold
//! `-ln(i / 65536)` scaled by 2^44 and rounded to a whole number. Nothing
//! here depends on what the entries are, only on there being one for every
//! 16-bit index.

use vstd::prelude::*;

verus! {

/// The number of entries of a table: one for each 16-bit index.
pub const TABLE_SIZE: usize = 65536;

/// A table with exactly `TABLE_SIZE` entries.
pub struct LnTable {
    entries: Vec<u64>,
}

impl LnTable {
    #[verifier::type_invariant]
    spec fn full(&self) -> bool {
        self.entries.len() == TABLE_SIZE
    }

    /// The entries, in the order of their indices.
    pub closed spec fn view(&self) -> Seq<u64> {
        self.entries@
    }

    /// Takes the entries as a table, if there are as many as a table has.
    pub fn new(entries: Vec<u64>) -> (table: Option<LnTable>)
        ensures
            table is Some <==> entries.len() == TABLE_SIZE,
            table matches Some(t) ==> t@ == entries@,
    {
        if entries.len() == TABLE_SIZE {
            Some(LnTable { entries })
        } else {
            None
        }
    }

    /// The entry at `index`.
    pub fn entry(&self, index: u16) -> (value: u64)
        ensures
            self@.len() == TABLE_SIZE,
            value == self@[index as int],
    {
        proof {
            use_type_invariant(self);
        }
        self.entries[index as usize]
    }
}

/// The length of the straw that a child of the given weight draws from a
/// hash: the table's entry for the low 16 bits of the hash, divided by the
/// weight. The heavier the child, the shorter its straw tends to be.
pub open spec fn straw_length(table: Seq<u64>, hash: u64, weight: u64) -> int {
    table[(hash & 0xFFFF) as int] as int / weight as int
}

/// Computes the length of a straw. A child without weight draws none.
pub fn straw(table: &LnTable, hash: u64, weight: u64) -> (length: Option<u64>)
    ensures
        match length {
            Some(l) => weight > 0 && l == straw_length(table@, hash, weight),
            None => weight == 0,
        },
{
    if weight == 0 {
        return None;
    }
    let folded: u64 = hash & 0xFFFF;
    assert(folded <= 0xFFFF) by (bit_vector)
        requires
            folded == hash & 0xFFFF,
    ;
    let value: u64 = table.entry(folded as u16);
    Some(value / weight)
}

} // verus!
