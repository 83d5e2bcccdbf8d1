//! Compact tier: a memory-compact presence table keyed by the fixed-width
//! encoded chunk keys of the chunk codec.  Insert-only: keys are never removed
//! or overwritten.  The table is odht's open-addressing hash table, created
//! with a large initial slot capacity and a 95% target load factor.

use vstd::prelude::*;

verus! {

/// Layout of the compact tier's table: 128-byte keys (a chunk's padded payload
/// plus its ordinal byte), one-byte presence values, and odht's FxHashFn for
/// slot placement.
pub struct TableConfig;

#[verifier::external_type_specification]
#[verifier::external_body]
pub struct ExFxHashFn(odht::FxHashFn);

impl odht::Config for TableConfig {
    type Key = [u8; 128];

    type Value = bool;

    type EncodedKey = [u8; 128];

    type EncodedValue = [u8; 1];

    type H = odht::FxHashFn;

    fn encode_key(k: &Self::Key) -> Self::EncodedKey {
        *k
    }

    fn encode_value(v: &Self::Value) -> Self::EncodedValue {
        [if *v {
            1
        } else {
            0
        }; 1]
    }

    fn decode_key(k: &Self::EncodedKey) -> Self::Key {
        *k
    }

    fn decode_value(v: &Self::EncodedValue) -> Self::Value {
        v[0] == 1
    }
}

/// Initial slot capacity of the compact tier's table; it must be sized for the
/// expected key cardinality at configuration time (the table still grows on
/// demand if exceeded).
pub const TABLE_CAPACITY: usize = 1000000;

/// Target load factor of the table, in percent.
pub const TABLE_LOAD_FACTOR_PERCENT: u8 = 95;

/// The compact tier: a presence table of encoded chunk keys.  The table itself
/// is odht's `HashTableOwned`, which Verus does not look into; everything
/// proved about this type rests on the contracts of the methods below.
#[verifier::external_body]
pub struct CompactTier {
    table: odht::HashTableOwned<TableConfig>,
}

/// The set of keys the tier holds, each key as its 128-byte sequence.
pub uninterp spec fn table_keys(t: CompactTier) -> Set<Seq<u8>>;

impl View for CompactTier {
    type V = Set<Seq<u8>>;

    open spec fn view(&self) -> Set<Seq<u8>> {
        table_keys(*self)
    }
}

impl CompactTier {
    pub open spec fn wf(&self) -> bool {
        self@.finite()
    }

    /// Creates an empty table with the configured capacity and load factor.
    /// Relies on odht::HashTableOwned::with_capacity: returns a table that
    /// holds no entries (it panics only on a load factor outside 1..=100,
    /// which the constant arguments satisfy).
    #[verifier::external_body]
    pub fn new() -> (t: CompactTier)
        ensures
            table_keys(t) == Set::<Seq<u8>>::empty(),
            table_keys(t).finite(),
    {
        CompactTier {
            table: odht::HashTableOwned::with_capacity(TABLE_CAPACITY, TABLE_LOAD_FACTOR_PERCENT),
        }
    }

    /// Adds a key; reports whether it was newly added.  Existing keys are
    /// never overwritten (idempotent insert).  Relies on
    /// odht::HashTableOwned::insert: it stores the key-value pair, growing the
    /// table on demand, and returns the previous value — `None` exactly when
    /// the key was absent.  Only `true` is ever stored as a value here.
    #[verifier::external_body]
    pub fn insert_key(&mut self, key: &Vec<u8>) -> (r: bool)
        requires
            key@.len() == 128,
        ensures
            table_keys(*final(self)) == table_keys(*old(self)).insert(key@),
            table_keys(*final(self)).finite(),
            r == !table_keys(*old(self)).contains(key@),
    {
        let mut k = [0u8; 128];
        k.copy_from_slice(key.as_slice());
        self.table.insert(&k, &true).is_none()
    }

    /// Reports whether the tier holds the key.  Relies on
    /// odht::HashTableOwned::contains_key.
    #[verifier::external_body]
    pub fn contains_key(&self, key: &Vec<u8>) -> (r: bool)
        requires
            key@.len() == 128,
        ensures
            r == table_keys(*self).contains(key@),
    {
        let mut k = [0u8; 128];
        k.copy_from_slice(key.as_slice());
        self.table.contains_key(&k)
    }

    /// The number of keys held.  Relies on odht::HashTableOwned::len: the
    /// number of entries in the table.
    #[verifier::external_body]
    pub fn len(&self) -> (r: usize)
        ensures
            table_keys(*self).finite() ==> r == table_keys(*self).len(),
    {
        self.table.len()
    }
}

} // verus!
