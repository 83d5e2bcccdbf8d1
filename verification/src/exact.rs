//! Exact tier: an exact set of previously-seen whole items with a running
//! byte-size counter.  Purely additive until drained into the compact tier.

use vstd::prelude::*;

verus! {

/// Sum of the lengths of a sequence of byte strings.
pub open spec fn sum_len(items: Seq<Seq<u8>>) -> nat
    decreases items.len(),
{
    if items.len() == 0 {
        0
    } else {
        (items[0].len() + sum_len(items.drop_first())) as nat
    }
}

/// `sum_len`, clamped to the largest value a `usize` counter can hold.
pub open spec fn clamped_sum(items: Seq<Seq<u8>>) -> nat {
    if sum_len(items) > usize::MAX {
        usize::MAX as nat
    } else {
        sum_len(items)
    }
}

pub proof fn lemma_sum_len_push(items: Seq<Seq<u8>>, x: Seq<u8>)
    ensures
        sum_len(items.push(x)) == sum_len(items) + x.len(),
    decreases items.len(),
{
    reveal_with_fuel(sum_len, 2);
    if items.len() == 0 {
        assert(items.push(x)[0] == x);
        assert(items.push(x).drop_first() =~= Seq::<Seq<u8>>::empty());
        assert(sum_len(items.push(x)) == x.len() + sum_len(Seq::<Seq<u8>>::empty()));
    } else {
        assert(items.push(x)[0] == items[0]);
        assert(items.push(x).drop_first() =~= items.drop_first().push(x));
        lemma_sum_len_push(items.drop_first(), x);
    }
}

/// Byte-for-byte equality of two byte strings.
fn bytes_eq(a: &[u8], b: &[u8]) -> (r: bool)
    ensures
        r == (a@ == b@),
{
    if a.len() != b.len() {
        return false;
    }
    let mut i: usize = 0;
    while i < a.len()
        invariant
            a@.len() == b@.len(),
            i <= a@.len(),
            forall|j: int| 0 <= j < i ==> a@[j] == b@[j],
        decreases a@.len() - i,
    {
        if a[i] != b[i] {
            return false;
        }
        i = i + 1;
    }
    proof {
        assert(a@ =~= b@);
    }
    true
}

/// The in-memory tier: holds each inserted item verbatim, plus the clamped sum
/// of their lengths.
pub struct ExactTier {
    items: Vec<Vec<u8>>,
    size: usize,
}

impl View for ExactTier {
    type V = Seq<Seq<u8>>;

    closed spec fn view(&self) -> Seq<Seq<u8>> {
        self.items@.map_values(|v: Vec<u8>| v@)
    }
}

impl ExactTier {
    /// The byte counter always mirrors the held items.
    pub closed spec fn wf(&self) -> bool {
        self.size == clamped_sum(self@)
    }

    pub fn new() -> (t: ExactTier)
        ensures
            t.wf(),
            t@ == Seq::<Seq<u8>>::empty(),
    {
        let t = ExactTier { items: Vec::new(), size: 0 };
        proof {
            assert(t@ =~= Seq::<Seq<u8>>::empty());
        }
        t
    }

    pub fn len(&self) -> (r: usize)
        ensures
            r == self@.len(),
    {
        self.items.len()
    }

    /// The sum of the lengths of the held items, clamped to `usize`.
    pub fn total_bytes(&self) -> (r: usize)
        requires
            self.wf(),
        ensures
            r == clamped_sum(self@),
    {
        self.size
    }

    /// Exact membership test.
    pub fn contains(&self, item: &[u8]) -> (r: bool)
        ensures
            r == self@.contains(item@),
    {
        let mut i: usize = 0;
        while i < self.items.len()
            invariant
                i <= self.items@.len(),
                forall|j: int| 0 <= j < i ==> self@[j] != item@,
            decreases self.items@.len() - i,
        {
            if bytes_eq(self.items[i].as_slice(), item) {
                proof {
                    assert(self@[i as int] == item@);
                }
                return true;
            }
            i = i + 1;
        }
        false
    }

    /// Stores the item verbatim; reports whether it was not already present.
    pub fn insert(&mut self, item: &[u8]) -> (r: bool)
        requires
            old(self).wf(),
        ensures
            final(self).wf(),
            r == !old(self)@.contains(item@),
            final(self)@ == (if r {
                old(self)@.push(item@)
            } else {
                old(self)@
            }),
    {
        if self.contains(item) {
            return false;
        }
        let v = vstd::slice::slice_to_vec(item);
        self.items.push(v);
        proof {
            assert(self@ =~= old(self)@.push(item@));
            lemma_sum_len_push(old(self)@, item@);
        }
        self.size = if self.size > usize::MAX - item.len() {
            usize::MAX
        } else {
            self.size + item.len()
        };
        true
    }

    /// Removes and returns all items; used only during a spill.
    pub fn drain(&mut self) -> (r: Vec<Vec<u8>>)
        requires
            old(self).wf(),
        ensures
            final(self).wf(),
            final(self)@ == Seq::<Seq<u8>>::empty(),
            r@.map_values(|v: Vec<u8>| v@) == old(self)@,
    {
        let mut out: Vec<Vec<u8>> = Vec::new();
        core::mem::swap(&mut out, &mut self.items);
        self.size = 0;
        proof {
            assert(self@ =~= Seq::<Seq<u8>>::empty());
        }
        out
    }
}

} // verus!
