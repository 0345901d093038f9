use vstd::prelude::*;

verus! {

/// The order of the field whose elements leaves and digests hold.
pub const FIELD_ORDER: u64 = 0xFFFF_FFFF_0000_0001;

/// Every value of `s` is a field element in canonical form: below the order.
pub open spec fn all_canonical(s: Seq<u64>) -> bool {
    forall|i: int| 0 <= i < s.len() ==> #[trigger] s[i] < FIELD_ORDER
}

/// Tells whether every value of `v` is below the field order.
pub fn is_canonical(v: &Vec<u64>) -> (r: bool)
    ensures
        r == all_canonical(v@),
{
    let mut i: usize = 0;
    while i < v.len()
        invariant
            i <= v@.len(),
            forall|k: int| 0 <= k < i ==> #[trigger] v@[k] < FIELD_ORDER,
        decreases v@.len() - i,
    {
        if v[i] >= FIELD_ORDER {
            return false;
        }
        i = i + 1;
    }
    true
}

/// A hash value: four field elements, each held as its canonical `u64`.
#[derive(Clone, Copy, Debug, PartialEq, Eq)]
pub struct Digest {
    pub elements: [u64; 4],
}

impl View for Digest {
    type V = Seq<u64>;

    open spec fn view(&self) -> Seq<u64> {
        self.elements@
    }
}

impl Digest {
    /// Tells whether the four elements are below the field order.
    pub fn is_canonical(&self) -> (r: bool)
        ensures
            r == all_canonical(self@),
    {
        let mut i: usize = 0;
        while i < 4
            invariant
                i <= 4,
                forall|k: int| 0 <= k < i ==> #[trigger] self@[k] < FIELD_ORDER,
            decreases 4 - i,
        {
            if self.elements[i] >= FIELD_ORDER {
                return false;
            }
            i = i + 1;
        }
        true
    }

    pub fn new(elements: [u64; 4]) -> (r: Digest)
        ensures
            r@ == elements@,
    {
        Digest { elements }
    }
}

/// The input that the hash of a parent node is taken over: the left child's
/// digest followed by the right child's.
pub fn concat_digests(left: &Digest, right: &Digest) -> (r: Vec<u64>)
    ensures
        r@ == left@ + right@,
{
    let mut r: Vec<u64> = Vec::with_capacity(8);
    let mut i: usize = 0;
    while i < 4
        invariant
            i <= 4,
            r@ == left@.subrange(0, i as int),
        decreases 4 - i,
    {
        r.push(left.elements[i]);
        i = i + 1;
    }
    let mut k: usize = 0;
    while k < 4
        invariant
            k <= 4,
            r@ == left@ + right@.subrange(0, k as int),
        decreases 4 - k,
    {
        r.push(right.elements[k]);
        k = k + 1;
    }
    r
}

impl Digest {
    /// Element-wise equality.
    pub fn same_as(&self, other: &Digest) -> (r: bool)
        ensures
            r == (self@ == other@),
    {
        let mut i: usize = 0;
        while i < 4
            invariant
                i <= 4,
                forall|k: int| 0 <= k < i ==> self@[k] == other@[k],
            decreases 4 - i,
        {
            if self.elements[i] != other.elements[i] {
                return false;
            }
            i = i + 1;
        }
        assert(self@ =~= other@);
        true
    }
}

} // verus!
