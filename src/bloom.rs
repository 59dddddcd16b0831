use vstd::prelude::*;

verus! {

/// DJB2 over the UTF-8 bytes of a value, with 64-bit wrap-around.
pub open spec fn djb2(b: Seq<u8>) -> u64
    decreases b.len(),
{
    if b.len() == 0 {
        5381
    } else {
        ((djb2(b.drop_last()) as int * 33 + b.last() as int) % 0x1_0000_0000_0000_0000) as u64
    }
}

/// The 31-multiplicative hash over the UTF-8 bytes of a value, with 64-bit wrap-around.
pub open spec fn hash31(b: Seq<u8>) -> u64
    decreases b.len(),
{
    if b.len() == 0 {
        0
    } else {
        ((hash31(b.drop_last()) as int * 31 + b.last() as int) % 0x1_0000_0000_0000_0000) as u64
    }
}

/// The first bit position that `item` sets in a filter of `size` bits.
pub open spec fn slot1(item: Seq<char>, size: nat) -> int {
    djb2(vstd::utf8::encode_utf8(item)) as int % size as int
}

/// The second bit position that `item` sets in a filter of `size` bits.
pub open spec fn slot2(item: Seq<char>, size: nat) -> int {
    hash31(vstd::utf8::encode_utf8(item)) as int % size as int
}

/// A fixed-size Bloom filter over strings with two hash functions.
pub struct BloomFilter {
    bit_array: Vec<bool>,
    size: usize,
}

impl BloomFilter {
    pub closed spec fn bits(&self) -> Seq<bool> {
        self.bit_array@
    }

    pub closed spec fn spec_size(&self) -> nat {
        self.size as nat
    }

    pub open spec fn wf(&self) -> bool {
        &&& self.spec_size() > 0
        &&& self.bits().len() == self.spec_size()
    }

    /// Whether the filter reports `item` as probably present.
    pub open spec fn holds(&self, item: Seq<char>) -> bool {
        self.bits()[slot1(item, self.spec_size())] && self.bits()[slot2(item, self.spec_size())]
    }

    /// An empty filter of `size` bits.
    pub fn new(size: usize) -> (r: Self)
        requires
            size > 0,
        ensures
            r.wf(),
            r.spec_size() == size,
            forall|i: int| 0 <= i < size ==> !r.bits()[i],
    {
        let mut bit_array: Vec<bool> = Vec::new();
        let mut i: usize = 0;
        while i < size
            invariant
                i <= size,
                bit_array@.len() == i,
                forall|j: int| 0 <= j < i ==> !bit_array@[j],
            decreases size - i,
        {
            bit_array.push(false);
            i = i + 1;
        }
        BloomFilter { bit_array, size }
    }

    pub fn size(&self) -> (r: usize)
        ensures
            r == self.spec_size(),
    {
        self.size
    }

    /// The bits of the filter, in order.
    pub fn bit_array(&self) -> (r: &Vec<bool>)
        ensures
            r@ == self.bits(),
    {
        &self.bit_array
    }

    /// A filter with the given bits; `None` when there are none.
    pub fn from_bits(bits: Vec<bool>) -> (r: Option<Self>)
        ensures
            match r {
                Some(f) => f.wf() && f.bits() == bits@,
                None => bits@.len() == 0,
            },
    {
        let size = bits.len();
        if size == 0 {
            None
        } else {
            Some(BloomFilter { bit_array: bits, size })
        }
    }

    /// Sets the two bits of `item`.
    pub fn add(&mut self, item: &str)
        requires
            old(self).wf(),
        ensures
            final(self).wf(),
            final(self).spec_size() == old(self).spec_size(),
            final(self).bits() == old(self).bits().update(
                slot1(item@, old(self).spec_size()),
                true,
            ).update(slot2(item@, old(self).spec_size()), true),
    {
        let h1 = (Self::hash1(item) % (self.size as u64)) as usize;
        let h2 = (Self::hash2(item) % (self.size as u64)) as usize;
        self.bit_array.set(h1, true);
        self.bit_array.set(h2, true);
    }

    /// Probably present (`true`) or definitely absent (`false`).
    pub fn contains(&self, item: &str) -> (r: bool)
        requires
            self.wf(),
        ensures
            r == self.holds(item@),
    {
        let h1 = (Self::hash1(item) % (self.size as u64)) as usize;
        let h2 = (Self::hash2(item) % (self.size as u64)) as usize;
        self.bit_array[h1] && self.bit_array[h2]
    }

    fn hash1(item: &str) -> (r: u64)
        ensures
            r == djb2(vstd::utf8::encode_utf8(item@)),
    {
        let bytes = item.as_bytes();
        let mut hash: u64 = 5381;
        let mut i: usize = 0;
        while i < bytes.len()
            invariant
                i <= bytes@.len(),
                bytes@ == vstd::utf8::encode_utf8(item@),
                hash == djb2(bytes@.take(i as int)),
            decreases bytes@.len() - i,
        {
            assert(bytes@.take(i + 1).drop_last() == bytes@.take(i as int));
            hash = hash.wrapping_mul(33).wrapping_add(bytes[i] as u64);
            i = i + 1;
        }
        assert(bytes@.take(i as int) == bytes@);
        hash
    }

    fn hash2(item: &str) -> (r: u64)
        ensures
            r == hash31(vstd::utf8::encode_utf8(item@)),
    {
        let bytes = item.as_bytes();
        let mut hash: u64 = 0;
        let mut i: usize = 0;
        while i < bytes.len()
            invariant
                i <= bytes@.len(),
                bytes@ == vstd::utf8::encode_utf8(item@),
                hash == hash31(bytes@.take(i as int)),
            decreases bytes@.len() - i,
        {
            assert(bytes@.take(i + 1).drop_last() == bytes@.take(i as int));
            hash = hash.wrapping_mul(31).wrapping_add(bytes[i] as u64);
            i = i + 1;
        }
        assert(bytes@.take(i as int) == bytes@);
        hash
    }
}

/// No false negatives: once `item` is added, the filter reports it as
/// probably present, and every later addition keeps it so.
pub proof fn lemma_added_is_present(f: BloomFilter, g: BloomFilter, item: Seq<char>, other: Seq<char>)
    requires
        f.wf(),
        g.wf(),
        g.spec_size() == f.spec_size(),
        g.bits() == f.bits().update(slot1(other, f.spec_size()), true).update(
            slot2(other, f.spec_size()),
            true,
        ),
    ensures
        f.holds(item) ==> g.holds(item),
        g.holds(other),
{
}

} // verus!
