use vstd::prelude::*;

verus! {

/// Whether bit `k` (counted from the least significant end) of `b` is set.
pub open spec fn bit_of(b: u8, k: u8) -> bool {
    (b >> k) & 1u8 == 1u8
}

/// The number of bytes that hold `length` bits.
pub open spec fn byte_count(length: nat) -> nat {
    if length % 8 == 0 {
        length / 8
    } else {
        length / 8 + 1
    }
}

/// Bit-dense storage for cells.
#[derive(Clone, Debug, PartialEq, Eq)]
pub struct BitStore(Vec<u8>);

impl BitStore {
    /// The bytes that back the store.
    pub closed spec fn bytes(&self) -> Seq<u8> {
        self.0@
    }
}

impl View for BitStore {
    type V = Seq<bool>;

    /// Every bit of every byte, least significant bit first within a byte.
    open spec fn view(&self) -> Seq<bool> {
        Seq::new(8 * self.bytes().len(), |i: int| bit_of(self.bytes()[i / 8], (i % 8) as u8))
    }
}

proof fn lemma_mask_test(b: u8, k: u8)
    requires
        k < 8,
    ensures
        (b & (1u8 << k) == (1u8 << k)) == bit_of(b, k),
{
    assert((b & (1u8 << k) == (1u8 << k)) == ((b >> k) & 1u8 == 1u8)) by (bit_vector)
        requires
            k < 8,
    ;
}

proof fn lemma_mask_set(b: u8, k: u8, j: u8)
    requires
        k < 8,
        j < 8,
    ensures
        bit_of(b | (1u8 << k), j) == (j == k || bit_of(b, j)),
{
    assert(((b | (1u8 << k)) >> j) & 1u8 == 1u8 <==> (j == k || (b >> j) & 1u8 == 1u8))
        by (bit_vector)
        requires
            k < 8,
            j < 8,
    ;
}

proof fn lemma_mask_clear(b: u8, k: u8, j: u8)
    requires
        k < 8,
        j < 8,
    ensures
        bit_of(b & !(1u8 << k), j) == (j != k && bit_of(b, j)),
{
    assert(((b & !(1u8 << k)) >> j) & 1u8 == 1u8 <==> (j != k && (b >> j) & 1u8 == 1u8))
        by (bit_vector)
        requires
            k < 8,
            j < 8,
    ;
}

proof fn lemma_zero_byte(j: u8)
    requires
        j < 8,
    ensures
        !bit_of(0u8, j),
{
    assert((0u8 >> j) & 1u8 != 1u8) by (bit_vector);
}

impl BitStore {
    /// Tests whether the bit at `idx` is set.
    pub fn get(&self, idx: usize) -> (r: bool)
        requires
            idx < self@.len(),
        ensures
            r == self@[idx as int],
    {
        let k = (idx % 8) as u8;
        let mask: u8 = 1u8 << k;
        proof {
            lemma_mask_test(self.0@[(idx / 8) as int], k);
        }
        self.0[idx / 8] & mask == mask
    }

    /// Sets the bit at `idx` to `val`, leaving every other bit as it was.
    pub fn set(&mut self, idx: usize, val: bool)
        requires
            idx < old(self)@.len(),
        ensures
            final(self)@ == old(self)@.update(idx as int, val),
            final(self).bytes().len() == old(self).bytes().len(),
    {
        let k = (idx % 8) as u8;
        let mask: u8 = 1u8 << k;
        let pos = idx / 8;
        let b = self.0[pos];
        let nb = if val {
            b | mask
        } else {
            b & !mask
        };
        self.0.set(pos, nb);
        proof {
            let expected = old(self)@.update(idx as int, val);
            assert forall|i: int| 0 <= i < self@.len() implies #[trigger] self@[i] == expected[i] by {
                if i / 8 == pos as int {
                    let j = (i % 8) as u8;
                    if val {
                        lemma_mask_set(b, k, j);
                    } else {
                        lemma_mask_clear(b, k, j);
                    }
                }
            }
            assert(self@ =~= expected);
        }
    }

    /// The number of bytes the data occupies.
    pub fn size(&self) -> (r: usize)
        ensures
            r == self.bytes().len(),
    {
        self.0.len()
    }

    /// The bytes that back the store, for a reader that takes them as they are.
    pub fn as_bytes(&self) -> (r: &[u8])
        ensures
            r@ == self.bytes(),
    {
        self.0.as_slice()
    }

    /// The number of bytes that hold `length` bits.
    pub fn byte_count(length: usize) -> (r: usize)
        ensures
            r == byte_count(length as nat),
    {
        let rounding: usize = if length % 8 != 0 {
            1
        } else {
            0
        };
        length / 8 + rounding
    }

    /// A store for `length` bits filled with the given random bytes; the bits past
    /// `length` in the last byte are whatever those bytes hold.
    pub fn random(length: usize, bytes: Vec<u8>) -> (r: Self)
        requires
            bytes@.len() == byte_count(length as nat),
        ensures
            r.bytes() == bytes@,
    {
        BitStore(bytes)
    }

    /// A store for `length` bits with every bit clear.
    pub fn empty(length: usize) -> (r: Self)
        ensures
            r.bytes().len() == byte_count(length as nat),
            r.bytes() == Seq::new(byte_count(length as nat), |i: int| 0u8),
            r@ == Seq::new(8 * byte_count(length as nat), |i: int| false),
    {
        let max = Self::byte_count(length);
        let mut v: Vec<u8> = Vec::new();
        let mut i: usize = 0;
        while i < max
            invariant
                i <= max,
                v@ == Seq::new(i as nat, |j: int| 0u8),
            decreases max - i,
        {
            v.push(0u8);
            i = i + 1;
            assert(v@ =~= Seq::new(i as nat, |j: int| 0u8));
        }
        let r = BitStore(v);
        proof {
            assert forall|j: int| 0 <= j < r@.len() implies #[trigger] r@[j] == false by {
                lemma_zero_byte((j % 8) as u8);
            }
            assert(r@ =~= Seq::new(8 * byte_count(length as nat), |i: int| false));
        }
        r
    }

    /// A copy of the store with the same bits.
    pub fn duplicate(&self) -> (r: Self)
        ensures
            r.bytes() == self.bytes(),
            r@ == self@,
    {
        let v = self.0.clone();
        assert(v@ =~= self.0@);
        BitStore(v)
    }
}

/// Setting a bit and reading it back gives the value set, and every other bit reads as before.
/// `after` is what `set(i, v)` leaves of `before`.
pub proof fn lemma_set_get(before: BitStore, after: BitStore, i: int, v: bool, j: int)
    requires
        0 <= i < before@.len(),
        0 <= j < before@.len(),
        after@ == before@.update(i, v),
    ensures
        after@[i] == v,
        j != i ==> after@[j] == before@[j],
        after@.len() == before@.len(),
{
}

} // verus!
