//! A fixed-size bitmap that keeps count of its set bits.

use vstd::prelude::*;

verus! {

/// `SIZE` bytes that stand for `8 * SIZE` bits, bit `i` being bit `i % 8` of
/// byte `i / 8`, with the number of set bits kept beside them.
pub struct BitMap<const SIZE: usize> {
    inner: [u8; SIZE],
    occupied: usize,
}

/// Whether bit `j` of the byte `b` is set.
pub open spec fn byte_bit(b: u8, j: u8) -> bool {
    b & (1u8 << j) != 0
}

/// Whether bit `i` of the bitmap `bytes` is set.
pub open spec fn bit_at(bytes: Seq<u8>, i: int) -> bool {
    byte_bit(bytes[i / 8], (i % 8) as u8)
}

/// `bytes` with bit `i` set to `val`.
pub open spec fn with_bit(bytes: Seq<u8>, i: int, val: bool) -> Seq<u8> {
    bytes.update(
        i / 8,
        if val {
            bytes[i / 8] | (1u8 << ((i % 8) as u8))
        } else {
            bytes[i / 8] & !(1u8 << ((i % 8) as u8))
        },
    )
}

/// Number of set bits among the first `n` bits of `bytes`.
pub open spec fn count_bits(bytes: Seq<u8>, n: nat) -> nat
    decreases n,
{
    if n == 0 {
        0
    } else {
        count_bits(bytes, (n - 1) as nat) + (if bit_at(bytes, n - 1) {
            1nat
        } else {
            0nat
        })
    }
}

/// Setting or clearing one bit of a byte changes that bit and no other.
pub proof fn lemma_byte_bit(b: u8, k: u8, j: u8)
    requires
        k < 8,
        j < 8,
    ensures
        byte_bit(b | (1u8 << k), j) == (j == k || byte_bit(b, j)),
        byte_bit(b & !(1u8 << k), j) == (j != k && byte_bit(b, j)),
        !byte_bit(0u8, j),
{
    assert(((b | (1u8 << k)) & (1u8 << j) != 0) == (j == k || (b & (1u8 << j) != 0)))
        by (bit_vector)
        requires
            k < 8,
            j < 8,
    ;
    assert(((b & !(1u8 << k)) & (1u8 << j) != 0) == (j != k && (b & (1u8 << j) != 0)))
        by (bit_vector)
        requires
            k < 8,
            j < 8,
    ;
    assert(0u8 & (1u8 << j) == 0) by (bit_vector);
}

/// Setting a bit of a bitmap changes that bit and no other.
pub proof fn lemma_with_bit(bytes: Seq<u8>, i: int, val: bool, j: int)
    requires
        0 <= i < 8 * bytes.len(),
        0 <= j < 8 * bytes.len(),
    ensures
        with_bit(bytes, i, val).len() == bytes.len(),
        bit_at(with_bit(bytes, i, val), j) == (if j == i {
            val
        } else {
            bit_at(bytes, j)
        }),
{
    lemma_byte_bit(bytes[i / 8], (i % 8) as u8, (j % 8) as u8);
}

/// The count is between zero, where no bit is set, and `n`, where all are.
pub proof fn lemma_count_bounds(bytes: Seq<u8>, n: nat)
    ensures
        count_bits(bytes, n) <= n,
        count_bits(bytes, n) == 0 <==> forall|i: int| 0 <= i < n ==> !bit_at(bytes, i),
        count_bits(bytes, n) == n <==> forall|i: int| 0 <= i < n ==> bit_at(bytes, i),
    decreases n,
{
    if n > 0 {
        lemma_count_bounds(bytes, (n - 1) as nat);
        if count_bits(bytes, n) == 0 {
            assert forall|i: int| 0 <= i < n implies !bit_at(bytes, i) by {
                if i < n - 1 {
                }
            }
        }
        if count_bits(bytes, n) == n {
            assert forall|i: int| 0 <= i < n implies bit_at(bytes, i) by {
                if i < n - 1 {
                }
            }
        }
    }
}

/// Two bitmaps that differ in bit `i` at most have counts that differ by that
/// bit.
pub proof fn lemma_count_flip(a: Seq<u8>, b: Seq<u8>, i: int, n: nat)
    requires
        0 <= i,
        forall|j: int| 0 <= j < n && j != i ==> bit_at(a, j) == bit_at(b, j),
    ensures
        count_bits(b, n) + (if i < n && bit_at(a, i) {
            1nat
        } else {
            0nat
        }) == count_bits(a, n) + (if i < n && bit_at(b, i) {
            1nat
        } else {
            0nat
        }),
    decreases n,
{
    if n > 0 {
        lemma_count_flip(a, b, i, (n - 1) as nat);
    }
}

impl<const SIZE: usize> BitMap<SIZE> {
    /// The bytes of the bitmap.
    pub closed spec fn bytes(&self) -> Seq<u8> {
        self.inner@
    }

    /// The number of set bits that the bitmap has counted.
    pub closed spec fn occupied(&self) -> nat {
        self.occupied as nat
    }

    /// Whether bit `i` is set.
    #[verifier::inline]
    pub open spec fn bit(&self, i: int) -> bool {
        bit_at(self.bytes(), i)
    }

    /// The bitmap's invariant: the count is the number of set bits. It holds
    /// of a new bitmap and `set` keeps it; writing through `as_mut_slice` may
    /// break it.
    pub open spec fn wf(&self) -> bool {
        &&& self.bytes().len() == SIZE
        &&& 8 * SIZE <= usize::MAX
        &&& self.occupied() == count_bits(self.bytes(), (8 * SIZE) as nat)
    }

    /// A bitmap with no bit set.
    pub fn new() -> (bm: Self)
        requires
            8 * SIZE <= usize::MAX,
        ensures
            bm.wf(),
            bm.occupied() == 0,
            bm.bytes() == Seq::new(SIZE as nat, |i: int| 0u8),
            forall|i: int| 0 <= i < 8 * SIZE ==> !bm.bit(i),
    {
        let bm = BitMap { inner: [0u8; SIZE], occupied: 0 };
        proof {
            assert(bm.bytes() =~= Seq::new(SIZE as nat, |i: int| 0u8));
            assert forall|i: int| 0 <= i < 8 * SIZE implies !bm.bit(i) by {
                lemma_byte_bit(0, 0, (i % 8) as u8);
            }
            lemma_count_bounds(bm.bytes(), (8 * SIZE) as nat);
        }
        bm
    }

    /// The bitmap whose bytes are `bytes`, its set bits counted.
    pub fn from_bytes(bytes: &[u8]) -> (bm: Self)
        requires
            bytes@.len() == SIZE,
            8 * SIZE <= usize::MAX,
        ensures
            bm.wf(),
            bm.bytes() == bytes@,
    {
        let mut inner = [0u8; SIZE];
        let mut occupied: usize = 0;
        let mut i: usize = 0;
        while i < SIZE
            invariant
                i <= SIZE,
                bytes@.len() == SIZE,
                8 * SIZE <= usize::MAX,
                inner@.len() == SIZE,
                forall|j: int| 0 <= j < i ==> inner@[j] == bytes@[j],
                occupied == count_bits(bytes@, (8 * i) as nat),
            decreases SIZE - i,
        {
            let b = bytes[i];
            inner[i] = b;
            let mut k: u8 = 0;
            while k < 8
                invariant
                    k <= 8,
                    i < SIZE,
                    8 * SIZE <= usize::MAX,
                    bytes@.len() == SIZE,
                    b == bytes@[i as int],
                    occupied == count_bits(bytes@, (8 * i + k) as nat),
                decreases 8 - k,
            {
                proof {
                    lemma_count_bounds(bytes@, (8 * i + k) as nat);
                    assert((8 * i + k) / 8 == i as int);
                    assert((8 * i + k) % 8 == k as int);
                }
                if b & (1u8 << k) != 0 {
                    occupied = occupied + 1;
                }
                k = k + 1;
            }
            i = i + 1;
        }
        let bm = BitMap { inner, occupied };
        assert(bm.bytes() =~= bytes@);
        bm
    }

    /// Sets bit `i` to `val` and keeps the count.
    pub fn set(&mut self, i: usize, val: bool)
        requires
            old(self).wf(),
            i < 8 * SIZE,
        ensures
            final(self).wf(),
            final(self).bytes() == with_bit(old(self).bytes(), i as int, val),
            forall|j: int|
                0 <= j < 8 * SIZE ==> final(self).bit(j) == (if j == i {
                    val
                } else {
                    old(self).bit(j)
                }),
            final(self).occupied() == old(self).occupied() + (if val && !old(self).bit(i as int) {
                1int
            } else {
                0int
            }) - (if !val && old(self).bit(i as int) {
                1int
            } else {
                0int
            }),
    {
        let index = i / 8;
        let bit_index: u8 = 1u8 << ((i % 8) as u8);
        let was = self.check(i);
        proof {
            lemma_count_bounds(self.bytes(), (8 * SIZE) as nat);
        }
        if val {
            if !was {
                self.occupied = self.occupied + 1;
            }
            self.inner[index] = self.inner[index] | bit_index;
        } else {
            if was && self.occupied > 0 {
                self.occupied = self.occupied - 1;
            }
            self.inner[index] = self.inner[index] & !bit_index;
        }
        proof {
            assert forall|j: int| 0 <= j < 8 * SIZE implies final(self).bit(j) == (if j == i {
                val
            } else {
                old(self).bit(j)
            }) by {
                lemma_byte_bit(old(self).bytes()[index as int], (i % 8) as u8, (j % 8) as u8);
            }
            lemma_count_flip(old(self).bytes(), self.bytes(), i as int, (8 * SIZE) as nat);
        }
    }

    /// Whether bit `i` is set.
    pub fn check(&self, i: usize) -> (b: bool)
        requires
            i < 8 * SIZE,
        ensures
            b == self.bit(i as int),
    {
        let pos_i = i / 8;
        let pos_j = i % 8;
        let b = self.inner[pos_i];
        b & (1u8 << (pos_j as u8)) != 0
    }

    /// The bytes of the bitmap.
    pub fn as_slice(&self) -> (s: &[u8])
        ensures
            s@ == self.bytes(),
    {
        &self.inner
    }

    /// The bytes of the bitmap, to write to. The count stays as it is: who
    /// changes the number of set bits this way leaves the bitmap ill-formed.
    pub fn as_mut_slice(&mut self) -> (s: &mut [u8])
        ensures
            s@ == old(self).bytes(),
            final(self).bytes() == final(s)@,
            final(self).occupied() == old(self).occupied(),
    {
        &mut self.inner
    }

    /// Whether no bit is counted as set.
    pub fn is_empty(&self) -> (b: bool)
        ensures
            b == (self.occupied() == 0),
            self.wf() ==> (b <==> forall|i: int| 0 <= i < 8 * SIZE ==> !self.bit(i)),
    {
        proof {
            lemma_count_bounds(self.bytes(), (8 * SIZE) as nat);
        }
        self.occupied == 0
    }

    /// Whether every bit is counted as set.
    pub fn is_full(&self) -> (b: bool)
        ensures
            b == (self.occupied() == 8 * SIZE),
            self.wf() ==> (b <==> forall|i: int| 0 <= i < 8 * SIZE ==> self.bit(i)),
    {
        proof {
            lemma_count_bounds(self.bytes(), (8 * SIZE) as nat);
        }
        self.occupied / 8 == SIZE && self.occupied % 8 == 0
    }
}

} // verus!
