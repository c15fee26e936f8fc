use vstd::prelude::*;

verus! {

broadcast use vstd::array::group_array_axioms;

/// Whether bit `k` (0 is the least significant) of `byte` is set.
pub open spec fn bit_at(byte: u8, k: int) -> bool {
    byte & (1u8 << (k as u8)) != 0
}

/// The eight bits of a byte, least significant first.
pub open spec fn byte_bits(byte: u8) -> Seq<bool> {
    Seq::new(8, |k: int| bit_at(byte, k))
}

/// The bits of a byte sequence: bit `i` is bit `i % 8` of byte `i / 8`.
pub open spec fn bits_of(bytes: Seq<u8>) -> Seq<bool> {
    Seq::new(bytes.len() * 8, |i: int| bit_at(bytes[i / 8], i % 8))
}

/// The number of `true` entries of a sequence.
pub open spec fn count_true(s: Seq<bool>) -> nat
    decreases s.len(),
{
    if s.len() == 0 {
        0
    } else {
        count_true(s.drop_last()) + if s.last() {
            1nat
        } else {
            0nat
        }
    }
}

/// The set entries of two sequences joined are those of each.
pub proof fn lemma_count_true_concat(a: Seq<bool>, b: Seq<bool>)
    ensures
        count_true(a + b) == count_true(a) + count_true(b),
    decreases b.len(),
{
    if b.len() == 0 {
        assert(a + b =~= a);
    } else {
        lemma_count_true_concat(a, b.drop_last());
        assert((a + b).drop_last() =~= a + b.drop_last());
    }
}

/// No more entries are set than there are entries.
pub proof fn lemma_count_true_bound(s: Seq<bool>)
    ensures
        count_true(s) <= s.len(),
    decreases s.len(),
{
    if s.len() > 0 {
        lemma_count_true_bound(s.drop_last());
    }
}

proof fn lemma_bits_of_take(bytes: Seq<u8>, i: int)
    requires
        0 <= i < bytes.len(),
    ensures
        bits_of(bytes.take(i + 1)) =~= bits_of(bytes.take(i)) + byte_bits(bytes[i]),
{
    let l = bits_of(bytes.take(i + 1));
    let r = bits_of(bytes.take(i)) + byte_bits(bytes[i]);
    assert forall|j: int| 0 <= j < l.len() implies l[j] == r[j] by {
        if j < i * 8 {
            assert(j / 8 < i) by (nonlinear_arith)
                requires
                    0 <= j < i * 8,
            ;
        } else {
            assert(j / 8 == i && j % 8 == j - i * 8) by (nonlinear_arith)
                requires
                    i * 8 <= j < i * 8 + 8,
            ;
        }
    }
}

/// The number of set bits of `byte`, as `u8::count_ones` gives it.
fn byte_count_ones(byte: u8) -> (r: u32)
    ensures
        r == count_true(byte_bits(byte)),
        r <= 8,
{
    let ghost bits = byte_bits(byte);
    let mut n: u32 = 0;
    let mut k: usize = 0;
    assert(bits.take(0) =~= Seq::<bool>::empty());
    while k < 8
        invariant
            k <= 8,
            bits == byte_bits(byte),
            n == count_true(bits.take(k as int)),
            n <= k,
        decreases 8 - k,
    {
        let set = get_bit(byte, k);
        proof {
            assert(bits.take(k + 1).drop_last() =~= bits.take(k as int));
            assert(bits.take(k + 1).last() == bit_at(byte, k as int));
        }
        if set {
            n += 1;
        }
        k += 1;
    }
    assert(bits.take(8) =~= bits);
    n
}

/// The number of clear bits of `byte`, as `u8::count_zeros` gives it.
fn byte_count_zeros(byte: u8) -> (r: u32)
    ensures
        r == 8 - count_true(byte_bits(byte)),
{
    8 - byte_count_ones(byte)
}

/// Reads bit `bit` of `src`.
pub fn get_bit(src: u8, bit: usize) -> (r: bool)
    requires
        bit < 8,
    ensures
        r == bit_at(src, bit as int),
{
    src & (1u8 << (bit as u8)) != 0
}

/// Sets or clears bit `bit` of `src`, leaving the other bits as they were.
pub fn set_bit(src: &mut u8, bit: usize, v: bool)
    requires
        bit < 8,
    ensures
        forall|k: int|
            0 <= k < 8 ==> #[trigger] bit_at(*final(src), k) == if k == bit {
                v
            } else {
                bit_at(*old(src), k)
            },
{
    let b: u8 = bit as u8;
    let s: u8 = *src;
    if v {
        *src = s | (1u8 << b);
        assert(forall|k: u8|
            k < 8 ==> (((s | (1u8 << b)) & (1u8 << k) != 0) == if k == b {
                true
            } else {
                s & (1u8 << k) != 0
            })) by (bit_vector)
            requires
                b < 8,
        ;
    } else {
        *src = s & !(1u8 << b);
        assert(forall|k: u8|
            k < 8 ==> (((s & !(1u8 << b)) & (1u8 << k) != 0) == if k == b {
                false
            } else {
                s & (1u8 << k) != 0
            })) by (bit_vector)
            requires
                b < 8,
        ;
    }
    assert forall|k: int| 0 <= k < 8 implies #[trigger] bit_at(*src, k) == if k == bit {
        v
    } else {
        bit_at(s, k)
    } by {
        let kk: u8 = k as u8;
        assert(kk == k);
    }
}

/// A fixed array of `N * 8` bits stored in `N` bytes.
pub struct BitArray<const N: usize> {
    data: [u8; N],
}

impl<const N: usize> View for BitArray<N> {
    type V = Seq<bool>;

    open spec fn view(&self) -> Seq<bool> {
        bits_of(self.bytes())
    }
}

impl<const N: usize> BitArray<N> {
    /// The bytes that hold the bits.
    pub closed spec fn bytes(&self) -> Seq<u8> {
        self.data@
    }

    /// The array holds `N` bytes, eight bits to a byte.
    pub proof fn lemma_bytes_len(&self)
        ensures
            self.bytes().len() == N,
            self@.len() == N * 8,
    {
    }

    /// All bits clear.
    pub fn new() -> (r: Self)
        ensures
            r.bytes() == Seq::new(N as nat, |i: int| 0u8),
            r@ == Seq::new((N * 8) as nat, |i: int| false),
    {
        let r = Self { data: [0u8; N] };
        assert(r.bytes() =~= Seq::new(N as nat, |i: int| 0u8));
        assert forall|i: int| 0 <= i < N * 8 implies #[trigger] r@[i] == false by {
            assert(0 <= i / 8 < N) by (nonlinear_arith)
                requires
                    0 <= i < N * 8,
            ;
            assert(0u8 & (1u8 << ((i % 8) as u8)) == 0) by (bit_vector);
        }
        assert(r@ =~= Seq::new((N * 8) as nat, |i: int| false));
        r
    }

    /// Every bit equal to `v`.
    pub fn splat(v: bool) -> (r: Self)
        ensures
            r.bytes() == Seq::new(N as nat, |i: int| if v { 0xffu8 } else { 0u8 }),
            r@ == Seq::new((N * 8) as nat, |i: int| v),
    {
        let b: u8 = if v {
            !0u8
        } else {
            0u8
        };
        assert(!0u8 == 0xffu8) by (bit_vector);
        let r = Self { data: [b; N] };
        assert(r.bytes() =~= Seq::new(N as nat, |i: int| if v { 0xffu8 } else { 0u8 }));
        assert forall|i: int| 0 <= i < N * 8 implies #[trigger] r@[i] == v by {
            assert(0 <= i / 8 < N) by (nonlinear_arith)
                requires
                    0 <= i < N * 8,
            ;
            let k: u8 = (i % 8) as u8;
            assert(k < 8);
            assert(0xffu8 & (1u8 << k) != 0) by (bit_vector)
                requires
                    k < 8,
            ;
            assert(0u8 & (1u8 << k) == 0) by (bit_vector);
        }
        assert(r@ =~= Seq::new((N * 8) as nat, |i: int| v));
        r
    }

    /// The number of bits.
    pub fn len(&self) -> (r: usize)
        requires
            N * 8 <= usize::MAX,
        ensures
            r == N * 8,
            r == self@.len(),
    {
        N * 8
    }

    /// Bit `index`.
    pub fn get(&self, index: usize) -> (r: bool)
        requires
            index < N * 8,
        ensures
            r == self@[index as int],
    {
        let array_index = index / 8;
        let bit_index = index % 8;
        get_bit(self.data[array_index], bit_index)
    }

    /// Sets bit `index` to `v`; every other bit stays.
    pub fn set(&mut self, index: usize, v: bool)
        requires
            index < N * 8,
        ensures
            final(self)@ == old(self)@.update(index as int, v),
    {
        let array_index = index / 8;
        let bit_index = index % 8;
        let mut byte = self.data[array_index];
        set_bit(&mut byte, bit_index, v);
        self.data[array_index] = byte;
        let ghost o = old(self)@.update(index as int, v);
        assert forall|i: int| 0 <= i < N * 8 implies #[trigger] self@[i] == o[i] by {
            assert(0 <= i / 8 < N) by (nonlinear_arith)
                requires
                    0 <= i < N * 8,
            ;
            if i / 8 == array_index {
                assert(bit_at(byte, i % 8) == if i % 8 == bit_index {
                    v
                } else {
                    bit_at(old(self).data@[i / 8], i % 8)
                });
            }
        }
        assert(self@ =~= o);
    }

    proof fn lemma_count(&self, i: int)
        requires
            0 <= i < N,
        ensures
            count_true(bits_of(self.data@.take(i + 1))) == count_true(bits_of(self.data@.take(i)))
                + count_true(byte_bits(self.data@[i])),
            bits_of(self.data@.take(i + 1)).len() == bits_of(self.data@.take(i)).len() + 8,
    {
        lemma_bits_of_take(self.data@, i);
        lemma_count_true_concat(bits_of(self.data@.take(i)), byte_bits(self.data@[i]));
    }

    /// The number of set bits.
    pub fn count_ones(&self) -> (r: usize)
        requires
            N * 8 <= usize::MAX,
        ensures
            r == count_true(self@),
    {
        let mut sum: usize = 0;
        let mut i: usize = 0;
        while i < N
            invariant
                i <= N,
                N * 8 <= usize::MAX,
                sum == count_true(bits_of(self.data@.take(i as int))),
                bits_of(self.data@.take(i as int)).len() == i * 8,
            decreases N - i,
        {
            proof {
                self.lemma_count(i as int);
                lemma_count_true_bound(byte_bits(self.data@[i as int]));
                lemma_count_true_bound(bits_of(self.data@.take(i as int)));
            }
            sum += byte_count_ones(self.data[i]) as usize;
            i += 1;
        }
        assert(self.data@.take(N as int) =~= self.data@);
        sum
    }

    /// The number of clear bits.
    pub fn count_zeros(&self) -> (r: usize)
        requires
            N * 8 <= usize::MAX,
        ensures
            r == self@.len() - count_true(self@),
            r == count_false(self@),
            r + count_true(self@) == self@.len(),
    {
        proof {
            law_clear_bits(self@);
        }
        let mut sum: usize = 0;
        let mut i: usize = 0;
        while i < N
            invariant
                i <= N,
                N * 8 <= usize::MAX,
                sum == i * 8 - count_true(bits_of(self.data@.take(i as int))),
                bits_of(self.data@.take(i as int)).len() == i * 8,
            decreases N - i,
        {
            proof {
                self.lemma_count(i as int);
                lemma_count_true_bound(byte_bits(self.data@[i as int]));
                lemma_count_true_bound(bits_of(self.data@.take(i as int)));
            }
            sum += byte_count_zeros(self.data[i]) as usize;
            i += 1;
        }
        assert(self.data@.take(N as int) =~= self.data@);
        sum
    }

    /// The bytes, consuming the array.
    pub fn into_bytes(self) -> (r: [u8; N])
        ensures
            r@ == self.bytes(),
    {
        self.data
    }

    /// The bytes, borrowed.
    pub fn as_bytes(&self) -> (r: &[u8; N])
        ensures
            r@ == self.bytes(),
    {
        &self.data
    }

    /// The bytes, mutably borrowed: what is written through the borrow is the new content.
    pub fn as_bytes_mut(&mut self) -> (r: &mut [u8; N])
        ensures
            r@ == old(self).bytes(),
            final(self).bytes() == final(r)@,
    {
        &mut self.data
    }

    /// An iterator over the bits by reference, first to last.
    pub fn iter(&self) -> (r: BitArrayIter<'_, N>)
        ensures
            r.bits() == self@,
            r.index() == 0,
    {
        BitArrayIter::new(self)
    }

    /// An iterator over the bits by value, first to last.
    pub fn into_iter(self) -> (r: BitArrayIntoIter<N>)
        ensures
            r.bits() == self@,
            r.index() == 0,
    {
        BitArrayIntoIter::new(self)
    }
}

impl<const N: usize> Default for BitArray<N> {
    fn default() -> (r: Self)
        ensures
            r@ == Seq::new((N * 8) as nat, |i: int| false),
    {
        Self::new()
    }
}

/// An iterator over the bits of a borrowed `BitArray`.
pub struct BitArrayIter<'a, const N: usize> {
    array: &'a BitArray<N>,
    i: usize,
}

impl<'a, const N: usize> BitArrayIter<'a, N> {
    /// The bits being walked.
    pub closed spec fn bits(&self) -> Seq<bool> {
        self.array@
    }

    /// How many bits were handed out so far.
    pub closed spec fn index(&self) -> nat {
        self.i as nat
    }

    pub fn new(array: &'a BitArray<N>) -> (r: Self)
        ensures
            r.bits() == array@,
            r.index() == 0,
    {
        Self { array, i: 0 }
    }

    /// The next bit, or `None` once every bit was handed out.
    pub fn next(&mut self) -> (r: Option<bool>)
        requires
            N * 8 <= usize::MAX,
        ensures
            final(self).bits() == old(self).bits(),
            old(self).index() < old(self).bits().len() ==> r == Some(old(self).bits()[old(self).index() as int])
                && final(self).index() == old(self).index() + 1,
            old(self).index() >= old(self).bits().len() ==> r is None && final(self).index() == old(self).index(),
    {
        if self.i >= self.array.len() {
            return None;
        }
        let result = self.array.get(self.i);
        self.i += 1;
        Some(result)
    }
}

/// An iterator over the bits of an owned `BitArray`.
pub struct BitArrayIntoIter<const N: usize> {
    array: BitArray<N>,
    i: usize,
}

impl<const N: usize> BitArrayIntoIter<N> {
    /// The bits being walked.
    pub closed spec fn bits(&self) -> Seq<bool> {
        self.array@
    }

    /// How many bits were handed out so far.
    pub closed spec fn index(&self) -> nat {
        self.i as nat
    }

    pub fn new(array: BitArray<N>) -> (r: Self)
        ensures
            r.bits() == array@,
            r.index() == 0,
    {
        Self { array, i: 0 }
    }

    /// The next bit, or `None` once every bit was handed out.
    pub fn next(&mut self) -> (r: Option<bool>)
        requires
            N * 8 <= usize::MAX,
        ensures
            final(self).bits() == old(self).bits(),
            old(self).index() < old(self).bits().len() ==> r == Some(old(self).bits()[old(self).index() as int])
                && final(self).index() == old(self).index() + 1,
            old(self).index() >= old(self).bits().len() ==> r is None && final(self).index() == old(self).index(),
    {
        if self.i >= self.array.len() {
            return None;
        }
        let result = self.array.get(self.i);
        self.i += 1;
        Some(result)
    }
}


/// Setting a bit and reading it back gives what was set; the other bits stay.
pub proof fn law_get_after_set(bits: Seq<bool>, index: int, v: bool, other: int)
    requires
        0 <= index < bits.len(),
        0 <= other < bits.len(),
        other != index,
    ensures
        bits.update(index, v)[index] == v,
        bits.update(index, v)[other] == bits[other],
{
}

/// The set bits and the clear bits together are all the bits.
pub proof fn law_ones_and_zeros(bits: Seq<bool>)
    ensures
        count_true(bits) <= bits.len(),
        count_true(bits) + (bits.len() - count_true(bits)) == bits.len(),
{
    lemma_count_true_bound(bits);
}

/// The number of `false` entries of a sequence.
pub open spec fn count_false(s: Seq<bool>) -> nat {
    count_true(s.map_values(|b: bool| !b))
}

/// Every bit is either set or clear: the clear bits are the bits that are not set.
pub proof fn law_clear_bits(bits: Seq<bool>)
    ensures
        count_true(bits) + count_false(bits) == bits.len(),
    decreases bits.len(),
{
    if bits.len() > 0 {
        law_clear_bits(bits.drop_last());
        assert(bits.map_values(|b: bool| !b).drop_last() =~= bits.drop_last().map_values(
            |b: bool| !b,
        ));
    }
}

/// No bit of a cleared array is set; every bit of an array splat with `true` is.
pub proof fn law_uniform_counts(n: nat)
    ensures
        count_true(Seq::new(n, |i: int| false)) == 0,
        count_true(Seq::new(n, |i: int| true)) == n,
    decreases n,
{
    if n > 0 {
        law_uniform_counts((n - 1) as nat);
        assert(Seq::new(n, |i: int| false).drop_last() =~= Seq::new((n - 1) as nat, |i: int| false));
        assert(Seq::new(n, |i: int| true).drop_last() =~= Seq::new((n - 1) as nat, |i: int| true));
    }
}

} // verus!
