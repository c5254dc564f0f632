//! A fixed-length field of bits, stored least significant bit first in bytes.
use vstd::prelude::*;

verus! {

/// The number of set bits of a byte.
pub open spec fn popcount8(x: u8) -> u32 {
    ((x & 1) + ((x >> 1u8) & 1) + ((x >> 2u8) & 1) + ((x >> 3u8) & 1) + ((x >> 4u8) & 1) + ((x
        >> 5u8) & 1) + ((x >> 6u8) & 1) + ((x >> 7u8) & 1)) as u32
}

/// `count_ones` of a byte is the number of its set bits.
pub assume_specification[ u8::count_ones ](x: u8) -> (r: u32)
    ensures
        r == popcount8(x),
;

/// Bit `i` of a byte string, least significant bit of each byte first.
pub open spec fn bit_of(arr: Seq<u8>, i: int) -> bool {
    (arr[i / 8] >> ((i % 8) as u8)) & 1 == 1
}

/// The number of set bits among the first `n` bits of a byte string.
pub open spec fn count_bits(arr: Seq<u8>, n: int) -> nat
    decreases n,
{
    if n <= 0 {
        0
    } else {
        count_bits(arr, n - 1) + if bit_of(arr, n - 1) {
            1nat
        } else {
            0nat
        }
    }
}

/// The number of `true` values of a sequence.
pub open spec fn count_true(s: Seq<bool>) -> nat
    decreases s.len(),
{
    if s.len() == 0 {
        0
    } else {
        count_true(s.drop_last()) + if s.last() {
            1nat
        } else {
            0nat
        }
    }
}

/// The number of bytes that hold `len` bits.
pub open spec fn bytes_for(len: nat) -> nat {
    if len % 8 == 0 {
        len / 8
    } else {
        len / 8 + 1
    }
}

#[derive(Clone, Debug)]
pub struct BitField {
    arr: Vec<u8>,
    len: usize,
}

impl View for BitField {
    type V = Seq<bool>;

    closed spec fn view(&self) -> Seq<bool> {
        Seq::new(self.len as nat, |i: int| bit_of(self.arr@, i))
    }
}

/// The number of set bits among the `r` lowest bits of a byte.
pub open spec fn low_count(x: u8, r: u8) -> u32 {
    ((if 0 < r { x & 1 } else { 0 }) + (if 1 < r { (x >> 1u8) & 1 } else { 0 }) + (if 2 < r { (x >> 2u8) & 1 } else { 0 }) + (if 3 < r { (x >> 3u8) & 1 } else { 0 }) + (if 4 < r { (x >> 4u8) & 1 } else { 0 }) + (if 5 < r { (x >> 5u8) & 1 } else { 0 }) + (if 6 < r { (x >> 6u8) & 1 } else { 0 }) + (if 7 < r { (x >> 7u8) & 1 } else { 0 })) as u32
}

proof fn lemma_shifted_count(x: u8, r: u8)
    requires
        1 <= r <= 8,
    ensures
        popcount8(x << (8 - r) as u8) == low_count(x, r),
        (popcount8(x << (8 - r) as u8) == r as u32) <==> (forall|k: u8| k < r ==> #[trigger] ((x >> k) & 1) == 1),
{
    assert(popcount8(x << (8 - r) as u8) == low_count(x, r)) by (bit_vector)
        requires
            1 <= r <= 8,
    ;
    assert((low_count(x, r) == r as u32) <==> ((0u8 < r ==> (x >> 0u8) & 1 == 1) && (1u8 < r ==> (x
        >> 1u8) & 1 == 1) && (2u8 < r ==> (x >> 2u8) & 1 == 1) && (3u8 < r ==> (x >> 3u8) & 1 == 1)
        && (4u8 < r ==> (x >> 4u8) & 1 == 1) && (5u8 < r ==> (x >> 5u8) & 1 == 1) && (6u8 < r ==> (x
        >> 6u8) & 1 == 1) && (7u8 < r ==> (x >> 7u8) & 1 == 1))) by (bit_vector)
        requires
            1 <= r <= 8,
    ;
    let all = (0u8 < r ==> (x >> 0u8) & 1 == 1) && (1u8 < r ==> (x >> 1u8) & 1 == 1) && (2u8 < r ==> (x
        >> 2u8) & 1 == 1) && (3u8 < r ==> (x >> 3u8) & 1 == 1) && (4u8 < r ==> (x >> 4u8) & 1 == 1)
        && (5u8 < r ==> (x >> 5u8) & 1 == 1) && (6u8 < r ==> (x >> 6u8) & 1 == 1) && (7u8 < r ==> (x
        >> 7u8) & 1 == 1);
    assert forall|k: u8| k < 8 implies ((x >> k) & 1) == 1 || ((x >> k) & 1) == 0 by {
        assert(k < 8 ==> ((x >> k) & 1) == 1 || ((x >> k) & 1) == 0) by (bit_vector);
    }
    if all {
        assert forall|k: u8| k < r implies #[trigger] ((x >> k) & 1) == 1 by {
            assert(k == 0 || k == 1 || k == 2 || k == 3 || k == 4 || k == 5 || k == 6 || k == 7);
        }
    }
    if forall|k: u8| k < r ==> #[trigger] ((x >> k) & 1) == 1 {
        assert(0u8 < r ==> (x >> 0u8) & 1 == 1);
        assert(1u8 < r ==> (x >> 1u8) & 1 == 1);
        assert(2u8 < r ==> (x >> 2u8) & 1 == 1);
        assert(3u8 < r ==> (x >> 3u8) & 1 == 1);
        assert(4u8 < r ==> (x >> 4u8) & 1 == 1);
        assert(5u8 < r ==> (x >> 5u8) & 1 == 1);
        assert(6u8 < r ==> (x >> 6u8) & 1 == 1);
        assert(7u8 < r ==> (x >> 7u8) & 1 == 1);
    }
}

/// Counting bits across the bits of one byte.
proof fn lemma_count_partial(arr: Seq<u8>, j: int, r: int)
    requires
        0 <= j < arr.len(),
        0 <= r <= 8,
    ensures
        count_bits(arr, 8 * j + r) == count_bits(arr, 8 * j) + low_count(arr[j], r as u8),
    decreases r,
{
    if r > 0 {
        lemma_count_partial(arr, j, r - 1);
        lemma_div_mod8(j, r - 1);
        let x = arr[j];
        let k = (r - 1) as u8;
        assert(low_count(x, (k + 1) as u8) == low_count(x, k) + ((x >> k) & 1)) by (bit_vector)
            requires
                k < 8,
        ;
        assert(((x >> k) & 1) == 1 || ((x >> k) & 1) == 0) by (bit_vector);
    }
}

proof fn lemma_full_byte(x: u8)
    ensures
        (x == 0xff) <==> (forall|k: u8| k < 8 ==> #[trigger] ((x >> k) & 1) == 1),
        (x == 0) <==> (forall|k: u8| k < 8 ==> #[trigger] ((x >> k) & 1) == 0),
        low_count(x, 8) == popcount8(x),
{
    assert(low_count(x, 8) == popcount8(x)) by (bit_vector);
    assert((x == 0xff) <==> ((x >> 0u8) & 1 == 1 && (x >> 1u8) & 1 == 1 && (x >> 2u8) & 1 == 1 && (x
        >> 3u8) & 1 == 1 && (x >> 4u8) & 1 == 1 && (x >> 5u8) & 1 == 1 && (x >> 6u8) & 1 == 1 && (x
        >> 7u8) & 1 == 1)) by (bit_vector);
    assert((x == 0) <==> ((x >> 0u8) & 1 == 0 && (x >> 1u8) & 1 == 0 && (x >> 2u8) & 1 == 0 && (x
        >> 3u8) & 1 == 0 && (x >> 4u8) & 1 == 0 && (x >> 5u8) & 1 == 0 && (x >> 6u8) & 1 == 0 && (x
        >> 7u8) & 1 == 0)) by (bit_vector);
    let ones = (x >> 0u8) & 1 == 1 && (x >> 1u8) & 1 == 1 && (x >> 2u8) & 1 == 1 && (x >> 3u8) & 1 == 1 && (x >> 4u8) & 1 == 1 && (x >> 5u8) & 1 == 1 && (x >> 6u8) & 1 == 1 && (x >> 7u8) & 1 == 1;
    let zeros = (x >> 0u8) & 1 == 0 && (x >> 1u8) & 1 == 0 && (x >> 2u8) & 1 == 0 && (x >> 3u8) & 1 == 0 && (x >> 4u8) & 1 == 0 && (x >> 5u8) & 1 == 0 && (x >> 6u8) & 1 == 0 && (x >> 7u8) & 1 == 0;
    if ones {
        assert forall|k: u8| k < 8 implies #[trigger] ((x >> k) & 1) == 1 by {
            assert(k == 0 || k == 1 || k == 2 || k == 3 || k == 4 || k == 5 || k == 6 || k == 7);
        }
    }
    if zeros {
        assert forall|k: u8| k < 8 implies #[trigger] ((x >> k) & 1) == 0 by {
            assert(k == 0 || k == 1 || k == 2 || k == 3 || k == 4 || k == 5 || k == 6 || k == 7);
        }
    }
    if forall|k: u8| k < 8 ==> #[trigger] ((x >> k) & 1) == 1 {
        assert((x >> 0u8) & 1 == 1 && (x >> 1u8) & 1 == 1 && (x >> 2u8) & 1 == 1 && (x >> 3u8) & 1 == 1);
        assert((x >> 4u8) & 1 == 1 && (x >> 5u8) & 1 == 1 && (x >> 6u8) & 1 == 1 && (x >> 7u8) & 1 == 1);
    }
    if forall|k: u8| k < 8 ==> #[trigger] ((x >> k) & 1) == 0 {
        assert((x >> 0u8) & 1 == 0 && (x >> 1u8) & 1 == 0 && (x >> 2u8) & 1 == 0 && (x >> 3u8) & 1 == 0);
        assert((x >> 4u8) & 1 == 0 && (x >> 5u8) & 1 == 0 && (x >> 6u8) & 1 == 0 && (x >> 7u8) & 1 == 0);
    }
}

/// The count of set bits of the field is the count of `true` in its view.
proof fn lemma_count_view(arr: Seq<u8>, n: nat)
    ensures
        count_true(Seq::new(n, |i: int| bit_of(arr, i))) == count_bits(arr, n as int),
    decreases n,
{
    if n > 0 {
        let s = Seq::new(n, |i: int| bit_of(arr, i));
        assert(s.drop_last() =~= Seq::new((n - 1) as nat, |i: int| bit_of(arr, i)));
        lemma_count_view(arr, (n - 1) as nat);
    }
}

impl Default for BitField {
    fn default() -> (r: Self)
        ensures
            r.wf(),
            r@.len() == 0,
            r.spec_bytes().len() == 0,
    {
        BitField { arr: Vec::new(), len: 0 }
    }
}

/// The bytes for `len` bits reach past the bits of all but the last one.
proof fn lemma_bytes_for(len: nat)
    ensures
        bytes_for(len) >= 1 ==> 8 * (bytes_for(len) - 1) < len,
        len <= 8 * bytes_for(len),
        bytes_for(len) == 0 <==> len == 0,
{
}

proof fn lemma_div_mod8(j: int, k: int)
    requires
        0 <= j,
        0 <= k < 8,
    ensures
        (8 * j + k) / 8 == j,
        (8 * j + k) % 8 == k,
{
    assert((8 * j + k) / 8 == j && (8 * j + k) % 8 == k) by (nonlinear_arith)
        requires
            0 <= j,
            0 <= k < 8,
    ;
}

proof fn lemma_set_bit(b: u8, o: u8, k: u8)
    requires
        o < 8,
        k < 8,
    ensures
        ((b | (1u8 << o)) >> k) & 1 == (if k == o { 1u8 } else { (b >> k) & 1 }),
        ((b & !(1u8 << o)) >> k) & 1 == (if k == o { 0u8 } else { (b >> k) & 1 }),
{
    assert(((b | (1u8 << o)) >> k) & 1 == (if k == o { 1u8 } else { (b >> k) & 1 })) by (bit_vector)
        requires
            o < 8,
            k < 8,
    ;
    assert(((b & !(1u8 << o)) >> k) & 1 == (if k == o { 0u8 } else { (b >> k) & 1 })) by (bit_vector)
        requires
            o < 8,
            k < 8,
    ;
}

impl BitField {
    /// The storage holds exactly the bytes the bits need, and the bits of
    /// the last byte past the length are clear.
    pub closed spec fn wf(&self) -> bool {
        &&& self.arr@.len() == bytes_for(self.len as nat)
        &&& forall|i: int| self.len <= i < 8 * self.arr@.len() ==> !bit_of(self.arr@, i)
    }

    /// The bytes that store the bits.
    pub closed spec fn spec_bytes(&self) -> Seq<u8> {
        self.arr@
    }

    /// A field of `len` clear bits.
    pub fn new(len: usize) -> (r: Self)
        ensures
            r.wf(),
            r@ == Seq::new(len as nat, |i: int| false),
    {
        Self::with_value(len, false)
    }

    /// A field of `len` bits, all set to `val`.
    pub fn with_value(len: usize, val: bool) -> (r: Self)
        ensures
            r.wf(),
            r@ == Seq::new(len as nat, |i: int| val),
    {
        let arr_len = if len % 8 == 0 {
            len / 8
        } else {
            len / 8 + 1
        };
        let v: u8 = if val {
            0xff
        } else {
            0
        };
        let mut arr: Vec<u8> = Vec::new();
        let mut k: usize = 0;
        while k < arr_len
            invariant
                k <= arr_len,
                arr@.len() == k,
                forall|j: int| 0 <= j < k ==> arr@[j] == v,
            decreases arr_len - k,
        {
            arr.push(v);
            k = k + 1;
        }
        let mut bits = Self { arr, len };
        proof {
            assert forall|i: int| 0 <= i < 8 * arr_len implies bit_of(bits.arr@, i) == val by {
                let j = i / 8;
                let o = (i % 8) as u8;
                assert(bits.arr@[j] == v);
                assert(((0xffu8 >> o) & 1 == 1) && ((0u8 >> o) & 1 == 0)) by (bit_vector)
                    requires
                        o < 8,
                ;
            }
        }
        bits.clear_unused();
        proof {
            assert(bits@ =~= Seq::new(len as nat, |i: int| val));
        }
        bits
    }

    /// The value of bit `idx`.
    pub fn get(&self, idx: usize) -> (r: bool)
        requires
            self.wf(),
            idx < self@.len(),
        ensures
            r == self@[idx as int],
    {
        let i = idx / 8;
        let offset = (idx % 8) as u8;
        let b = self.arr[i];
        proof {
            assert((b & (1u8 << offset)) != 0 <==> (b >> offset) & 1 == 1) by (bit_vector)
                requires
                    offset < 8,
            ;
        }
        (b & (1u8 << offset)) != 0
    }

    /// Clears the bits of the last byte that lie past the length.
    fn clear_unused(&mut self)
        requires
            old(self).arr@.len() == bytes_for(old(self).len as nat),
        ensures
            final(self).wf(),
            final(self).len == old(self).len,
            final(self).arr@.len() == old(self).arr@.len(),
            forall|i: int| 0 <= i < old(self).len ==> bit_of(final(self).arr@, i) == bit_of(old(self).arr@, i),
            forall|j: int| 0 <= j < old(self).arr@.len() - 1 ==> final(self).arr@[j] == old(self).arr@[j],
    {
        if self.arr.len() == 0 {
            return;
        }
        let extra_bits = if self.len % 8 == 0 {
            0
        } else {
            8 - self.len % 8
        };
        let last = self.arr.len() - 1;
        let mut last_byte = self.arr[last];
        let ghost orig = last_byte;
        proof {
            lemma_div_mod8(last as int, 0);
        }
        assert(extra_bits < 8);
        let mut i: usize = 0;
        while i < extra_bits
            invariant
                extra_bits < 8,
                i <= extra_bits,
                forall|k: u8| k < 8 && k >= 8 - i ==> (last_byte >> k) & 1 == 0,
                forall|k: u8| k < 8 - i ==> (last_byte >> k) & 1 == (orig >> k) & 1,
            decreases extra_bits - i,
        {
            let sh = (7 - i) as u8;
            let mask: u8 = 1u8 << sh;
            let ghost prev = last_byte;
            last_byte = last_byte & !mask;
            proof {
                assert forall|k: u8| k < 8 implies (last_byte >> k) & 1 == (if k == sh { 0u8 } else { (prev >> k) & 1 }) by {
                    lemma_set_bit(prev, sh, k);
                }
            }
            i = i + 1;
        }
        let ghost old_arr = self.arr@;
        self.arr.set(last, last_byte);
        proof {
            assert forall|i: int| 0 <= i < self.len implies bit_of(self.arr@, i) == bit_of(old_arr, i) by {
                let j = i / 8;
                let k = i % 8;
                if j == last {
                    lemma_div_mod8(last as int, k);
                    assert(k < 8 - extra_bits);
                    assert((last_byte >> (k as u8)) & 1 == (orig >> (k as u8)) & 1);
                }
            }
            assert forall|i: int| self.len <= i < 8 * self.arr@.len() implies !bit_of(self.arr@, i) by {
                let k = i - 8 * last;
                lemma_div_mod8(last as int, k);
                assert((last_byte >> (k as u8)) & 1 == 0);
            }
        }
    }

    /// Sets bit `idx` to `value`; false (and no change) when `idx` is not
    /// below the length.
    pub fn set(&mut self, idx: usize, value: bool) -> (r: bool)
        requires
            old(self).wf(),
        ensures
            final(self).wf(),
            r == (idx < old(self)@.len()),
            r ==> final(self)@ == old(self)@.update(idx as int, value),
            !r ==> final(self)@ == old(self)@ && final(self).spec_bytes() == old(self).spec_bytes(),
    {
        if idx >= self.len {
            return false;
        }
        let i = idx / 8;
        let offset = (idx % 8) as u8;
        let b = self.arr[i];
        let nb = if value {
            b | (1u8 << offset)
        } else {
            b & !(1u8 << offset)
        };
        let ghost old_arr = self.arr@;
        self.arr.set(i, nb);
        proof {
            assert forall|k: int| 0 <= k < 8 * self.arr@.len() implies bit_of(self.arr@, k) == if k == idx { value } else { bit_of(old_arr, k) } by {
                let j = k / 8;
                let o = (k % 8) as u8;
                lemma_set_bit(b, offset, o);
                if j == i {
                    lemma_div_mod8(i as int, (idx % 8) as int);
                    if o == offset {
                        assert(k == 8 * j + o);
                        assert(idx == 8 * i + offset);
                    } else {
                        assert(k != idx);
                    }
                }
            }
            assert(self@ =~= old(self)@.update(idx as int, value));
        }
        true
    }

    /// Sets every bit to `value`.
    pub fn set_all(&mut self, value: bool)
        requires
            old(self).wf(),
        ensures
            final(self).wf(),
            final(self)@ == Seq::new(old(self)@.len(), |i: int| value),
    {
        let v: u8 = if value {
            0xff
        } else {
            0
        };
        let n = self.arr.len();
        let mut k: usize = 0;
        while k < n
            invariant
                k <= n,
                self.arr@.len() == n,
                n == bytes_for(self.len as nat),
                self.len == old(self).len,
                forall|j: int| 0 <= j < k ==> self.arr@[j] == v,
            decreases n - k,
        {
            self.arr.set(k, v);
            k = k + 1;
        }
        proof {
            assert forall|i: int| 0 <= i < 8 * n implies bit_of(self.arr@, i) == value by {
                let j = i / 8;
                let o = (i % 8) as u8;
                assert(((0xffu8 >> o) & 1 == 1) && ((0u8 >> o) & 1 == 0)) by (bit_vector)
                    requires
                        o < 8,
                ;
            }
        }
        if value {
            self.clear_unused();
        }
        proof {
            assert(self@ =~= Seq::new(old(self)@.len(), |i: int| value));
        }
    }

    /// Whether the field is not empty and all its bits are set.
    pub fn all_true(&self) -> (r: bool)
        requires
            self.wf(),
        ensures
            r == (self@.len() > 0 && forall|i: int| 0 <= i < self@.len() ==> self@[i]),
    {
        proof {
            lemma_bytes_for(self.len as nat);
        }
        if self.arr.len() == 0 {
            return false;
        }
        let n = self.arr.len();
        let mut i: usize = 0;
        while i < n - 1
            invariant
                n == self.arr@.len(),
                n == bytes_for(self.len as nat),
                8 * (n - 1) < self.len,
                n >= 1,
                i <= n - 1,
                forall|k: int| 0 <= k < 8 * i ==> bit_of(self.arr@, k),
            decreases n - 1 - i,
        {
            let b = self.arr[i];
            proof {
                lemma_full_byte(b);
            }
            if b != 0xff {
                proof {
                    let k = choose|k: u8| k < 8 && #[trigger] ((b >> k) & 1) != 1;
                    lemma_div_mod8(i as int, k as int);
                    assert(8 * i + k < self.len);
                    assert(!self@[8 * i + k]);
                }
                return false;
            }
            proof {
                assert forall|k: int| 0 <= k < 8 * (i + 1) implies bit_of(self.arr@, k) by {
                    if k >= 8 * i {
                        lemma_div_mod8(i as int, k - 8 * i);
                        assert((b >> ((k - 8 * i) as u8)) & 1 == 1);
                    }
                }
            }
            i = i + 1;
        }
        let remaining = self.len - (n - 1) * 8;
        let last = self.arr[n - 1];
        let sh = (8 - remaining) as u8;
        let last_byte: u8 = last << sh;
        proof {
            lemma_shifted_count(last, remaining as u8);
        }
        let r = last_byte.count_ones() as usize == remaining;
        proof {
            if r {
                assert forall|k: int| 0 <= k < self@.len() implies self@[k] by {
                    if k >= 8 * (n - 1) {
                        let o = (k - 8 * (n - 1)) as u8;
                        lemma_div_mod8(n - 1, o as int);
                        assert((last >> o) & 1 == 1);
                    }
                }
            } else {
                let k = choose|k: u8| k < remaining as u8 && #[trigger] ((last >> k) & 1) != 1;
                lemma_div_mod8(n - 1, k as int);
                assert(!self@[8 * (n - 1) + k]);
            }
        }
        r
    }

    /// The number of set bits.
    pub fn true_count(&self) -> (r: usize)
        requires
            self.wf(),
        ensures
            r == count_true(self@),
    {
        proof {
            lemma_count_view(self.arr@, self.len as nat);
            lemma_bytes_for(self.len as nat);
        }
        if self.arr.len() == 0 {
            return 0;
        }
        let n = self.arr.len();
        let mut count: usize = 0;
        let mut i: usize = 0;
        while i < n - 1
            invariant
                n == self.arr@.len(),
                n == bytes_for(self.len as nat),
                n >= 1,
                i <= n - 1,
                count == count_bits(self.arr@, 8 * i),
                count <= 8 * i,
            decreases n - 1 - i,
        {
            let b = self.arr[i];
            proof {
                lemma_full_byte(b);
                lemma_count_partial(self.arr@, i as int, 8);
                assert(popcount8(b) <= 8) by (bit_vector);
            }
            count = count + b.count_ones() as usize;
            i = i + 1;
        }
        let remaining = self.len - (n - 1) * 8;
        let last = self.arr[n - 1];
        let sh = (8 - remaining) as u8;
        let last_byte: u8 = last << sh;
        proof {
            lemma_shifted_count(last, remaining as u8);
            lemma_count_partial(self.arr@, n - 1, remaining as int);
            let rr = remaining as u8;
            assert(low_count(last, rr) <= rr) by (bit_vector)
                requires
                    rr <= 8,
            ;
        }
        count + last_byte.count_ones() as usize
    }

    /// An iterator over the bits, in order.
    pub fn iter(&self) -> (r: BitIter<'_>)
        ensures
            r.field == self,
            r.idx == 0,
    {
        BitIter { field: self, idx: 0 }
    }

    /// The bits, in order.
    pub fn to_vec(&self) -> (r: Vec<bool>)
        requires
            self.wf(),
        ensures
            r@ == self@,
    {
        let mut it = self.iter();
        let mut v: Vec<bool> = Vec::new();
        loop
            invariant
                it.field == self,
                self.wf(),
                it.idx <= self@.len(),
                v@ == self@.take(it.idx as int),
            decreases self@.len() - it.idx,
        {
            match it.next() {
                Some(b) => {
                    v.push(b);
                    proof {
                        assert(v@ =~= self@.take(it.idx as int));
                    }
                },
                None => {
                    proof {
                        assert(self@.take(it.idx as int) =~= self@);
                    }
                    return v;
                },
            }
        }
    }

    /// The number of bits.
    pub fn len(&self) -> (r: usize)
        ensures
            r == self@.len(),
    {
        self.len
    }

    /// Whether no bit is set.
    pub fn is_empty(&self) -> (r: bool)
        requires
            self.wf(),
        ensures
            r == (forall|i: int| 0 <= i < self@.len() ==> !self@[i]),
    {
        let mut i: usize = 0;
        while i < self.arr.len()
            invariant
                self.wf(),
                i <= self.arr@.len(),
                forall|k: int| 0 <= k < 8 * i ==> !bit_of(self.arr@, k),
            decreases self.arr@.len() - i,
        {
            let b = self.arr[i];
            proof {
                lemma_full_byte(b);
            }
            if b != 0 {
                proof {
                    let k = choose|k: u8| k < 8 && #[trigger] ((b >> k) & 1) != 0;
                    lemma_div_mod8(i as int, k as int);
                    assert(((b >> k) & 1) != 0 ==> ((b >> k) & 1) == 1) by (bit_vector);
                    assert(bit_of(self.arr@, 8 * i + k));
                    assert(8 * i + k < self.len);
                    assert(self@[8 * i + k]);
                }
                return false;
            }
            proof {
                assert forall|k: int| 0 <= k < 8 * (i + 1) implies !bit_of(self.arr@, k) by {
                    if k >= 8 * i {
                        lemma_div_mod8(i as int, k - 8 * i);
                        assert((b >> ((k - 8 * i) as u8)) & 1 == 0);
                    }
                }
            }
            i = i + 1;
        }
        true
    }

    /// The number of bytes that store the bits.
    pub fn len_bytes(&self) -> (r: usize)
        requires
            self.wf(),
        ensures
            r == self.spec_bytes().len(),
            r == bytes_for(self@.len()),
    {
        self.arr.len()
    }

    /// Copies the stored bytes into `buf`, which must have their length.
    pub fn write_to(&self, buf: &mut [u8])
        requires
            old(buf)@.len() == self.spec_bytes().len(),
        ensures
            final(buf)@ == self.spec_bytes(),
    {
        let mut i: usize = 0;
        while i < self.arr.len()
            invariant
                i <= self.arr@.len(),
                buf@.len() == self.arr@.len(),
                forall|k: int| 0 <= k < i ==> buf@[k] == self.arr@[k],
            decreases self.arr@.len() - i,
        {
            buf[i] = self.arr[i];
            i = i + 1;
        }
        assert(buf@ =~= self.arr@);
    }

    /// Takes the bits from the first bytes of `buf` (as many bytes as the
    /// field stores), dropping those past the length.
    pub fn copy_from(&mut self, buf: &[u8])
        requires
            old(self).wf(),
            buf@.len() >= old(self).spec_bytes().len(),
        ensures
            final(self).wf(),
            final(self)@ == Seq::new(old(self)@.len(), |i: int| bit_of(buf@, i)),
    {
        let n = self.arr.len();
        let mut i: usize = 0;
        while i < n
            invariant
                n == self.arr@.len(),
                n == bytes_for(self.len as nat),
                self.len == old(self).len,
                i <= n,
                buf@.len() >= n,
                forall|k: int| 0 <= k < i ==> self.arr@[k] == buf@[k],
            decreases n - i,
        {
            self.arr.set(i, buf[i]);
            i = i + 1;
        }
        let ghost copied = self.arr@;
        self.clear_unused();
        proof {
            assert forall|k: int| 0 <= k < self.len implies bit_of(copied, k) == bit_of(buf@, k) by {
                assert(k / 8 < n) by (nonlinear_arith)
                    requires
                        0 <= k < self.len,
                        n == bytes_for(self.len as nat),
                ;
            }
            assert(self@ =~= Seq::new(old(self)@.len(), |i: int| bit_of(buf@, i)));
        }
    }

    /// A field holding all the bits of `buf`.
    pub fn from_bytes(buf: Vec<u8>) -> (r: Self)
        requires
            buf@.len() <= usize::MAX / 8,
        ensures
            r.wf(),
            r@ == Seq::new(8 * buf@.len(), |i: int| bit_of(buf@, i)),
            r.spec_bytes() == buf@,
    {
        let len = buf.len() * 8;
        proof {
            assert(len % 8 == 0 && len / 8 == buf@.len()) by (nonlinear_arith)
                requires
                    len == buf@.len() * 8,
            ;
        }
        Self { arr: buf, len }
    }
}

/// The bytes of a field carry its bits: what a field of the same length
/// copies from the bytes another wrote out (`write_to`, `copy_from`) are
/// the bits of that other field.
pub proof fn law_bytes_carry_bits(f: BitField)
    ensures
        Seq::new(f@.len(), |i: int| bit_of(f.spec_bytes(), i)) == f@,
{
    assert(Seq::new(f@.len(), |i: int| bit_of(f.spec_bytes(), i)) =~= f@);
}

/// A bit set reads back, and setting one bit leaves the others as they
/// were (`set`, then `get`).
pub proof fn law_set_then_get(bits: Seq<bool>, idx: int, value: bool, j: int)
    requires
        0 <= idx < bits.len(),
        0 <= j < bits.len(),
    ensures
        bits.update(idx, value)[idx] == value,
        j != idx ==> bits.update(idx, value)[j] == bits[j],
{
}

/// Bit `i` of `bits` as a number: 1 when it is set, 0 when it is clear or
/// past the end.
pub open spec fn bit_value(bits: Seq<bool>, i: int) -> u8 {
    if 0 <= i < bits.len() && bits[i] {
        1
    } else {
        0
    }
}

/// Byte `j` of the packing of `bits`, least significant bit first, the
/// bits past the end clear.
pub open spec fn packed_byte(bits: Seq<bool>, j: int) -> u8 {
    bit_value(bits, 8 * j) | (bit_value(bits, 8 * j + 1) << 1u8) | (bit_value(bits, 8 * j + 2) << 2u8) | (
    bit_value(bits, 8 * j + 3) << 3u8) | (bit_value(bits, 8 * j + 4) << 4u8) | (bit_value(bits, 8 * j + 5)
        << 5u8) | (bit_value(bits, 8 * j + 6) << 6u8) | (bit_value(bits, 8 * j + 7) << 7u8)
}

/// A byte is the packing of its eight bits.
proof fn lemma_byte_of_bits(x: u8, b0: u8, b1: u8, b2: u8, b3: u8, b4: u8, b5: u8, b6: u8, b7: u8)
    requires
        b0 == (x >> 0u8) & 1,
        b1 == (x >> 1u8) & 1,
        b2 == (x >> 2u8) & 1,
        b3 == (x >> 3u8) & 1,
        b4 == (x >> 4u8) & 1,
        b5 == (x >> 5u8) & 1,
        b6 == (x >> 6u8) & 1,
        b7 == (x >> 7u8) & 1,
    ensures
        x == b0 | (b1 << 1u8) | (b2 << 2u8) | (b3 << 3u8) | (b4 << 4u8) | (b5 << 5u8) | (b6 << 6u8) | (b7 << 7u8),
{
    assert(x == b0 | (b1 << 1u8) | (b2 << 2u8) | (b3 << 3u8) | (b4 << 4u8) | (b5 << 5u8) | (b6 << 6u8) | (b7 << 7u8)) by (bit_vector)
        requires
            b0 == (x >> 0u8) & 1,
            b1 == (x >> 1u8) & 1,
            b2 == (x >> 2u8) & 1,
            b3 == (x >> 3u8) & 1,
            b4 == (x >> 4u8) & 1,
            b5 == (x >> 5u8) & 1,
            b6 == (x >> 6u8) & 1,
            b7 == (x >> 7u8) & 1,
    ;
}

/// Bit `k` of byte `j` of a field is bit `8 * j + k` of the field, clear
/// past its length.
proof fn lemma_bit_k(f: BitField, j: int, k: int)
    requires
        f.wf(),
        0 <= j < f.spec_bytes().len(),
        0 <= k < 8,
    ensures
        ((f.spec_bytes()[j] >> (k as u8)) & 1) == bit_value(f@, 8 * j + k),
{
    let x = f.arr@[j];
    let kk = k as u8;
    lemma_div_mod8(j, k);
    assert(((x >> kk) & 1) == 1 || ((x >> kk) & 1) == 0) by (bit_vector);
    if 8 * j + k >= f.len {
        assert(!bit_of(f.arr@, 8 * j + k));
    }
}

/// The bytes of a field (those `write_to` copies out) are exactly the
/// packing of its bits, the bits of the last byte past the length clear.
pub proof fn law_bytes_of_bits(f: BitField)
    requires
        f.wf(),
    ensures
        f.spec_bytes().len() == bytes_for(f@.len()),
        forall|j: int| 0 <= j < f.spec_bytes().len() ==> #[trigger] f.spec_bytes()[j] == packed_byte(f@, j),
{
    assert forall|j: int| 0 <= j < f.spec_bytes().len() implies #[trigger] f.spec_bytes()[j] == packed_byte(f@, j) by {
        let x = f.arr@[j];
        lemma_bit_k(f, j, 0);
        lemma_bit_k(f, j, 1);
        lemma_bit_k(f, j, 2);
        lemma_bit_k(f, j, 3);
        lemma_bit_k(f, j, 4);
        lemma_bit_k(f, j, 5);
        lemma_bit_k(f, j, 6);
        lemma_bit_k(f, j, 7);
        lemma_byte_of_bits(x, bit_value(f@, 8 * j), bit_value(f@, 8 * j + 1), bit_value(f@, 8 * j + 2),
            bit_value(f@, 8 * j + 3), bit_value(f@, 8 * j + 4), bit_value(f@, 8 * j + 5), bit_value(f@, 8 * j + 6),
            bit_value(f@, 8 * j + 7));
    }
}

/// What `copy_from` reads of the bytes `write_to` wrote out of a field
/// gives back that field's bits, into a field of the same length.
pub proof fn law_copy_from_undoes_write_to(f: BitField, g0: BitField, buf: Seq<u8>, g1: BitField)
    requires
        f.wf(),
        g0.wf(),
        buf == f.spec_bytes(),
        g0@.len() == f@.len(),
        g1@ == Seq::new(g0@.len(), |i: int| bit_of(buf, i)),
    ensures
        g1@ == f@,
{
    assert(g1@ =~= f@);
}

/// A field is all set when it is not empty and each of its bits is set;
/// then, and only then, as many bits are set as it holds.
pub proof fn law_all_true_count(bits: Seq<bool>)
    ensures
        (bits.len() > 0 && forall|i: int| 0 <= i < bits.len() ==> bits[i]) == (bits.len() > 0 && count_true(bits)
            == bits.len()),
    decreases bits.len(),
{
    if bits.len() > 0 {
        law_all_true_count(bits.drop_last());
        lemma_count_true_le(bits.drop_last());
        if forall|i: int| 0 <= i < bits.len() ==> bits[i] {
            assert forall|i: int| 0 <= i < bits.drop_last().len() implies bits.drop_last()[i] by {
                assert(bits[i]);
            }
            if bits.drop_last().len() == 0 {
                assert(count_true(bits.drop_last()) == 0);
            }
        }
        if count_true(bits) == bits.len() {
            assert(bits.last());
            assert(count_true(bits.drop_last()) == bits.drop_last().len());
            if bits.drop_last().len() > 0 {
                assert forall|i: int| 0 <= i < bits.len() implies bits[i] by {
                    if i < bits.len() - 1 {
                        assert(bits.drop_last()[i] == bits[i]);
                    }
                }
            }
        }
    }
}

/// No more bits are set than there are.
proof fn lemma_count_true_le(bits: Seq<bool>)
    ensures
        count_true(bits) <= bits.len(),
    decreases bits.len(),
{
    if bits.len() > 0 {
        lemma_count_true_le(bits.drop_last());
    }
}

/// The bits of a field, in order.
pub struct BitIter<'a> {
    pub field: &'a BitField,
    pub idx: usize,
}

impl<'a> BitIter<'a> {
    /// The next bit, or `None` past the last one.
    pub fn next(&mut self) -> (r: Option<bool>)
        requires
            old(self).field.wf(),
            old(self).idx <= old(self).field@.len(),
        ensures
            final(self).field == old(self).field,
            old(self).idx == old(self).field@.len() ==> r is None && final(self).idx == old(self).idx,
            old(self).idx < old(self).field@.len() ==> r == Some(old(self).field@[old(self).idx as int])
                && final(self).idx == old(self).idx + 1,
    {
        if self.idx == self.field.len() {
            None
        } else {
            let value = self.field.get(self.idx);
            self.idx = self.idx + 1;
            Some(value)
        }
    }
}

impl From<Vec<u8>> for BitField {
    /// A field holding all the bits of `buf`; the length is the byte count
    /// times eight, wrapping as machine arithmetic does.
    fn from(buf: Vec<u8>) -> (r: Self) {
        let len = buf.len().wrapping_mul(8);
        BitField { arr: buf, len }
    }
}

impl vstd::std_specs::convert::FromSpecImpl<Vec<u8>> for BitField {
    open spec fn obeys_from_spec() -> bool {
        true
    }

    closed spec fn from_spec(buf: Vec<u8>) -> BitField {
        BitField { arr: buf, len: ((buf@.len() * 8) % (usize::MAX as nat + 1)) as usize }
    }
}

} // verus!
