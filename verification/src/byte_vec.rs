use vstd::prelude::*;
use crate::bucket::grown_cap;

verus! {

/// Whether `n` is a power of two.
pub open spec fn is_pow2(n: nat) -> bool
    decreases n,
{
    if n == 0 {
        false
    } else if n == 1 {
        true
    } else {
        n % 2 == 0 && is_pow2(n / 2)
    }
}

/// A growable array of elements of one byte size, stored back to back.
pub struct ByteVec {
    bytes: Vec<u8>,
    size: usize,
    len: usize,
    cap: usize,
}

/// What a `ByteVec` holds, as plain values.
pub ghost struct ByteVecView {
    /// The byte size of an element.
    pub size: nat,
    /// The number of elements.
    pub len: nat,
    /// The number of elements that fit before the array grows.
    pub cap: nat,
    /// The elements' bytes, back to back.
    pub bytes: Seq<u8>,
}

impl View for ByteVec {
    type V = ByteVecView;

    closed spec fn view(&self) -> ByteVecView {
        ByteVecView {
            size: self.size as nat,
            len: self.len as nat,
            cap: self.cap as nat,
            bytes: self.bytes@,
        }
    }
}

proof fn lemma_mul_succ(a: nat, b: nat, c: nat)
    ensures
        (a + c) * b == a * b + c * b,
{
    assert((a + c) * b == a * b + c * b) by (nonlinear_arith);
}

impl ByteVec {
    /// The invariant: the bytes are exactly `len` elements of `size` bytes.
    pub open spec fn wf(self) -> bool {
        &&& self@.bytes.len() == self@.len * self@.size
        &&& self@.len <= self@.cap
        &&& self@.size > 0
    }

    /// An empty array of elements of `size` bytes, with room for 32.
    pub fn new(size: usize) -> (r: ByteVec)
        requires
            is_pow2(size as nat),
            size * 32 <= isize::MAX,
        ensures
            r.wf(),
            r@ == (ByteVecView { size: size as nat, len: 0, cap: 32, bytes: Seq::empty() }),
    {
        let r = ByteVec { bytes: Vec::with_capacity(size * 32), size, len: 0, cap: 32 };
        assert(size > 0) by {
            if size == 0 {
                assert(!is_pow2(0));
            }
        }
        assert(r@.len * r@.size == 0) by (nonlinear_arith)
            requires
                r@.len == 0,
        ;
        r
    }

    /// The number of elements.
    pub fn len(&self) -> (r: usize)
        ensures
            r == self@.len,
    {
        self.len
    }

    /// The number of elements that fit before the array grows.
    pub fn capacity(&self) -> (r: usize)
        ensures
            r == self@.cap,
    {
        self.cap
    }

    /// The elements' bytes, back to back.
    pub fn bytes(&self) -> (r: &Vec<u8>)
        ensures
            r@ == self@.bytes,
    {
        &self.bytes
    }

    /// Makes room for `elements` more elements: when they do not fit, the
    /// capacity becomes twice what is needed.
    fn reserve(&mut self, elements: usize)
        requires
            old(self).wf(),
            old(self)@.len + elements <= usize::MAX,
            old(self)@.len + elements > old(self)@.cap ==> (old(self)@.len + elements) * 2
                * old(self)@.size <= usize::MAX,
        ensures
            final(self).wf(),
            final(self)@ == (ByteVecView {
                cap: grown_cap(old(self)@.len, elements as nat, old(self)@.cap),
                ..old(self)@
            }),
    {
        if self.len + elements > self.cap {
            proof {
                let a = (self.len + elements) * 2;
                let sz = self.size as int;
                assert(a <= a * sz) by (nonlinear_arith)
                    requires
                        sz >= 1,
                        a >= 0,
                ;
                assert((a - self.len) * sz <= a * sz) by (nonlinear_arith)
                    requires
                        sz >= 1,
                        a >= self.len,
                        self.len >= 0,
                ;
            }
            let new_elements = (self.len + elements) * 2;
            self.bytes.reserve((new_elements - self.len) * self.size);
            self.cap = new_elements;
        }
    }

    /// Appends one element, given as its bytes.
    pub fn push(&mut self, elem: &Vec<u8>)
        requires
            old(self).wf(),
            elem@.len() == old(self)@.size,
            old(self)@.len + 1 <= usize::MAX,
            old(self)@.len + 1 > old(self)@.cap ==> (old(self)@.len + 1) * 2 * old(self)@.size
                <= usize::MAX,
        ensures
            final(self).wf(),
            final(self)@ == (ByteVecView {
                len: old(self)@.len + 1,
                cap: grown_cap(old(self)@.len, 1, old(self)@.cap),
                bytes: old(self)@.bytes + elem@,
                ..old(self)@
            }),
    {
        self.reserve(1);
        let mut i: usize = 0;
        let ghost start = self.bytes@;
        while i < elem.len()
            invariant
                i <= elem.len(),
                self.bytes@ == start + elem@.take(i as int),
                self.size == old(self).size,
                self.len == old(self).len,
                self.cap == grown_cap(old(self)@.len, 1, old(self)@.cap),
                start == old(self)@.bytes,
            decreases elem.len() - i,
        {
            self.bytes.push(elem[i]);
            assert(elem@.take(i + 1) =~= elem@.take(i as int).push(elem@[i as int]));
            i = i + 1;
        }
        assert(elem@.take(i as int) =~= elem@);
        self.len = self.len + 1;
        proof {
            lemma_mul_succ(old(self)@.len, self.size as nat, 1);
        }
    }

    /// Moves all elements of `self` to the end of `other`, leaving `self` empty.
    pub fn draining_push(&mut self, other: &mut ByteVec)
        requires
            old(self).wf(),
            old(other).wf(),
            old(other)@.size == old(self)@.size,
            old(other)@.len + old(self)@.len <= usize::MAX,
            old(other)@.len + old(self)@.len > old(other)@.cap ==> (old(other)@.len + old(
                self,
            )@.len) * 2 * old(other)@.size <= usize::MAX,
        ensures
            final(self).wf(),
            final(other).wf(),
            final(self)@ == (ByteVecView { len: 0, bytes: Seq::empty(), ..old(self)@ }),
            final(other)@ == (ByteVecView {
                len: old(other)@.len + old(self)@.len,
                cap: grown_cap(old(other)@.len, old(self)@.len, old(other)@.cap),
                bytes: old(other)@.bytes + old(self)@.bytes,
                ..old(other)@
            }),
    {
        other.reserve(self.len);
        other.bytes.append(&mut self.bytes);
        other.len = other.len + self.len;
        self.len = 0;
        proof {
            lemma_mul_succ(old(other)@.len, self.size as nat, old(self)@.len);
            assert(self@.len * self@.size == 0) by (nonlinear_arith)
                requires
                    self@.len == 0,
            ;
        }
    }
}

} // verus!
