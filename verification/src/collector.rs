//! Sources of values that hand them out in batches.

use crate::error::DecodeError;
use crate::layout::{element, repeated, whole_elements, zeros};
use crate::null_merge::uniform;
use vstd::prelude::*;
use vstd::slice::slice_subrange;

verus! {

/// The bytes of `elems`, one element after the other.
pub open spec fn concat(elems: Seq<Seq<u8>>) -> Seq<u8>
    decreases elems.len(),
{
    if elems.len() == 0 {
        Seq::empty()
    } else {
        concat(elems.drop_last()) + elems.last()
    }
}

/// The whole elements of `bytes`, each `size` bytes wide, in order.
pub open spec fn elements(bytes: Seq<u8>, size: nat) -> Seq<Seq<u8>> {
    Seq::new(whole_elements(bytes, size), |i: int| element(bytes, size, i))
}

/// A source of elements of one width, read from front to back, together with
/// the bytes that stand where an element is null.
pub trait BatchableCollector {
    /// Whether the source is in a state that its methods accept.
    spec fn wf(&self) -> bool;

    /// The width of every element, in bytes.
    spec fn width(&self) -> nat;

    /// The elements that the source can still hand out, in order.
    spec fn pending(&self) -> Seq<Seq<u8>>;

    /// Whether asking for more than the pending elements is an error, rather
    /// than the end of the source.
    spec fn blocked(&self) -> bool;

    /// The bytes written for a null.
    spec fn null_value(&self) -> Seq<u8>;

    /// Whether `self` is `earlier` after it has handed out `taken` elements.
    spec fn advanced(&self, earlier: &Self, taken: nat) -> bool;

    /// A source that has handed out elements is the same source further on.
    proof fn lemma_advanced(&self, earlier: &Self, taken: nat)
        requires
            earlier.wf(),
            self.advanced(earlier, taken),
        ensures
            self.wf(),
            self.width() == earlier.width(),
            self.null_value() == earlier.null_value(),
            self.blocked() == earlier.blocked(),
            taken <= earlier.pending().len(),
            self.pending() == earlier.pending().skip(taken as int),
    ;

    /// A source has handed out nothing since it was as it is.
    proof fn lemma_advanced_start(&self)
        requires
            self.wf(),
        ensures
            self.advanced(self, 0),
    ;

    /// What a source hands out in two steps adds up.
    proof fn lemma_advanced_twice(&self, middle: &Self, earlier: &Self, first: nat, second: nat)
        requires
            earlier.wf(),
            middle.advanced(earlier, first),
            self.advanced(middle, second),
        ensures
            self.advanced(earlier, first + second),
    ;

    /// Every pending element and the null value are `width` bytes wide.
    proof fn lemma_widths(&self)
        requires
            self.wf(),
        ensures
            self.width() > 0,
            self.null_value().len() == self.width(),
            forall|i: int| 0 <= i < self.pending().len() ==> (#[trigger] self.pending()[i]).len()
                == self.width(),
    ;

    /// The width of every element, in bytes.
    fn element_width(&self) -> (width: usize)
        requires
            self.wf(),
        ensures
            width == self.width(),
    ;

    /// Makes room in `target` for `n` more bytes; its contents stay.
    fn reserve(target: &mut Vec<u8>, n: usize)
        ensures
            final(target)@ == old(target)@,
    ;

    /// Appends the next `n` elements to `target`, or all that are pending if
    /// they are fewer. Fails where elements are missing and the source is
    /// blocked; the pending ones have been appended then as well.
    fn push_n(&mut self, target: &mut Vec<u8>, n: usize) -> (r: Result<(), DecodeError>)
        requires
            old(self).wf(),
        ensures
            ({
                let taken = if n <= old(self).pending().len() {
                    n as int
                } else {
                    old(self).pending().len() as int
                };
                &&& final(self).advanced(old(self), taken as nat)
                &&& final(target)@ == old(target)@ + concat(old(self).pending().take(taken))
                &&& r is Err <==> taken < n && old(self).blocked()
            }),
            r is Err ==> r == Err::<(), DecodeError>(DecodeError::OutOfSpec),
    ;

    /// Appends the null value `n` times to `target`.
    fn push_n_nulls(&mut self, target: &mut Vec<u8>, n: usize) -> (r: Result<(), DecodeError>)
        requires
            old(self).wf(),
            old(target).len() + n * old(self).width() <= usize::MAX,
        ensures
            r is Ok,
            final(self).advanced(old(self), 0),
            final(target)@ == old(target)@ + repeated(old(self).null_value(), n as nat),
    ;
}

/// The bytes of two sequences of elements, one after the other.
pub proof fn lemma_concat_add(a: Seq<Seq<u8>>, b: Seq<Seq<u8>>)
    ensures
        concat(a + b) == concat(a) + concat(b),
    decreases b.len(),
{
    if b.len() == 0 {
        assert(a + b =~= a);
        assert(concat(a) + concat(b) =~= concat(a));
    } else {
        lemma_concat_add(a, b.drop_last());
        assert((a + b).drop_last() =~= a + b.drop_last());
        assert((a + b).last() == b.last());
        assert((concat(a) + concat(b.drop_last())) + b.last() =~= concat(a) + (concat(
            b.drop_last(),
        ) + b.last()));
    }
}

/// The bytes of a single element.
pub proof fn lemma_concat_one(elem: Seq<u8>)
    ensures
        concat(seq![elem]) == elem,
{
    let one = seq![elem];
    assert(one.len() == 1);
    assert(one.last() == elem);
    assert(one.drop_last() =~= Seq::<Seq<u8>>::empty());
    assert(concat(one.drop_last()) =~= Seq::<u8>::empty());
    assert(Seq::<u8>::empty() + elem =~= elem);
}

/// Elements of one width take that width each.
pub proof fn lemma_concat_len(elems: Seq<Seq<u8>>, width: nat)
    requires
        forall|i: int| 0 <= i < elems.len() ==> (#[trigger] elems[i]).len() == width,
    ensures
        concat(elems).len() == elems.len() * width,
    decreases elems.len(),
{
    if elems.len() == 0 {
        assert(0 * width == 0) by (nonlinear_arith);
    } else {
        let n = elems.len();
        lemma_concat_len(elems.drop_last(), width);
        assert(n * width == ((n - 1) as nat) * width + width) by (nonlinear_arith)
            requires
                n > 0,
        ;
    }
}

/// The bytes of one element `n` times over.
pub proof fn lemma_concat_repeat(value: Seq<u8>, n: nat)
    ensures
        concat(Seq::new(n, |i: int| value)) == repeated(value, n),
    decreases n,
{
    if n > 0 {
        lemma_concat_repeat(value, (n - 1) as nat);
        assert(Seq::new(n, |i: int| value).drop_last() =~= Seq::new(
            (n - 1) as nat,
            |i: int| value,
        ));
    }
}

/// The first `k` elements of a buffer are its first `k * size` bytes.
pub proof fn lemma_concat_elements(bytes: Seq<u8>, size: nat, k: nat)
    requires
        size > 0,
        k <= whole_elements(bytes, size),
    ensures
        k * size <= bytes.len(),
        concat(elements(bytes, size).take(k as int)) == bytes.take((k * size) as int),
    decreases k,
{
    let n = whole_elements(bytes, size);
    assert(n * size <= bytes.len()) by (nonlinear_arith)
        requires
            size > 0,
            n == bytes.len() / size,
    ;
    assert(k * size <= n * size) by (nonlinear_arith)
        requires
            k <= n,
    ;
    if k == 0 {
        assert(0 * size == 0) by (nonlinear_arith);
        assert(bytes.take(0) =~= Seq::<u8>::empty());
    } else {
        let j = (k - 1) as nat;
        lemma_concat_elements(bytes, size, j);
        assert(k * size == j * size + size) by (nonlinear_arith)
            requires
                k == j + 1,
        ;
        assert(elements(bytes, size).take(k as int).drop_last() =~= elements(bytes, size).take(
            j as int,
        ));
        assert(elements(bytes, size).take(k as int).last() == element(bytes, size, j as int));
        assert(bytes.take((j * size) as int) + element(bytes, size, j as int) =~= bytes.take(
            (k * size) as int,
        ));
    }
}

/// The elements left after the first `k` are those of the bytes left after
/// the first `k * size`.
pub proof fn lemma_elements_skip(bytes: Seq<u8>, size: nat, k: nat)
    requires
        size > 0,
        k <= whole_elements(bytes, size),
    ensures
        k * size <= bytes.len(),
        elements(bytes.skip((k * size) as int), size) == elements(bytes, size).skip(k as int),
{
    let n = whole_elements(bytes, size);
    let len = bytes.len();
    assert(n * size <= len && k * size <= n * size && (len - k * size) / (size as int) == n - k)
        by (nonlinear_arith)
        requires
            size > 0,
            n == len / size,
            k <= n,
    ;
    let rest = bytes.skip((k * size) as int);
    assert(whole_elements(rest, size) == n - k);
    assert forall|i: int| 0 <= i < n - k implies element(rest, size, i) == element(
        bytes,
        size,
        i + k,
    ) by {
        let sz = size as int;
        let lo = i * sz;
        let hi = (i + 1) * sz;
        let shift = k * sz;
        assert((i + k) * sz == lo + shift && (i + k + 1) * sz == hi + shift && 0 <= lo <= hi && hi
            + shift <= n * sz) by (nonlinear_arith)
            requires
                0 <= i < n - k,
                sz > 0,
                lo == i * sz,
                hi == (i + 1) * sz,
                shift == k * sz,
        ;
        assert(rest.subrange(lo, hi) =~= bytes.subrange(lo + shift, hi + shift));
    }
    assert(elements(rest, size) =~= elements(bytes, size).skip(k as int));
}

/// The elements of a byte buffer are all `size` bytes wide.
pub proof fn lemma_elements_uniform(bytes: Seq<u8>, size: nat)
    requires
        size > 0,
    ensures
        uniform(elements(bytes, size), size),
{
    reveal(uniform);
    let n = whole_elements(bytes, size);
    assert forall|i: int| 0 <= i < n implies (#[trigger] elements(bytes, size)[i]).len()
        == size by {
        assert(0 <= i * size && (i + 1) * size <= n * size && n * size <= bytes.len() && (i + 1)
            * size - i * size == size) by (nonlinear_arith)
            requires
                0 <= i < n,
                size > 0,
                n == bytes.len() / size,
        ;
    }
}

/// The values of a plainly encoded page: elements of `size` bytes that lie
/// one after the other in `slice`. A null is written as `size` zero bytes.
pub struct FixedSizeBinaryCollector<'a> {
    pub slice: &'a [u8],
    pub size: usize,
}

impl<'a> BatchableCollector for FixedSizeBinaryCollector<'a> {
    open spec fn wf(&self) -> bool {
        self.size > 0
    }

    open spec fn width(&self) -> nat {
        self.size as nat
    }

    open spec fn pending(&self) -> Seq<Seq<u8>> {
        elements(self.slice@, self.size as nat)
    }

    open spec fn blocked(&self) -> bool {
        false
    }

    open spec fn null_value(&self) -> Seq<u8> {
        zeros(self.size as nat)
    }

    open spec fn advanced(&self, earlier: &Self, taken: nat) -> bool {
        &&& self.size == earlier.size
        &&& taken <= whole_elements(earlier.slice@, earlier.size as nat)
        &&& self.slice@ == earlier.slice@.skip(taken * earlier.size)
    }

    proof fn lemma_advanced(&self, earlier: &Self, taken: nat) {
        lemma_elements_skip(earlier.slice@, earlier.size as nat, taken);
    }

    proof fn lemma_advanced_start(&self) {
        assert(0 * self.size == 0) by (nonlinear_arith);
        assert(self.slice@.skip(0) =~= self.slice@);
    }

    proof fn lemma_advanced_twice(&self, middle: &Self, earlier: &Self, first: nat, second: nat) {
        let size = earlier.size as nat;
        let bytes = earlier.slice@;
        lemma_elements_skip(bytes, size, first);
        assert(elements(middle.slice@, size).len() == elements(bytes, size).len() - first);
        assert((first + second) * size == first * size + second * size) by (nonlinear_arith);
        assert(second * size >= 0) by (nonlinear_arith);
        lemma_concat_elements(bytes, size, first + second);
        assert(bytes.skip((first * size) as int).skip((second * size) as int) =~= bytes.skip(
            ((first + second) * size) as int,
        ));
    }

    proof fn lemma_widths(&self) {
        lemma_elements_uniform(self.slice@, self.size as nat);
        reveal(uniform);
    }

    fn element_width(&self) -> (width: usize) {
        self.size
    }

    fn reserve(target: &mut Vec<u8>, n: usize) {
        let _ = target.try_reserve(n);
    }

    fn push_n(&mut self, target: &mut Vec<u8>, n: usize) -> (r: Result<(), DecodeError>) {
        let available = self.slice.len() / self.size;
        let n = if n <= available {
            n
        } else {
            available
        };
        proof {
            lemma_concat_elements(self.slice@, self.size as nat, n as nat);
        }
        let head = slice_subrange(self.slice, 0, n * self.size);
        let ghost before = target@;
        target.extend_from_slice(head);
        assert(target@ =~= before + self.slice@.take((n * self.size) as int));
        self.slice = slice_subrange(self.slice, n * self.size, self.slice.len());
        Ok(())
    }

    fn push_n_nulls(&mut self, target: &mut Vec<u8>, n: usize) -> (r: Result<(), DecodeError>) {
        let ghost before = target@;
        proof {
            crate::layout::lemma_repeated_zeros(self.size as nat, n as nat);
        }
        let len = target.len() + n * self.size;
        target.resize(len, 0);
        assert(target@ =~= before + zeros((n * self.size) as nat));
        proof {
            self.lemma_advanced_start();
        }
        Ok(())
    }
}

} // verus!
