//! Resolving dictionary indices to the elements that they stand for.

use crate::collector::{
    concat, lemma_concat_add, lemma_concat_len, lemma_concat_one, lemma_concat_repeat,
    BatchableCollector,
};
use crate::error::DecodeError;
use crate::hybrid_rle::HybridRleDecoder;
use crate::layout::{element, repeated, whole_elements};
use crate::null_merge::uniform;
use vstd::prelude::*;
use vstd::slice::slice_subrange;

verus! {

/// The elements of `dict` that `indices` stand for, in order.
pub open spec fn resolved(indices: Seq<u32>, dict: Seq<u8>, size: nat) -> Seq<Seq<u8>> {
    Seq::new(indices.len(), |i: int| element(dict, size, indices[i] as int))
}

/// How many of `indices`, from the first on, lie below `entries`.
pub open spec fn leading(indices: Seq<u32>, entries: nat) -> nat
    decreases indices.len(),
{
    if indices.len() == 0 || indices[0] >= entries {
        0
    } else {
        1 + leading(indices.skip(1), entries)
    }
}

/// The leading indices lie below `entries`, and the one behind them, if
/// there is one, does not.
pub proof fn lemma_leading_bounds(indices: Seq<u32>, entries: nat)
    ensures
        leading(indices, entries) <= indices.len(),
        forall|i: int| 0 <= i < leading(indices, entries) ==> indices[i] < entries,
        leading(indices, entries) < indices.len() ==> indices[leading(indices, entries) as int]
            >= entries,
    decreases indices.len(),
{
    if indices.len() == 0 || indices[0] >= entries {
    } else {
        let rest = indices.skip(1);
        lemma_leading_bounds(rest, entries);
        assert forall|i: int| 0 <= i < leading(indices, entries) implies indices[i] < entries by {
            if i > 0 {
                assert(rest[i - 1] == indices[i]);
            }
        }
        if leading(indices, entries) < indices.len() {
            assert(rest[leading(rest, entries) as int] == indices[leading(indices, entries) as int]);
        }
    }
}

/// The leading indices are those in front of the first one that does not lie
/// below `entries`.
pub proof fn lemma_leading_is(indices: Seq<u32>, entries: nat, n: int)
    requires
        0 <= n <= indices.len(),
        forall|i: int| 0 <= i < n ==> indices[i] < entries,
        n < indices.len() ==> indices[n] >= entries,
    ensures
        leading(indices, entries) == n,
    decreases indices.len(),
{
    if n > 0 {
        let rest = indices.skip(1);
        assert forall|i: int| 0 <= i < n - 1 implies rest[i] < entries by {
            assert(rest[i] == indices[i + 1]);
        }
        if n < indices.len() {
            assert(rest[n - 1] == indices[n]);
        }
        lemma_leading_is(rest, entries, n - 1);
    }
}

/// The entries that indices within the dictionary stand for are all `size`
/// bytes wide.
pub proof fn lemma_resolved_uniform(indices: Seq<u32>, dict: Seq<u8>, size: nat)
    requires
        size > 0,
        forall|i: int| 0 <= i < indices.len() ==> indices[i] < whole_elements(dict, size),
    ensures
        uniform(resolved(indices, dict, size), size),
{
    reveal(uniform);
    let n = whole_elements(dict, size);
    assert forall|i: int| 0 <= i < indices.len() implies (#[trigger] resolved(
        indices,
        dict,
        size,
    )[i]).len() == size by {
        let index = indices[i] as int;
        assert(0 <= index * size && (index + 1) * size <= n * size && n * size <= dict.len() && (
        index + 1) * size - index * size == size) by (nonlinear_arith)
            requires
                0 <= index < n,
                size > 0,
                n == dict.len() / size,
        ;
    }
}

/// The entries of indices that all lie within the dictionary take `size`
/// bytes each.
pub proof fn lemma_gathered_len(indices: Seq<u32>, dict: Seq<u8>, size: nat)
    requires
        size > 0,
        forall|i: int| 0 <= i < indices.len() ==> indices[i] < whole_elements(dict, size),
    ensures
        concat(resolved(indices, dict, size)).len() == indices.len() * size,
{
    lemma_resolved_uniform(indices, dict, size);
    reveal(uniform);
    lemma_concat_len(resolved(indices, dict, size), size);
}

/// Dictionary indices become the `size` bytes of their entry in `dict`.
pub struct FixedSizeBinaryGatherer<'a> {
    pub dict: &'a [u8],
    pub size: usize,
}

impl<'a> FixedSizeBinaryGatherer<'a> {
    /// The number of whole entries that the dictionary holds.
    pub open spec fn entries(&self) -> nat {
        whole_elements(self.dict@, self.size as nat)
    }

    /// Makes room in `target` for `n` more elements; its contents stay.
    pub fn target_reserve(&self, target: &mut Vec<u8>, n: usize)
        ensures
            final(target)@ == old(target)@,
    {
        if let Some(bytes) = n.checked_mul(self.size) {
            let _ = target.try_reserve(bytes);
        }
    }

    /// The number of whole elements that `target` holds.
    pub fn target_num_elements(&self, target: &Vec<u8>) -> (n: usize)
        requires
            self.size > 0,
        ensures
            n == whole_elements(target@, self.size as nat),
    {
        target.len() / self.size
    }

    /// The entry that `value` stands for. Fails where the dictionary holds
    /// no such entry.
    pub fn hybridrle_to_target(&self, value: u32) -> (r: Result<&'a [u8], DecodeError>)
        requires
            self.size > 0,
        ensures
            r is Ok <==> value < self.entries(),
            r matches Ok(entry) ==> entry@ == element(self.dict@, self.size as nat, value as int)
                && entry@.len() == self.size,
            r matches Err(error) ==> error == DecodeError::OutOfSpec,
    {
        let value = value as usize;
        if value >= self.dict.len() / self.size {
            return Err(DecodeError::OutOfSpec);
        }
        assert(value * self.size + self.size == (value + 1) * self.size && (value + 1) * self.size
            <= self.dict.len()) by (nonlinear_arith)
            requires
                value < self.dict.len() / self.size,
                self.size > 0,
        ;
        Ok(slice_subrange(self.dict, value * self.size, value * self.size + self.size))
    }

    /// Appends `value` to `target`.
    pub fn gather_one(&self, target: &mut Vec<u8>, value: &[u8]) -> (r: Result<(), DecodeError>)
        ensures
            r is Ok,
            final(target)@ == old(target)@ + value@,
    {
        let ghost before = target@;
        target.extend_from_slice(value);
        assert(target@ =~= before + value@);
        Ok(())
    }

    /// Appends `value` to `target` `n` times.
    pub fn gather_repeated(&self, target: &mut Vec<u8>, value: &[u8], n: usize) -> (r: Result<
        (),
        DecodeError,
    >)
        ensures
            r is Ok,
            final(target)@ == old(target)@ + repeated(value@, n as nat),
    {
        let ghost before = target@;
        assert(before + repeated(value@, 0) =~= before);
        for done in 0..n
            invariant
                target@ == before + repeated(value@, done as nat),
        {
            let ghost so_far = target@;
            target.extend_from_slice(value);
            assert(target@ =~= so_far + value@);
            assert(before + repeated(value@, done as nat) + value@ =~= before + repeated(
                value@,
                (done + 1) as nat,
            ));
        }
        Ok(())
    }
}

/// What a span of `span` indices, all equal to one whose entry is `entry`,
/// adds to the resolved elements.
proof fn lemma_resolved_span(
    indices: Seq<u32>,
    dict: Seq<u8>,
    size: nat,
    done: int,
    span: int,
    entry: Seq<u8>,
)
    requires
        0 <= done,
        0 <= span,
        done + span <= indices.len(),
        forall|i: int| done <= i < done + span ==> element(dict, size, indices[i] as int) == entry,
    ensures
        concat(resolved(indices.take(done + span), dict, size)) == concat(
            resolved(indices.take(done), dict, size),
        ) + repeated(entry, span as nat),
{
    let before = resolved(indices.take(done), dict, size);
    let added = Seq::new(span as nat, |i: int| entry);
    assert(resolved(indices.take(done + span), dict, size) =~= before + added);
    lemma_concat_add(before, added);
    lemma_concat_repeat(entry, span as nat);
}

impl<'a> HybridRleDecoder<'a> {
    /// Appends to `target` the entries that the next `n` values stand for,
    /// or those of all values if they are fewer. Stops in front of the first
    /// value that stands for no entry, and fails there.
    pub fn gather_n_into<'d>(
        &mut self,
        target: &mut Vec<u8>,
        n: usize,
        gatherer: &FixedSizeBinaryGatherer<'d>,
    ) -> (r: Result<(), DecodeError>)
        requires
            old(self).wf(),
            gatherer.size > 0,
        ensures
            final(self).wf(),
            ({
                let wanted = old(self)@.take(
                    if n <= old(self)@.len() {
                        n as int
                    } else {
                        old(self)@.len() as int
                    },
                );
                let good = leading(wanted, gatherer.entries()) as int;
                &&& final(self)@ == old(self)@.skip(good)
                &&& final(target)@ == old(target)@ + concat(
                    resolved(old(self)@.take(good), gatherer.dict@, gatherer.size as nat),
                )
                &&& r is Err <==> good < wanted.len()
                &&& r matches Err(error) ==> error == DecodeError::OutOfSpec
            }),
    {
        let available = self.len();
        let count = if n <= available {
            n
        } else {
            available
        };
        gatherer.target_reserve(target, count);
        let ghost indices = self@;
        let ghost wanted = indices.take(count as int);
        let ghost dict = gatherer.dict@;
        let ghost size = gatherer.size as nat;
        proof {
            assert(indices.skip(0) =~= indices);
            assert(resolved(indices.take(0), dict, size) =~= Seq::<Seq<u8>>::empty());
            assert(old(target)@ + concat(Seq::<Seq<u8>>::empty()) =~= old(target)@);
        }
        let mut done: usize = 0;
        while done < count
            invariant
                self.wf(),
                gatherer.size > 0,
                done <= count <= indices.len(),
                indices == old(self)@,
                wanted == indices.take(count as int),
                dict == gatherer.dict@,
                size == gatherer.size,
                count == if n <= indices.len() {
                    n as int
                } else {
                    indices.len() as int
                },
                self@ == indices.skip(done as int),
                forall|i: int| 0 <= i < done ==> indices[i] < gatherer.entries(),
                target@ == old(target)@ + concat(resolved(indices.take(done as int), dict, size)),
            decreases count - done,
        {
            let (index, span) = self.front(count - done);
            proof {
                assert forall|i: int| done <= i < done + span implies indices[i] == index by {
                    assert(self@[i - done] == indices[i]);
                }
            }
            let entry = match gatherer.hybridrle_to_target(index) {
                Ok(entry) => entry,
                Err(error) => {
                    proof {
                        assert(wanted[done as int] == indices[done as int]);
                        lemma_leading_is(wanted, gatherer.entries(), done as int);
                    }
                    return Err(error);
                },
            };
            let ghost before = target@;
            if span == 1 {
                gatherer.gather_one(target, entry)?;
                proof {
                    lemma_concat_one(entry@);
                    lemma_concat_repeat(entry@, 1);
                    assert(Seq::new(1, |i: int| entry@) =~= seq![entry@]);
                }
            } else {
                gatherer.gather_repeated(target, entry, span)?;
            }
            self.advance(span);
            proof {
                lemma_resolved_span(indices, dict, size, done as int, span as int, entry@);
                assert(indices.skip(done as int).skip(span as int) =~= indices.skip(done + span));
                assert(old(target)@ + concat(resolved(indices.take(done as int), dict, size))
                    + repeated(entry@, span as nat) =~= old(target)@ + concat(
                    resolved(indices.take(done + span), dict, size),
                ));
            }
            done += span;
        }
        proof {
            lemma_leading_is(wanted, gatherer.entries(), count as int);
        }
        Ok(())
    }
}

/// The leading indices of what is left after `taken` of them.
pub proof fn lemma_leading_skip(indices: Seq<u32>, entries: nat, taken: int)
    requires
        0 <= taken <= leading(indices, entries),
    ensures
        taken <= indices.len(),
        leading(indices.skip(taken), entries) == leading(indices, entries) - taken,
{
    lemma_leading_bounds(indices, entries);
    let rest = indices.skip(taken);
    let n = leading(indices, entries) - taken;
    assert forall|i: int| 0 <= i < n implies rest[i] < entries by {
        assert(rest[i] == indices[i + taken]);
    }
    if n < rest.len() {
        assert(rest[n] == indices[n + taken]);
    }
    lemma_leading_is(rest, entries, n);
}

/// The leading indices among the first `count`.
pub proof fn lemma_leading_take(indices: Seq<u32>, entries: nat, count: int)
    requires
        0 <= count <= indices.len(),
    ensures
        leading(indices.take(count), entries) == if count <= leading(indices, entries) {
            count
        } else {
            leading(indices, entries) as int
        },
{
    lemma_leading_bounds(indices, entries);
    let first = indices.take(count);
    let n = if count <= leading(indices, entries) {
        count
    } else {
        leading(indices, entries) as int
    };
    assert forall|i: int| 0 <= i < n implies first[i] < entries by {
        assert(first[i] == indices[i]);
    }
    if n < first.len() {
        assert(first[n] == indices[n]);
    }
    lemma_leading_is(first, entries, n);
}

/// The values of a dictionary-encoded page: a stream of indices, each
/// resolved through `gatherer`. A null is written as `null_value`.
pub struct GatheredHybridRle<'a, 'b> {
    pub decoder: HybridRleDecoder<'a>,
    pub gatherer: &'b FixedSizeBinaryGatherer<'b>,
    pub null_value: &'b [u8],
}

impl<'a, 'b> GatheredHybridRle<'a, 'b> {
    /// The number of indices, from the next one on, that stand for an entry.
    pub open spec fn good(&self) -> nat {
        leading(self.decoder@, self.gatherer.entries())
    }
}

impl<'a, 'b> BatchableCollector for GatheredHybridRle<'a, 'b> {
    open spec fn wf(&self) -> bool {
        &&& self.decoder.wf()
        &&& self.gatherer.size > 0
        &&& self.null_value@.len() == self.gatherer.size
    }

    open spec fn width(&self) -> nat {
        self.gatherer.size as nat
    }

    open spec fn pending(&self) -> Seq<Seq<u8>> {
        resolved(
            self.decoder@.take(self.good() as int),
            self.gatherer.dict@,
            self.gatherer.size as nat,
        )
    }

    open spec fn blocked(&self) -> bool {
        self.good() < self.decoder@.len()
    }

    open spec fn null_value(&self) -> Seq<u8> {
        self.null_value@
    }

    open spec fn advanced(&self, earlier: &Self, taken: nat) -> bool {
        &&& self.decoder.wf()
        &&& self.gatherer.dict@ == earlier.gatherer.dict@
        &&& self.gatherer.size == earlier.gatherer.size
        &&& self.null_value@ == earlier.null_value@
        &&& taken <= earlier.good()
        &&& self.decoder@ == earlier.decoder@.skip(taken as int)
    }

    proof fn lemma_advanced(&self, earlier: &Self, taken: nat) {
        lemma_leading_bounds(earlier.decoder@, earlier.gatherer.entries());
        lemma_leading_skip(earlier.decoder@, earlier.gatherer.entries(), taken as int);
        assert(self.pending() =~= earlier.pending().skip(taken as int));
    }

    proof fn lemma_advanced_start(&self) {
        assert(self.decoder@.skip(0) =~= self.decoder@);
    }

    proof fn lemma_advanced_twice(&self, middle: &Self, earlier: &Self, first: nat, second: nat) {
        lemma_leading_bounds(earlier.decoder@, earlier.gatherer.entries());
        lemma_leading_skip(earlier.decoder@, earlier.gatherer.entries(), first as int);
        assert(earlier.decoder@.skip(first as int).skip(second as int) =~= earlier.decoder@.skip(
            (first + second) as int,
        ));
    }

    proof fn lemma_widths(&self) {
        let entries = self.gatherer.entries();
        let known = self.decoder@.take(self.good() as int);
        lemma_leading_bounds(self.decoder@, entries);
        assert forall|i: int| 0 <= i < known.len() implies known[i] < entries by {
            assert(known[i] == self.decoder@[i]);
        }
        lemma_resolved_uniform(known, self.gatherer.dict@, self.gatherer.size as nat);
        reveal(uniform);
    }

    fn element_width(&self) -> (width: usize) {
        self.gatherer.size
    }

    fn reserve(target: &mut Vec<u8>, n: usize) {
        let _ = target.try_reserve(n);
    }

    fn push_n(&mut self, target: &mut Vec<u8>, n: usize) -> (r: Result<(), DecodeError>) {
        proof {
            let indices = self.decoder@;
            let count = if n <= indices.len() {
                n as int
            } else {
                indices.len() as int
            };
            lemma_leading_bounds(indices, self.gatherer.entries());
            lemma_leading_take(indices, self.gatherer.entries(), count);
            let good = leading(indices.take(count), self.gatherer.entries()) as int;
            assert(self.pending().take(good) =~= resolved(
                indices.take(good),
                self.gatherer.dict@,
                self.gatherer.size as nat,
            ));
        }
        self.decoder.gather_n_into(target, n, self.gatherer)
    }

    fn push_n_nulls(&mut self, target: &mut Vec<u8>, n: usize) -> (r: Result<(), DecodeError>) {
        proof {
            self.lemma_advanced_start();
        }
        self.gatherer.gather_repeated(target, self.null_value, n)
    }
}

} // verus!
