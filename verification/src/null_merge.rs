//! Interleaving of a page's values with the nulls that its validity calls for.

use crate::bitmap::{bitmap_bits, bitmap_extend_constant};
use crate::collector::{
    concat, lemma_concat_add, lemma_concat_len, lemma_concat_one, BatchableCollector,
};
use crate::error::DecodeError;
use crate::layout::{
    constant_bits, count_true, lemma_count_true_add, lemma_count_true_bounds,
    lemma_count_true_constant, lemma_repeated_len, repeated,
};
use crate::validity::PageValidity;
use polars_arrow::bitmap::MutableBitmap;
use vstd::math::min;
use vstd::prelude::*;

verus! {

/// The bytes of the positions `bits`: a position that holds a value takes the
/// next of `elems`, or nothing once they are used up; a null position takes
/// `null`.
pub open spec fn merged(bits: Seq<bool>, elems: Seq<Seq<u8>>, null: Seq<u8>) -> Seq<u8>
    decreases bits.len(),
{
    if bits.len() == 0 {
        Seq::empty()
    } else {
        let before = bits.drop_last();
        let used = count_true(before);
        merged(before, elems, null) + if !bits.last() {
            null
        } else if used < elems.len() {
            elems[used as int]
        } else {
            Seq::empty()
        }
    }
}

/// Whether every one of `elems` is `width` bytes wide.
#[verifier::opaque]
pub open spec fn uniform(elems: Seq<Seq<u8>>, width: nat) -> bool {
    forall|i: int| 0 <= i < elems.len() ==> (#[trigger] elems[i]).len() == width
}

/// The merged bytes hold one element for every null position and for
/// every position with a value that the source has an element for.
pub proof fn lemma_merged_len(bits: Seq<bool>, elems: Seq<Seq<u8>>, null: Seq<u8>, width: nat)
    requires
        uniform(elems, width),
        null.len() == width,
    ensures
        merged(bits, elems, null).len() == (bits.len() - count_true(bits) + min(
            count_true(bits) as int,
            elems.len() as int,
        )) * width,
    decreases bits.len(),
{
    reveal(uniform);
    let n = bits.len() - count_true(bits) + min(count_true(bits) as int, elems.len() as int);
    if bits.len() == 0 {
        assert(0 * width == 0) by (nonlinear_arith);
    } else {
        lemma_merged_len(bits.drop_last(), elems, null, width);
        assert(n * width == (n - 1) * width + width) by (nonlinear_arith);
    }
}

/// A run of positions that hold values takes the next elements, as far as
/// there are any.
pub proof fn lemma_merged_valid_run(bits: Seq<bool>, run: nat, elems: Seq<Seq<u8>>, null: Seq<u8>)
    ensures
        merged(bits + constant_bits(run, true), elems, null) == merged(bits, elems, null) + concat(
            elems.subrange(
                min(count_true(bits) as int, elems.len() as int),
                min(count_true(bits) as int + run, elems.len() as int),
            ),
        ),
    decreases run,
{
    let used = count_true(bits) as int;
    let n = elems.len() as int;
    if run == 0 {
        assert(bits + constant_bits(0, true) =~= bits);
        assert(elems.subrange(min(used, n), min(used, n)) =~= Seq::<Seq<u8>>::empty());
        assert(merged(bits, elems, null) + Seq::<u8>::empty() =~= merged(bits, elems, null));
    } else {
        let shorter = bits + constant_bits((run - 1) as nat, true);
        let longer = bits + constant_bits(run, true);
        lemma_merged_valid_run(bits, (run - 1) as nat, elems, null);
        lemma_count_true_add(bits, constant_bits((run - 1) as nat, true));
        lemma_count_true_constant((run - 1) as nat, true);
        assert(longer.drop_last() =~= shorter);
        assert(longer.last());
        let lo = min(used, n);
        let mid = min(used + run - 1, n);
        let hi = min(used + run, n);
        let base = merged(bits, elems, null);
        if used + run - 1 < n {
            assert(elems.subrange(lo, hi) =~= elems.subrange(lo, mid) + seq![elems[mid]]);
            lemma_concat_add(elems.subrange(lo, mid), seq![elems[mid]]);
            lemma_concat_one(elems[mid]);
            assert((base + concat(elems.subrange(lo, mid))) + elems[mid] =~= base + (concat(
                elems.subrange(lo, mid),
            ) + elems[mid]));
        } else {
            assert((base + concat(elems.subrange(lo, mid))) + Seq::<u8>::empty() =~= base + concat(
                elems.subrange(lo, hi),
            ));
        }
    }
}

/// A run of null positions takes the null value once for each.
pub proof fn lemma_merged_null_run(bits: Seq<bool>, run: nat, elems: Seq<Seq<u8>>, null: Seq<u8>)
    ensures
        merged(bits + constant_bits(run, false), elems, null) == merged(bits, elems, null)
            + repeated(null, run),
    decreases run,
{
    let base = merged(bits, elems, null);
    if run == 0 {
        assert(bits + constant_bits(0, false) =~= bits);
        assert(base + repeated(null, 0) =~= base);
    } else {
        let shorter = bits + constant_bits((run - 1) as nat, false);
        let longer = bits + constant_bits(run, false);
        lemma_merged_null_run(bits, (run - 1) as nat, elems, null);
        assert(longer.drop_last() =~= shorter);
        assert(!longer.last());
        assert((base + repeated(null, (run - 1) as nat)) + null =~= base + (repeated(
            null,
            (run - 1) as nat,
        ) + null));
    }
}

/// What a run of `run` positions that hold values adds, after the first
/// `done` of `bits`.
proof fn lemma_valid_step(
    bits: Seq<bool>,
    done: int,
    run: int,
    elems: Seq<Seq<u8>>,
    null: Seq<u8>,
    width: nat,
)
    requires
        0 <= done,
        0 <= run,
        done + run <= bits.len(),
        forall|j: int| done <= j < done + run ==> bits[j],
        uniform(elems, width),
    ensures
        ({
            let seen = bits.take(done);
            let used = min(count_true(seen) as int, elems.len() as int);
            let taken = min(run, elems.len() - used);
            let added = concat(elems.skip(used).take(taken));
            &&& count_true(bits.take(done + run)) == count_true(seen) + run
            &&& merged(bits.take(done + run), elems, null) == merged(seen, elems, null) + added
            &&& added.len() == taken * width
            &&& taken * width <= run * width
            &&& (done + run) * width == done * width + run * width
            &&& elems.skip(used).skip(taken) == elems.skip(
                min(count_true(seen) as int + run, elems.len() as int),
            )
        }),
{
    let seen = bits.take(done);
    let used = min(count_true(seen) as int, elems.len() as int);
    let taken = min(run, elems.len() - used);
    assert(bits.take(done + run) =~= seen + constant_bits(run as nat, true));
    lemma_merged_valid_run(seen, run as nat, elems, null);
    lemma_count_true_add(seen, constant_bits(run as nat, true));
    lemma_count_true_constant(run as nat, true);
    assert(elems.skip(used).take(taken) =~= elems.subrange(used, used + taken));
    assert(concat(elems.subrange(used, used + taken)).len() == taken * width) by {
        reveal(uniform);
        lemma_concat_len(elems.subrange(used, used + taken), width);
    }
    assert(taken * width <= run * width) by (nonlinear_arith)
        requires
            0 <= taken <= run,
    ;
    assert((done + run) * width == done * width + run * width) by (nonlinear_arith);
    assert(elems.skip(used).skip(taken) =~= elems.skip(used + taken));
}

/// What a run of `run` null positions adds, after the first `done` of `bits`.
proof fn lemma_null_step(
    bits: Seq<bool>,
    done: int,
    run: int,
    elems: Seq<Seq<u8>>,
    null: Seq<u8>,
    width: nat,
)
    requires
        0 <= done,
        0 <= run,
        done + run <= bits.len(),
        forall|j: int| done <= j < done + run ==> !bits[j],
        null.len() == width,
    ensures
        ({
            let seen = bits.take(done);
            let added = repeated(null, run as nat);
            &&& count_true(bits.take(done + run)) == count_true(seen)
            &&& merged(bits.take(done + run), elems, null) == merged(seen, elems, null) + added
            &&& added.len() == run * width
            &&& (done + run) * width == done * width + run * width
        }),
{
    let seen = bits.take(done);
    assert(bits.take(done + run) =~= seen + constant_bits(run as nat, false));
    lemma_merged_null_run(seen, run as nat, elems, null);
    lemma_count_true_add(seen, constant_bits(run as nat, false));
    lemma_count_true_constant(run as nat, false);
    lemma_repeated_len(null, run as nat);
    assert((done + run) * width == done * width + run * width) by (nonlinear_arith);
}

/// Where a set position follows the first `done` of `bits`, `bits` hold more
/// set positions than those do.
proof fn lemma_count_true_beyond(bits: Seq<bool>, done: nat)
    requires
        done < bits.len(),
        bits[done as int],
    ensures
        count_true(bits) > count_true(bits.take(done as int)),
{
    let rest = bits.skip(done as int);
    assert(bits =~= bits.take(done as int) + rest);
    lemma_count_true_add(bits.take(done as int), rest);
    lemma_count_true_first(rest);
}

/// The number of positions to decode: `limit`, or all of `validity` where
/// there is none.
pub open spec fn positions(limit: Option<usize>, validity: Seq<bool>) -> int {
    match limit {
        Some(n) => n as int,
        None => validity.len() as int,
    }
}

/// What has been decoded of a page whose positions are `bits`, and what the
/// buffers held before.
struct Progress<C> {
    /// The source at the start.
    start: C,
    /// The positions to decode.
    bits: Seq<bool>,
    /// The elements that the source had pending at the start.
    elems: Seq<Seq<u8>>,
    /// The validity of the page at the start.
    all: Seq<bool>,
    /// The bits of the bitmap at the start.
    bitmap: Seq<bool>,
    /// The bytes of the target at the start.
    target: Seq<u8>,
}

impl<C: BatchableCollector> Progress<C> {
    /// Whether the buffers and the two cursors stand as they do after the
    /// first `done` positions.
    spec fn reached(
        self,
        done: int,
        validity: MutableBitmap,
        page_validity: PageValidity,
        target: Seq<u8>,
        collector: C,
    ) -> bool {
        let seen = self.bits.take(done);
        &&& 0 <= done <= self.bits.len()
        &&& bitmap_bits(validity) == self.bitmap + seen
        &&& target == self.target + merged(seen, self.elems, collector.null_value())
        &&& page_validity@ == self.all.skip(done)
        &&& collector.advanced(
            &self.start,
            min(count_true(seen) as int, self.elems.len() as int) as nat,
        )
    }
}

/// Decodes the run of values at the front of the page, at most `room`
/// positions, and returns their number.
fn merge_valid_run<C: BatchableCollector>(
    validity: &mut MutableBitmap,
    page_validity: &mut PageValidity,
    target: &mut Vec<u8>,
    collector: &mut C,
    room: usize,
    width: usize,
    Ghost(at): Ghost<Progress<C>>,
    Ghost(done): Ghost<int>,
) -> (r: Result<usize, DecodeError>)
    requires
        old(page_validity).wf(),
        old(collector).wf(),
        at.start.wf(),
        at.elems == at.start.pending(),
        width == old(collector).width(),
        width > 0,
        done + room <= at.bits.len(),
        at.bits == at.all.take(at.bits.len() as int),
        at.bits.len() <= at.all.len(),
        at.reached(done, *old(validity), *old(page_validity), old(target)@, *old(collector)),
        old(collector).blocked() ==> count_true(at.bits.take(done)) <= at.elems.len(),
        uniform(at.elems, width as nat),
        old(target)@.len() <= at.target.len() + done * width,
        at.bitmap.len() + at.bits.len() <= usize::MAX,
    ensures
        final(page_validity).wf(),
        final(collector).wf(),
        final(collector).width() == old(collector).width(),
        final(collector).null_value() == old(collector).null_value(),
        final(collector).blocked() == old(collector).blocked(),
        ({
            let grown = bitmap_bits(*final(validity)).len() - bitmap_bits(*old(validity)).len();
            let now = done + grown;
            &&& 0 <= grown <= room
            &&& at.reached(
                now,
                *final(validity),
                *final(page_validity),
                final(target)@,
                *final(collector),
            )
            &&& final(target)@.len() <= at.target.len() + now * width
            &&& match r {
                Ok(n) => {
                    &&& n == grown
                    &&& n == room || !at.bits[now]
                    &&& old(collector).blocked() ==> count_true(at.bits.take(now))
                        <= at.elems.len()
                },
                Err(error) => {
                    &&& error == DecodeError::OutOfSpec
                    &&& old(collector).blocked()
                    &&& grown < room
                    &&& at.bits[now]
                    &&& count_true(at.bits.take(now)) == at.elems.len()
                },
            }
        }),
{
    let ghost bits = at.bits;
    let ghost elems = at.elems;
    let ghost null = collector.null_value();
    let ghost seen = bits.take(done);
    let ghost used = min(count_true(seen) as int, elems.len() as int);
    let ghost entry = *collector;
    proof {
        collector.lemma_advanced(&at.start, used as nat);
    }
    let valid = page_validity.run_length(true, room);
    let ghost taken = min(valid as int, elems.len() - used);
    proof {
        assert forall|j: int| done <= j < done + valid implies bits[j] by {
            assert(page_validity@[j - done]);
        }
        lemma_valid_step(bits, done, valid as int, elems, null, width as nat);
        assert(valid < room ==> !bits[done + valid]) by {
            if valid < room {
                assert(page_validity@[valid as int] == bits[done + valid]);
            }
        }
    }
    let before = target.len();
    let outcome = collector.push_n(target, valid);
    let grown = if outcome.is_ok() {
        valid
    } else {
        (target.len() - before) / width
    };
    proof {
        collector.lemma_advanced(&entry, taken as nat);
        collector.lemma_advanced_twice(&entry, &at.start, used as nat, taken as nat);
        if outcome is Err {
            assert(grown == taken) by (nonlinear_arith)
                requires
                    grown == (taken * width) / (width as int),
                    width > 0,
                    taken >= 0,
            ;
            lemma_valid_step(bits, done, grown as int, elems, null, width as nat);
        }
        assert(at.all.skip(done).skip(grown as int) =~= at.all.skip(done + grown));
        let reached = bits.take(done + grown);
        assert(reached =~= seen + constant_bits(grown as nat, true));
        assert(at.bitmap + seen + constant_bits(grown as nat, true) =~= at.bitmap + reached);
        assert(at.target + merged(seen, elems, null) + concat(elems.skip(used).take(taken))
            =~= at.target + merged(reached, elems, null));
    }
    bitmap_extend_constant(validity, grown, true);
    page_validity.advance(grown);
    match outcome {
        Ok(()) => Ok(grown),
        Err(error) => Err(error),
    }
}

/// Decodes the run of nulls at the front of the page, at most `room`
/// positions, and returns their number.
fn merge_null_run<C: BatchableCollector>(
    validity: &mut MutableBitmap,
    page_validity: &mut PageValidity,
    target: &mut Vec<u8>,
    collector: &mut C,
    room: usize,
    width: usize,
    Ghost(at): Ghost<Progress<C>>,
    Ghost(done): Ghost<int>,
) -> (n: usize)
    requires
        old(page_validity).wf(),
        old(collector).wf(),
        at.start.wf(),
        at.elems == at.start.pending(),
        width == old(collector).width(),
        old(collector).null_value().len() == width,
        done + room <= at.bits.len(),
        at.bits == at.all.take(at.bits.len() as int),
        at.bits.len() <= at.all.len(),
        at.reached(done, *old(validity), *old(page_validity), old(target)@, *old(collector)),
        old(target)@.len() <= at.target.len() + done * width,
        at.bitmap.len() + at.bits.len() <= usize::MAX,
        at.target.len() + at.bits.len() * width <= usize::MAX,
    ensures
        final(page_validity).wf(),
        final(collector).wf(),
        final(collector).width() == old(collector).width(),
        final(collector).null_value() == old(collector).null_value(),
        final(collector).blocked() == old(collector).blocked(),
        n <= room,
        n == room || at.bits[done + n],
        n == bitmap_bits(*final(validity)).len() - bitmap_bits(*old(validity)).len(),
        at.reached(
            done + n,
            *final(validity),
            *final(page_validity),
            final(target)@,
            *final(collector),
        ),
        final(target)@.len() <= at.target.len() + (done + n) * width,
        count_true(at.bits.take(done + n)) == count_true(at.bits.take(done)),
{
    let ghost bits = at.bits;
    let ghost elems = at.elems;
    let ghost null = collector.null_value();
    let ghost seen = bits.take(done);
    let ghost used = min(count_true(seen) as int, elems.len() as int);
    let ghost entry = *collector;
    proof {
        collector.lemma_advanced(&at.start, used as nat);
    }
    let nulls = page_validity.run_length(false, room);
    proof {
        assert forall|j: int| done <= j < done + nulls implies !bits[j] by {
            assert(!page_validity@[j - done]);
        }
        lemma_null_step(bits, done, nulls as int, elems, null, width as nat);
        assert((done + nulls) * width <= bits.len() * width) by (nonlinear_arith)
            requires
                done + nulls <= bits.len(),
        ;
        assert(nulls < room ==> bits[done + nulls]) by {
            if nulls < room {
                assert(page_validity@[nulls as int] == bits[done + nulls]);
            }
        }
    }
    let _ = collector.push_n_nulls(target, nulls);
    bitmap_extend_constant(validity, nulls, false);
    page_validity.advance(nulls);
    proof {
        let end = done + nulls;
        collector.lemma_advanced(&entry, 0);
        collector.lemma_advanced_twice(&entry, &at.start, used as nat, 0);
        assert(at.all.skip(done).skip(nulls as int) =~= at.all.skip(end));
        assert(bits.take(end) =~= seen + constant_bits(nulls as nat, false));
        assert(at.bitmap + seen + constant_bits(nulls as nat, false) =~= at.bitmap + bits.take(
            end,
        ));
        assert(at.target + merged(seen, elems, null) + repeated(null, nulls as nat) =~= at.target
            + merged(bits.take(end), elems, null));
    }
    nulls
}

/// Appends `limit` positions of the page to `target` and `validity`, all of
/// `page_validity` where no limit is given. Runs of values and runs of nulls
/// are each handed to `collector` as one batch.
///
/// Where `collector` is blocked and the positions hold more values than it
/// has pending, decoding stops in front of the first position whose value is
/// missing: what lies before it has been appended, and the error is returned.
pub fn extend_from_decoder<C: BatchableCollector>(
    validity: &mut MutableBitmap,
    page_validity: &mut PageValidity,
    limit: Option<usize>,
    target: &mut Vec<u8>,
    collector: &mut C,
) -> (r: Result<(), DecodeError>)
    requires
        old(page_validity).wf(),
        old(collector).wf(),
        limit matches Some(n) ==> n <= old(page_validity)@.len(),
        bitmap_bits(*old(validity)).len() + positions(limit, old(page_validity)@) <= usize::MAX,
        old(target).len() + positions(limit, old(page_validity)@) * old(collector).width()
            <= usize::MAX,
    ensures
        final(page_validity).wf(),
        final(collector).wf(),
        final(collector).width() == old(collector).width(),
        final(collector).null_value() == old(collector).null_value(),
        final(collector).blocked() == old(collector).blocked(),
        ({
            let count = positions(limit, old(page_validity)@);
            let bits = old(page_validity)@.take(count);
            let elems = old(collector).pending();
            let null = old(collector).null_value();
            let grown = bitmap_bits(*final(validity)).len() - bitmap_bits(*old(validity)).len();
            let done = if r is Ok {
                bits
            } else {
                bits.take(grown)
            };
            &&& r is Err <==> old(collector).blocked() && count_true(bits) > elems.len()
            &&& r is Err ==> r == Err::<(), DecodeError>(DecodeError::OutOfSpec)
            &&& r is Err ==> 0 <= grown < count && bits[grown] && count_true(done) == elems.len()
            &&& bitmap_bits(*final(validity)) == bitmap_bits(*old(validity)) + done
            &&& final(target)@ == old(target)@ + merged(done, elems, null)
            &&& final(page_validity)@ == old(page_validity)@.skip(done.len() as int)
            &&& final(collector).advanced(
                old(collector),
                min(count_true(done) as int, elems.len() as int) as nat,
            )
        }),
{
    let count = match limit {
        Some(n) => n,
        None => page_validity.len(),
    };
    let width = collector.element_width();
    C::reserve(target, count);
    let ghost at = Progress {
        start: *collector,
        bits: page_validity@.take(count as int),
        elems: collector.pending(),
        all: page_validity@,
        bitmap: bitmap_bits(*validity),
        target: target@,
    };
    proof {
        collector.lemma_widths();
        assert(uniform(at.elems, width as nat)) by {
            reveal(uniform);
        }
        assert(at.bits.take(0) =~= Seq::<bool>::empty());
        assert(at.bitmap + at.bits.take(0) =~= at.bitmap);
        assert(at.target + merged(at.bits.take(0), at.elems, collector.null_value())
            =~= at.target);
        assert(at.all.skip(0) =~= at.all);
        collector.lemma_advanced_start();
        assert(0 * width == 0) by (nonlinear_arith);
    }
    let mut done: usize = 0;
    while done < count
        invariant
            done <= count == at.bits.len() <= at.all.len(),
            at.bits == old(page_validity)@.take(count as int),
            at.start == *old(collector),
            at.start.wf(),
            at.elems == old(collector).pending(),
            at.all == old(page_validity)@,
            at.bitmap == bitmap_bits(*old(validity)),
            at.target == old(target)@,
            count == positions(limit, old(page_validity)@),
            width == collector.width(),
            width > 0,
            uniform(at.elems, width as nat),
            page_validity.wf(),
            collector.wf(),
            collector.width() == old(collector).width(),
            collector.null_value() == old(collector).null_value(),
            collector.null_value().len() == width,
            collector.blocked() == old(collector).blocked(),
            collector.blocked() ==> count_true(at.bits.take(done as int)) <= at.elems.len(),
            at.reached(done as int, *validity, *page_validity, target@, *collector),
            target@.len() <= at.target.len() + done * width,
            at.bitmap.len() + at.bits.len() <= usize::MAX,
            at.target.len() + count * width <= usize::MAX,
        decreases count - done,
    {
        let ghost before = bitmap_bits(*validity).len();
        match merge_valid_run(
            validity,
            page_validity,
            target,
            collector,
            count - done,
            width,
            Ghost(at),
            Ghost(done as int),
        ) {
            Ok(n) => {
                done += n;
            },
            Err(error) => {
                proof {
                    let grown = bitmap_bits(*validity).len() - before;
                    lemma_count_true_beyond(at.bits, (done + grown) as nat);
                    assert(at.bits.take(done + grown).len() == done + grown);
                }
                return Err(error);
            },
        }
        let nulls = merge_null_run(
            validity,
            page_validity,
            target,
            collector,
            count - done,
            width,
            Ghost(at),
            Ghost(done as int),
        );
        done += nulls;
    }
    proof {
        assert(at.bits.take(count as int) =~= at.bits);
        lemma_count_true_bounds(at.bits);
    }
    Ok(())
}

/// A sequence of bits that starts with a set one holds at least one.
proof fn lemma_count_true_first(bits: Seq<bool>)
    requires
        bits.len() > 0,
        bits[0],
    ensures
        count_true(bits) >= 1,
    decreases bits.len(),
{
    if bits.len() > 1 {
        lemma_count_true_first(bits.drop_last());
    }
}

} // verus!
