//! Laws that decoding obeys, stated over what the decoding functions ensure.

use crate::collector::{concat, elements, lemma_concat_add, lemma_elements_uniform};
use crate::decoder::{dictionary_merged, dictionary_values, plain_merged, plain_values, Buffers};
use crate::gatherer::{
    lemma_gathered_len, lemma_leading_bounds, lemma_leading_is, lemma_resolved_uniform, leading,
    resolved,
};
use crate::layout::{
    count_true, element, lemma_count_true_bounds, repeated, whole_elements, zeros,
};
use crate::null_merge::{lemma_merged_len, merged, uniform};
use vstd::math::min;
use vstd::prelude::*;

verus! {

/// The merged bytes hold one element for every position, as long as the
/// source has an element for every position that holds a value: at a position
/// that holds a value the next element of the source, in order, and at a null
/// position the null value.
pub proof fn lemma_null_interleaving(
    bits: Seq<bool>,
    elems: Seq<Seq<u8>>,
    null: Seq<u8>,
    width: nat,
    i: int,
)
    requires
        uniform(elems, width),
        null.len() == width,
        count_true(bits) <= elems.len(),
        0 <= i < bits.len(),
    ensures
        merged(bits, elems, null).len() == bits.len() * width,
        count_true(bits.take(i)) < elems.len() || !bits[i],
        element(merged(bits, elems, null), width, i) == if bits[i] {
            elems[count_true(bits.take(i)) as int]
        } else {
            null
        },
    decreases bits.len(),
{
    reveal(uniform);
    let n = bits.len();
    let before = bits.drop_last();
    let head = merged(before, elems, null);
    let used = count_true(before);
    lemma_count_true_bounds(before);
    lemma_count_true_bounds(bits);
    lemma_merged_len(before, elems, null, width);
    lemma_merged_len(bits, elems, null, width);
    assert(n * width == (n - 1) * width + width) by (nonlinear_arith);
    assert(0 <= i * width && (i + 1) * width <= n * width && (i + 1) * width == i * width + width)
        by (nonlinear_arith)
        requires
            0 <= i < n,
    ;
    if i == n - 1 {
        assert(bits.take(i) =~= before);
        let last = if bits.last() {
            elems[used as int]
        } else {
            null
        };
        assert(element(head + last, width, i) =~= last);
    } else {
        lemma_null_interleaving(before, elems, null, width, i);
        assert(before.take(i) =~= bits.take(i));
        assert((i + 1) * width <= (n - 1) * width) by (nonlinear_arith)
            requires
                i + 1 <= n - 1,
        ;
        assert(element(merged(bits, elems, null), width, i) =~= element(head, width, i));
    }
}

/// A plain page keeps the values and the validity in step: where there was
/// one bit for each element before a page with validity was decoded, and the
/// page holds an element for every position with a value, there is one bit
/// for each element afterwards.
pub proof fn lemma_plain_length_invariant(
    size: nat,
    source: Seq<u8>,
    bits: Seq<bool>,
    before: Buffers,
    after: Buffers,
    left: Seq<u8>,
)
    requires
        size > 0,
        plain_merged(size, source, bits, before, after, left),
        before.values.len() == size * before.validity.len(),
        count_true(bits) <= whole_elements(source, size),
    ensures
        after.values.len() == size * after.validity.len(),
{
    lemma_elements_uniform(source, size);
    lemma_merged_len(bits, elements(source, size), zeros(size), size);
    assert(size * (before.validity.len() + bits.len()) == size * before.validity.len() + bits.len()
        * size) by (nonlinear_arith);
}

/// A dictionary page keeps the values and the validity in step, whether
/// decoding succeeds or stops at an index without an entry: where there was
/// one bit for each element before, and the page holds an index for every
/// position with a value, there is one bit for each element afterwards.
pub proof fn lemma_dictionary_length_invariant(
    size: nat,
    dict: Seq<u8>,
    indices: Seq<u32>,
    bits: Seq<bool>,
    before: Buffers,
    after: Buffers,
    left: Seq<u32>,
    ok: bool,
)
    requires
        size > 0,
        dictionary_merged(size, dict, indices, bits, before, after, left, ok),
        before.values.len() == size * before.validity.len(),
        count_true(bits) <= indices.len(),
    ensures
        after.values.len() == size * after.validity.len(),
{
    let entries = whole_elements(dict, size);
    if entries > 0 {
        let good = leading(indices, entries);
        let known = indices.take(good as int);
        let stop = after.validity.len() - before.validity.len();
        let done = bits.take(stop);
        lemma_leading_bounds(indices, entries);
        lemma_resolved_uniform(known, dict, size);
        let null = element(dict, size, 0);
        assert(null.len() == size) by {
            assert(0 * size == 0 && (0 + 1) * size == size && size <= entries * size && entries
                * size <= dict.len()) by (nonlinear_arith)
                requires
                    entries >= 1,
                    size > 0,
                    entries == dict.len() / size,
            ;
        }
        if ok {
            assert(done =~= bits);
        }
        lemma_merged_len(done, resolved(known, dict, size), null, size);
        assert(size * (before.validity.len() + done.len()) == size * before.validity.len()
            + done.len() * size) by (nonlinear_arith);
    }
}

/// Decoding as many positions of a plain page without validity as the page
/// has elements appends the bytes of the page, all of them and in order.
pub proof fn lemma_plain_round_trip(
    size: nat,
    source: Seq<u8>,
    count: nat,
    before: Buffers,
    after: Buffers,
    left: Seq<u8>,
)
    requires
        size > 0,
        source.len() == count * size,
        plain_values(size, source, count as int, before, after, left),
    ensures
        after.values == before.values + source,
        after.validity == before.validity,
        left.len() == 0,
{
    assert(whole_elements(source, size) == count) by (nonlinear_arith)
        requires
            size > 0,
            source.len() == count * size,
            whole_elements(source, size) == source.len() / size,
    ;
    assert(source.take((count * size) as int) =~= source);
}

/// The effect of appending `value` to `target` `n` times, one after the
/// other.
pub open spec fn gathered_one_by_one(target: Seq<u8>, value: Seq<u8>, n: nat) -> Seq<u8>
    decreases n,
{
    if n == 0 {
        target
    } else {
        gathered_one_by_one(target, value, (n - 1) as nat) + value
    }
}

/// Gathering a value `n` times over is gathering it once, `n` times.
pub proof fn lemma_gather_repeated_is_gather_one(target: Seq<u8>, value: Seq<u8>, n: nat)
    ensures
        target + repeated(value, n) == gathered_one_by_one(target, value, n),
    decreases n,
{
    if n == 0 {
        assert(target + repeated(value, 0) =~= target);
    } else {
        lemma_gather_repeated_is_gather_one(target, value, (n - 1) as nat);
        assert(target + (repeated(value, (n - 1) as nat) + value) =~= (target + repeated(
            value,
            (n - 1) as nat,
        )) + value);
    }
}

/// An index at or past the number of entries fails the page, and nothing is
/// appended for it: the buffers hold what the indices in front of it stand
/// for, and the index is still the next one.
pub proof fn lemma_out_of_range_rejected(
    size: nat,
    dict: Seq<u8>,
    indices: Seq<u32>,
    limit: int,
    at: int,
    before: Buffers,
    after: Buffers,
    left: Seq<u32>,
    ok: bool,
)
    requires
        dictionary_values(size, dict, indices, limit, before, after, left, ok),
        0 <= at < limit,
        at < indices.len(),
        indices[at] >= whole_elements(dict, size),
        forall|i: int| 0 <= i < at ==> indices[i] < whole_elements(dict, size),
    ensures
        !ok,
        after.values == before.values + concat(resolved(indices.take(at), dict, size)),
        after.validity == before.validity,
        left == indices.skip(at),
        at == 0 ==> after == before,
{
    let wanted = indices.take(min(limit, indices.len() as int));
    assert forall|i: int| 0 <= i < at implies wanted[i] < whole_elements(dict, size) by {
        assert(wanted[i] == indices[i]);
    }
    assert(wanted[at] == indices[at]);
    lemma_leading_is(wanted, whole_elements(dict, size), at);
    if at == 0 {
        assert(resolved(indices.take(0), dict, size) =~= Seq::<Seq<u8>>::empty());
        assert(before.values + concat(Seq::<Seq<u8>>::empty()) =~= before.values);
    }
}

/// At each position of a plain page with validity the decoded values hold
/// one element, as long as the page has an element for every position with a
/// value: the next element of the page where the position holds a value, and
/// zero bytes where it is null.
pub proof fn lemma_plain_null_interleaving(
    size: nat,
    source: Seq<u8>,
    bits: Seq<bool>,
    before: Buffers,
    after: Buffers,
    left: Seq<u8>,
    i: int,
)
    requires
        size > 0,
        plain_merged(size, source, bits, before, after, left),
        count_true(bits) <= whole_elements(source, size),
        0 <= i < bits.len(),
    ensures
        after.values.len() == before.values.len() + bits.len() * size,
        after.validity[before.validity.len() + i] == bits[i],
        element(after.values.skip(before.values.len() as int), size, i) == if bits[i] {
            element(source, size, count_true(bits.take(i)) as int)
        } else {
            zeros(size)
        },
{
    let elems = elements(source, size);
    lemma_elements_uniform(source, size);
    lemma_null_interleaving(bits, elems, zeros(size), size, i);
    assert(after.values.skip(before.values.len() as int) =~= merged(bits, elems, zeros(size)));
}

/// Passing over `n` elements of a plain page and then decoding `m` appends
/// what decoding `n + m` elements appends behind its first `n`, and leaves
/// the same of the page.
pub proof fn lemma_plain_skip_then_extract(
    size: nat,
    source: Seq<u8>,
    n: int,
    m: int,
    before: Buffers,
    after: Buffers,
    left: Seq<u8>,
    start: Buffers,
    whole: Buffers,
    whole_left: Seq<u8>,
)
    requires
        size > 0,
        0 <= n,
        0 <= m,
        source.len() % size == 0,
        plain_values(
            size,
            source.skip(min(source.len() as int, n * size)),
            m as int,
            before,
            after,
            left,
        ),
        plain_values(size, source, (n + m) as int, start, whole, whole_left),
    ensures
        ({
            let extracted = whole.values.skip(start.values.len() as int);
            after.values == before.values + extracted.skip(min(extracted.len() as int, n * size))
        }),
        left == whole_left,
{
    let len = source.len() as int;
    let total = whole_elements(source, size) as int;
    let sz = size as int;
    assert(total * sz == len) by (nonlinear_arith)
        requires
            sz > 0,
            len % sz == 0,
            total == len / sz,
    ;
    let skipped = source.skip(min(len, n * sz));
    let both = min(n + m, total);
    let extracted = whole.values.skip(start.values.len() as int);
    assert(0 <= both * sz <= len) by (nonlinear_arith)
        requires
            0 <= both <= total,
            total * sz == len,
            sz > 0,
    ;
    assert(extracted =~= source.take(both * sz));
    if n >= total {
        assert(n * sz >= len) by (nonlinear_arith)
            requires
                n >= total,
                total * sz == len,
                sz > 0,
        ;
        assert(skipped.len() == 0);
        assert(whole_elements(skipped, size) == 0);
        assert(0 * sz == 0) by (nonlinear_arith);
        assert(after.values =~= before.values + extracted.skip(min(extracted.len() as int, n * sz)));
        assert(left =~= whole_left);
    } else {
        let rest = total - n;
        assert(n * sz < len && (len - n * sz) / sz == rest && n * sz >= 0) by (nonlinear_arith)
            requires
                0 <= n < total,
                total * sz == len,
                sz > 0,
                rest == total - n,
        ;
        let taken = min(m as int, rest);
        assert(both == n + taken);
        assert((n + taken) * sz == n * sz + taken * sz && taken * sz >= 0) by (nonlinear_arith)
            requires
                taken >= 0,
                sz > 0,
        ;
        assert(whole_elements(skipped, size) == rest);
        assert(skipped.take(taken * sz) =~= extracted.skip(n * sz));
        assert(skipped.skip(taken * sz) =~= source.skip(both * sz));
    }
}

/// Passing over `n` indices of a dictionary page and then decoding `m`
/// appends what decoding `n + m` indices appends behind its first `n`
/// elements, and leaves the same of the page, where decoding the `n + m`
/// succeeds.
pub proof fn lemma_dictionary_skip_then_extract(
    size: nat,
    dict: Seq<u8>,
    indices: Seq<u32>,
    n: int,
    m: int,
    before: Buffers,
    after: Buffers,
    left: Seq<u32>,
    ok: bool,
    start: Buffers,
    whole: Buffers,
    whole_left: Seq<u32>,
)
    requires
        size > 0,
        0 <= n,
        0 <= m,
        dictionary_values(
            size,
            dict,
            indices.skip(min(indices.len() as int, n as int)),
            m as int,
            before,
            after,
            left,
            ok,
        ),
        dictionary_values(size, dict, indices, (n + m) as int, start, whole, whole_left, true),
    ensures
        ok,
        ({
            let extracted = whole.values.skip(start.values.len() as int);
            after.values == before.values + extracted.skip(min(extracted.len() as int, n * size))
        }),
        left == whole_left,
{
    let entries = whole_elements(dict, size);
    let len = indices.len() as int;
    let both = min(n + m, len);
    let all = indices.take(both);
    lemma_leading_bounds(all, entries);
    assert forall|i: int| 0 <= i < both implies indices[i] < entries by {
        assert(all[i] == indices[i]);
    }
    let extracted = whole.values.skip(start.values.len() as int);
    assert(extracted =~= concat(resolved(all, dict, size)));
    lemma_gathered_len(all, dict, size);
    let passed = min(len, n as int);
    let rest = indices.skip(passed);
    let wanted = rest.take(min(m as int, rest.len() as int));
    assert forall|i: int| 0 <= i < wanted.len() implies wanted[i] < entries by {
        assert(wanted[i] == indices[i + passed]);
    }
    lemma_leading_is(wanted, entries, wanted.len() as int);
    if n >= len {
        assert(both * size <= n * size) by (nonlinear_arith)
            requires
                both <= n,
                size > 0,
        ;
        assert(wanted =~= Seq::<u32>::empty());
        assert(resolved(rest.take(0), dict, size) =~= Seq::<Seq<u8>>::empty());
        assert(after.values =~= before.values + extracted.skip(
            min(extracted.len() as int, n * size),
        ));
        assert(left =~= whole_left);
    } else {
        let first = indices.take(n as int);
        let second = indices.subrange(n as int, both);
        assert(rest.take(wanted.len() as int) =~= second);
        assert(resolved(all, dict, size) =~= resolved(first, dict, size) + resolved(
            second,
            dict,
            size,
        ));
        lemma_concat_add(resolved(first, dict, size), resolved(second, dict, size));
        assert forall|i: int| 0 <= i < first.len() implies first[i] < entries by {
            assert(first[i] == indices[i]);
        }
        lemma_gathered_len(first, dict, size);
        assert(n * size <= both * size) by (nonlinear_arith)
            requires
                n <= both,
                size > 0,
        ;
        assert(extracted.skip(n * size) =~= concat(resolved(second, dict, size)));
        assert(rest.skip(wanted.len() as int) =~= indices.skip(both));
    }
}

} // verus!
