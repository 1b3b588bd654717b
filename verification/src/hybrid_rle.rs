//! Streams of small integers in the hybrid of run-length and bit-packed runs.
//!
//! A stream is a chain of runs. Each run starts with a header, an unsigned
//! integer in base 128, least significant digit first, every byte but the
//! last with its top bit set. An even header `2 * n` starts a run of `n`
//! copies of one value, which follows in as many bytes as the bit width
//! takes, least significant first. An odd header `2 * g + 1` starts `g`
//! groups of eight values, each value `num_bits` wide, packed from the least
//! significant bit of the first byte on.

use crate::error::DecodeError;
use vstd::arithmetic::power2::{lemma2_to64, lemma_pow2_unfold, pow2};
use vstd::math::min;
use vstd::prelude::*;

verus! {

/// The widest value of a stream, in bits.
pub const MAX_BITS: usize = 32;

/// The most bytes that a header takes.
pub const MAX_HEADER_BYTES: usize = 5;

/// The unsigned integer in base 128 at `pos`, read over at most `bytes`
/// bytes, and the position behind it; `None` where `data` ends within it or
/// it is longer.
pub open spec fn uleb128(data: Seq<u8>, pos: int, bytes: nat) -> Option<(nat, int)>
    decreases bytes,
{
    if bytes == 0 || pos < 0 || pos >= data.len() {
        None
    } else if data[pos] < 128 {
        Some((data[pos] as nat, pos + 1))
    } else {
        match uleb128(data, pos + 1, (bytes - 1) as nat) {
            Some((high, next)) => Some(((data[pos] - 128 + 128 * high) as nat, next)),
            None => None,
        }
    }
}

/// The number in the `width` bytes at `pos`, least significant byte first.
pub open spec fn le_value(data: Seq<u8>, pos: int, width: nat) -> nat
    decreases width,
{
    if width == 0 {
        0
    } else {
        data[pos] as nat + 256 * le_value(data, pos + 1, (width - 1) as nat)
    }
}

/// Bit `bit` of the bytes from `body` on, counted from the least significant
/// bit of the first.
pub open spec fn bit_at(data: Seq<u8>, body: int, bit: int) -> nat {
    ((data[body + bit / 8] as nat) / pow2((bit % 8) as nat)) % 2
}

/// The number in the `width` bits from `bit` on, least significant bit first.
pub open spec fn bits_value(data: Seq<u8>, body: int, bit: int, width: nat) -> nat
    decreases width,
{
    if width == 0 {
        0
    } else {
        bit_at(data, body, bit) + 2 * bits_value(data, body, bit + 1, (width - 1) as nat)
    }
}

/// A run of a stream.
pub struct Run {
    /// Whether the values are bit-packed, rather than one value repeated.
    pub packed: bool,
    /// The number of values.
    pub count: nat,
    /// The position of the first byte behind the header.
    pub body: int,
    /// The position of the first byte behind the run.
    pub next: int,
}

/// The bytes that one value of a run-length run takes.
pub open spec fn value_bytes(num_bits: nat) -> nat {
    (num_bits + 7) / 8
}

/// The run whose header is at `pos`; `None` where there is no header, where
/// it does not fit in 32 bits, or where `data` ends within the run.
pub open spec fn run_at(data: Seq<u8>, pos: int, num_bits: nat) -> Option<Run> {
    match uleb128(data, pos, MAX_HEADER_BYTES as nat) {
        None => None,
        Some((header, body)) => {
            let packed = header % 2 == 1;
            let length = if packed {
                (header / 2) * num_bits
            } else {
                value_bytes(num_bits)
            };
            let count = if packed {
                (header / 2) * 8
            } else {
                header / 2
            };
            if header <= u32::MAX && body + length <= data.len() {
                Some(Run { packed, count, body, next: body + length })
            } else {
                None
            }
        },
    }
}

/// The `i`-th value of `run`.
pub open spec fn run_value(data: Seq<u8>, run: Run, num_bits: nat, i: int) -> u32 {
    if run.packed {
        bits_value(data, run.body, i * num_bits, num_bits) as u32
    } else {
        le_value(data, run.body, value_bytes(num_bits)) as u32
    }
}

/// The values of `run`, in order.
pub open spec fn run_values(data: Seq<u8>, run: Run, num_bits: nat) -> Seq<u32> {
    Seq::new(run.count, |i: int| run_value(data, run, num_bits, i))
}

/// The values of the runs from `pos` on, as far as `data` holds whole runs.
pub open spec fn stream(data: Seq<u8>, pos: int, num_bits: nat) -> Seq<u32>
    decreases data.len() - pos,
{
    match run_at(data, pos, num_bits) {
        Some(run) if run.next > pos => run_values(data, run, num_bits) + stream(
            data,
            run.next,
            num_bits,
        ),
        _ => Seq::empty(),
    }
}

/// A header takes at least one byte and lies within the data.
pub proof fn lemma_uleb128_bounds(data: Seq<u8>, pos: int, bytes: nat)
    ensures
        uleb128(data, pos, bytes) matches Some((value, next)) ==> {
            &&& pos < next <= data.len()
            &&& next <= pos + bytes
            &&& value < pow2(7 * bytes)
        },
    decreases bytes,
{
    if bytes == 0 || pos < 0 || pos >= data.len() {
    } else {
        vstd::arithmetic::power2::lemma_pow2_adds(7, (7 * (bytes - 1)) as nat);
        lemma2_to64();
        if data[pos] >= 128 {
            lemma_uleb128_bounds(data, pos + 1, (bytes - 1) as nat);
        } else {
            vstd::arithmetic::power2::lemma_pow2_pos((7 * (bytes - 1)) as nat);
            assert(128 * pow2((7 * (bytes - 1)) as nat) >= 128) by (nonlinear_arith)
                requires
                    pow2((7 * (bytes - 1)) as nat) >= 1,
            ;
        }
    }
}

/// Reads the header at `pos`.
fn read_header(data: &[u8], pos: usize) -> (header: Option<(u64, usize)>)
    ensures
        match header {
            Some((value, next)) => uleb128(data@, pos as int, MAX_HEADER_BYTES as nat) == Some(
                (value as nat, next as int),
            ),
            None => uleb128(data@, pos as int, MAX_HEADER_BYTES as nat) is None,
        },
{
    read_uleb128(data, pos, MAX_HEADER_BYTES)
}

/// Reads the unsigned integer in base 128 at `pos`, over at most `bytes`
/// bytes.
fn read_uleb128(data: &[u8], pos: usize, bytes: usize) -> (r: Option<(u64, usize)>)
    requires
        bytes <= MAX_HEADER_BYTES,
    ensures
        match r {
            Some((value, next)) => uleb128(data@, pos as int, bytes as nat) == Some(
                (value as nat, next as int),
            ),
            None => uleb128(data@, pos as int, bytes as nat) is None,
        },
    decreases bytes,
{
    if bytes == 0 || pos >= data.len() {
        return None;
    }
    let byte = data[pos];
    if byte < 128 {
        return Some((byte as u64, pos + 1));
    }
    proof {
        lemma_uleb128_bounds(data@, pos + 1, (bytes - 1) as nat);
        lemma2_to64();
        lemma_pow2_monotone((7 * (bytes - 1)) as nat, 28);
    }
    match read_uleb128(data, pos + 1, bytes - 1) {
        Some((high, next)) => Some(((byte - 128) as u64 + 128 * high, next)),
        None => None,
    }
}

/// Two to a power grows with the power.
proof fn lemma_pow2_monotone(a: nat, b: nat)
    requires
        a <= b,
    ensures
        pow2(a) <= pow2(b),
{
    if a < b {
        vstd::arithmetic::power2::lemma_pow2_strictly_increases(a, b);
    }
}

/// A number written in `width` bits is below two to the `width`.
pub proof fn lemma_bits_value_bound(data: Seq<u8>, body: int, bit: int, width: nat)
    ensures
        bits_value(data, body, bit, width) < pow2(width),
    decreases width,
{
    if width == 0 {
        lemma2_to64();
    } else {
        lemma_bits_value_bound(data, body, bit + 1, (width - 1) as nat);
        lemma_pow2_unfold(width);
    }
}

/// Two to the `shift`, for a shift within a byte.
fn power_of_two(shift: u64) -> (power: u8)
    requires
        shift < 8,
    ensures
        power == pow2(shift as nat),
{
    proof {
        lemma2_to64();
    }
    if shift == 0 {
        1
    } else if shift == 1 {
        2
    } else if shift == 2 {
        4
    } else if shift == 3 {
        8
    } else if shift == 4 {
        16
    } else if shift == 5 {
        32
    } else if shift == 6 {
        64
    } else {
        128
    }
}

/// Reads the value of a run-length run.
fn read_le_value(data: &[u8], pos: usize, width: usize) -> (value: u32)
    requires
        width <= 4,
        pos + width <= data.len(),
    ensures
        value == le_value(data@, pos as int, width as nat),
{
    proof {
        reveal_with_fuel(le_value, 5);
    }
    let mut value: u32 = 0;
    if width >= 4 {
        value = data[pos + 3] as u32;
    }
    if width >= 3 {
        value = value * 256 + data[pos + 2] as u32;
    }
    if width >= 2 {
        value = value * 256 + data[pos + 1] as u32;
    }
    if width >= 1 {
        value = value * 256 + data[pos] as u32;
    }
    value
}

/// Reads the value at `index` of a bit-packed run.
fn read_bits_value(data: &[u8], body: usize, index: u64, num_bits: usize) -> (value: u32)
    requires
        num_bits <= MAX_BITS,
        index < 0x10_0000_0000,
        body <= data.len(),
        (index + 1) * num_bits <= 8 * (data.len() - body),
    ensures
        value == bits_value(data@, body as int, index * num_bits, num_bits as nat),
{
    proof {
        lemma2_to64();
        assert((index + 1) * num_bits == index * num_bits + num_bits && 0 <= index * num_bits
            <= 0x10_0000_0000 * 32) by (nonlinear_arith)
            requires
                0 <= index < 0x10_0000_0000,
                0 <= num_bits <= 32,
        ;
    }
    let first: u64 = index * (num_bits as u64);
    let mut value: u64 = 0;
    let mut left: usize = num_bits;
    while left > 0
        invariant
            left <= num_bits <= MAX_BITS,
            first == index * num_bits,
            first <= 0x10_0000_0000 * 32,
            first + num_bits <= 8 * (data.len() - body),
            body <= data.len(),
            value == bits_value(data@, body as int, first + left, (num_bits - left) as nat),
        decreases left,
    {
        left -= 1;
        let bit: u64 = first + left as u64;
        let byte = data[body + (bit / 8) as usize];
        let power = power_of_two(bit % 8);
        proof {
            vstd::arithmetic::power2::lemma_pow2_pos((bit % 8) as nat);
        }
        let digit = (byte / power) % 2;
        proof {
            lemma_bits_value_bound(data@, body as int, bit + 1, (num_bits - left - 1) as nat);
            lemma_pow2_monotone((num_bits - left - 1) as nat, 31);
            lemma2_to64();
        }
        value = value * 2 + digit as u64;
    }
    proof {
        lemma_bits_value_bound(data@, body as int, first as int, num_bits as nat);
        lemma_pow2_monotone(num_bits as nat, 32);
        lemma2_to64();
    }
    value as u32
}

/// A run as read from the data.
struct RunHeader {
    packed: bool,
    count: u64,
    body: usize,
    next: usize,
}

/// Reads the run whose header is at `pos`.
fn read_run(data: &[u8], pos: usize, num_bits: usize) -> (header: Option<RunHeader>)
    requires
        num_bits <= MAX_BITS,
    ensures
        match header {
            Some(run) => run_at(data@, pos as int, num_bits as nat) == Some(
                Run {
                    packed: run.packed,
                    count: run.count as nat,
                    body: run.body as int,
                    next: run.next as int,
                },
            ) && pos < run.body <= run.next <= data.len() && run.count <= 0x4_0000_0000,
            None => run_at(data@, pos as int, num_bits as nat) is None,
        },
{
    proof {
        lemma_uleb128_bounds(data@, pos as int, MAX_HEADER_BYTES as nat);
    }
    match read_header(data, pos) {
        None => None,
        Some((header, body)) => {
            if header > u32::MAX as u64 {
                return None;
            }
            let packed = header % 2 == 1;
            let half = header / 2;
            assert(half * num_bits <= 0x8000_0000 * 32) by (nonlinear_arith)
                requires
                    0 <= half <= 0x8000_0000,
                    0 <= num_bits <= 32,
            ;
            let length: u64 = if packed {
                half * (num_bits as u64)
            } else {
                ((num_bits + 7) / 8) as u64
            };
            if length > (data.len() - body) as u64 {
                return None;
            }
            let count = if packed {
                half * 8
            } else {
                half
            };
            Some(RunHeader { packed, count, body, next: body + length as usize })
        },
    }
}

/// What follows the values of the run at `pos`.
pub proof fn lemma_stream_unfold(data: Seq<u8>, pos: int, num_bits: nat)
    ensures
        match run_at(data, pos, num_bits) {
            Some(run) => pos < run.body <= run.next <= data.len() && stream(data, pos, num_bits)
                == run_values(data, run, num_bits) + stream(data, run.next, num_bits),
            None => stream(data, pos, num_bits) == Seq::<u32>::empty(),
        },
{
    lemma_uleb128_bounds(data, pos, MAX_HEADER_BYTES as nat);
    if let Some(run) = run_at(data, pos, num_bits) {
        let header = uleb128(data, pos, MAX_HEADER_BYTES as nat).unwrap().0;
        assert((header / 2) * num_bits >= 0) by (nonlinear_arith);
    }
}

/// A cursor over a stream of values, each `num_bits` wide.
#[derive(Clone, Copy)]
pub struct HybridRleDecoder<'a> {
    data: &'a [u8],
    num_bits: usize,
    /// The values still to hand out.
    remaining: usize,
    /// The position of the header behind the current run.
    next: usize,
    /// Whether the current run is bit-packed.
    packed: bool,
    /// The values left in the current run.
    run_left: u64,
    /// The value of the current run, where it is not bit-packed.
    value: u32,
    /// The first byte of the current run, where it is bit-packed.
    body: usize,
    /// The place within the current run of its next value, where it is
    /// bit-packed.
    index: u64,
}

impl<'a> View for HybridRleDecoder<'a> {
    type V = Seq<u32>;

    /// The values still to hand out, in order.
    closed spec fn view(&self) -> Seq<u32> {
        (self.current() + stream(self.data@, self.next as int, self.num_bits as nat)).take(
            self.remaining as int,
        )
    }
}

impl<'a> HybridRleDecoder<'a> {
    /// The values left in the current run.
    closed spec fn current(&self) -> Seq<u32> {
        Seq::new(
            self.run_left as nat,
            |i: int|
                if self.packed {
                    bits_value(
                        self.data@,
                        self.body as int,
                        (self.index + i) * self.num_bits,
                        self.num_bits as nat,
                    ) as u32
                } else {
                    self.value
                },
        )
    }

    /// Whether the cursor lies within its stream.
    pub closed spec fn wf(&self) -> bool {
        &&& self.num_bits <= MAX_BITS
        &&& self.next <= self.data@.len()
        &&& self.remaining <= self.run_left + stream(
            self.data@,
            self.next as int,
            self.num_bits as nat,
        ).len()
        &&& self.packed ==> {
            &&& self.body <= self.data@.len()
            &&& self.index + self.run_left <= 0x4_0000_0000
            &&& (self.index + self.run_left) * self.num_bits <= 8 * (self.data@.len() - self.body)
        }
    }

    /// Whether the next `n` values lie in the current run.
    pub closed spec fn within_run(&self, n: nat) -> bool {
        n <= self.run_left && n <= self.remaining
    }

    /// A cursor at the first value that `data` holds, over `num_values`
    /// values, or over all that the whole runs of `data` hold if they are
    /// fewer. Fails where a value is wider than 32 bits.
    pub fn try_new(data: &'a [u8], num_bits: usize, num_values: usize) -> (r: Result<
        HybridRleDecoder<'a>,
        DecodeError,
    >)
        ensures
            r is Ok <==> num_bits <= MAX_BITS,
            r matches Ok(decoder) ==> decoder.wf() && decoder@ == stream(
                data@,
                0,
                num_bits as nat,
            ).take(min(num_values as int, stream(data@, 0, num_bits as nat).len() as int)),
            r matches Err(error) ==> error == DecodeError::OutOfSpec,
    {
        if num_bits > MAX_BITS {
            return Err(DecodeError::OutOfSpec);
        }
        let mut pos: usize = 0;
        let mut counted: usize = 0;
        while counted < num_values
            invariant
                num_bits <= MAX_BITS,
                pos <= data@.len(),
                counted + stream(data@, pos as int, num_bits as nat).len() == stream(
                    data@,
                    0,
                    num_bits as nat,
                ).len(),
            decreases data@.len() - pos,
        {
            proof {
                lemma_stream_unfold(data@, pos as int, num_bits as nat);
            }
            match read_run(data, pos, num_bits) {
                None => {
                    return Ok(Self::start(data, num_bits, counted));
                },
                Some(run) => {
                    if run.count >= (num_values - counted) as u64 {
                        return Ok(Self::start(data, num_bits, num_values));
                    }
                    counted += run.count as usize;
                    pos = run.next;
                },
            }
        }
        Ok(Self::start(data, num_bits, num_values))
    }

    /// A cursor in front of the first run of `data`.
    fn start(data: &'a [u8], num_bits: usize, num_values: usize) -> (decoder: HybridRleDecoder<'a>)
        requires
            num_bits <= MAX_BITS,
            num_values <= stream(data@, 0, num_bits as nat).len(),
        ensures
            decoder.wf(),
            decoder@ == stream(data@, 0, num_bits as nat).take(num_values as int),
    {
        let decoder = HybridRleDecoder {
            data,
            num_bits,
            remaining: num_values,
            next: 0,
            packed: false,
            run_left: 0,
            value: 0,
            body: 0,
            index: 0,
        };
        assert(decoder.current() + stream(data@, 0, num_bits as nat) =~= stream(
            data@,
            0,
            num_bits as nat,
        ));
        decoder
    }

    /// The number of values still to hand out.
    pub fn len(&self) -> (len: usize)
        requires
            self.wf(),
        ensures
            len == self@.len(),
    {
        self.remaining
    }

    /// Moves to the run that holds the next value.
    fn load(&mut self)
        requires
            old(self).wf(),
            old(self)@.len() > 0,
        ensures
            final(self).wf(),
            final(self)@ == old(self)@,
            final(self).within_run(1),
    {
        while self.run_left == 0
            invariant
                self.wf(),
                self@ == old(self)@,
                self.remaining > 0,
            decreases self.data@.len() - self.next,
        {
            proof {
                lemma_stream_unfold(self.data@, self.next as int, self.num_bits as nat);
            }
            let ghost before = *self;
            match read_run(self.data, self.next, self.num_bits) {
                None => {
                    assert(false);
                },
                Some(run) => {
                    self.packed = run.packed;
                    self.run_left = run.count;
                    self.body = run.body;
                    self.index = 0;
                    self.next = run.next;
                    if !run.packed {
                        self.value = read_le_value(
                            self.data,
                            run.body,
                            (self.num_bits + 7) / 8,
                        );
                    }
                    proof {
                        let half = (run.next - run.body) as int;
                        if run.packed {
                            let groups = (run.count / 8) as int;
                            assert(half == groups * self.num_bits);
                            assert(run.count * self.num_bits == 8 * half) by (nonlinear_arith)
                                requires
                                    run.count == groups * 8,
                                    half == groups * self.num_bits,
                            ;
                        }
                        assert(self.current() =~= run_values(
                            self.data@,
                            run_at(
                                self.data@,
                                before.next as int,
                                self.num_bits as nat,
                            ).unwrap(),
                            self.num_bits as nat,
                        ));
                        assert(before.current() + stream(
                            self.data@,
                            before.next as int,
                            self.num_bits as nat,
                        ) =~= self.current() + stream(
                            self.data@,
                            self.next as int,
                            self.num_bits as nat,
                        ));
                    }
                },
            }
        }
    }

    /// The value at the front, and a number of values from the front on, at
    /// least one and at most `limit`, that are all equal to it.
    pub fn front(&mut self, limit: usize) -> (span: (u32, usize))
        requires
            old(self).wf(),
            old(self)@.len() > 0,
            limit > 0,
        ensures
            final(self).wf(),
            final(self)@ == old(self)@,
            1 <= span.1 <= limit,
            span.1 <= final(self)@.len(),
            final(self).within_run(span.1 as nat),
            forall|i: int| 0 <= i < span.1 ==> final(self)@[i] == span.0,
    {
        self.load();
        if self.packed {
            proof {
                assert((self.index + 1) * self.num_bits <= (self.index + self.run_left)
                    * self.num_bits) by (nonlinear_arith)
                    requires
                        self.run_left >= 1,
                        self.index >= 0,
                        self.num_bits >= 0,
                ;
            }
            let value = read_bits_value(self.data, self.body, self.index, self.num_bits);
            assert(self@[0] == self.current()[0]);
            (value, 1)
        } else {
            let mut n = limit;
            if n > self.remaining {
                n = self.remaining;
            }
            if n as u64 > self.run_left {
                n = self.run_left as usize;
            }
            assert forall|i: int| 0 <= i < n implies self@[i] == self.value by {
                assert(self@[i] == self.current()[i]);
            }
            (self.value, n)
        }
    }

    /// Passes over the next `n` values, which lie in the current run.
    pub fn advance(&mut self, n: usize)
        requires
            old(self).wf(),
            old(self).within_run(n as nat),
        ensures
            final(self).wf(),
            final(self)@ == old(self)@.skip(n as int),
    {
        let ghost rest = stream(self.data@, self.next as int, self.num_bits as nat);
        self.run_left -= n as u64;
        self.remaining -= n;
        if self.packed {
            self.index += n as u64;
        }
        assert(self.current() =~= old(self).current().skip(n as int));
        assert((self.current() + rest).take(self.remaining as int) =~= (old(self).current()
            + rest).take(old(self).remaining as int).skip(n as int));
    }

    /// Passes over the next `n` values, or over all that are left if they
    /// are fewer.
    pub fn skip_in_place(&mut self, n: usize) -> (r: Result<(), DecodeError>)
        requires
            old(self).wf(),
        ensures
            r is Ok,
            final(self).wf(),
            final(self)@ == old(self)@.skip(
                if n <= old(self)@.len() {
                    n as int
                } else {
                    old(self)@.len() as int
                },
            ),
    {
        let mut left = if n <= self.remaining {
            n
        } else {
            self.remaining
        };
        let ghost total = left;
        assert(self@.skip(0) =~= self@);
        while left > 0
            invariant
                self.wf(),
                left <= total <= old(self)@.len(),
                left <= self@.len(),
                self@ == old(self)@.skip(total - left),
            decreases left,
        {
            let ghost before = self@;
            let (_, span) = self.front(left);
            self.advance(span);
            left -= span;
            assert(old(self)@.skip(total - left - span).skip(span as int) =~= old(self)@.skip(
                total - left,
            ));
        }
        Ok(())
    }
}

} // verus!
