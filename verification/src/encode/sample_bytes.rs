//! Samples as bytes.
use crate::bytes::{
    lemma_u16_le_roundtrip, lemma_u32_le_roundtrip, push_u16_le, push_u32_le, read_u16_le,
    read_u32_le, u16_le, u16_le_value, u32_le, u32_le_value,
};
use vstd::prelude::*;

verus! {

/// A sample that is kept as a fixed number of little-endian bytes.
pub trait RawSample: Copy {
    /// How many bytes a sample has.
    spec fn raw_len() -> nat;

    /// The bytes of a sample.
    spec fn raw(self) -> Seq<u8>;

    /// The sample with these bytes.
    spec fn of_raw(bytes: Seq<u8>) -> Self;

    /// The sample that stands where no tile was decoded.
    spec fn zero() -> Self;

    /// The bytes of a sample give it back.
    proof fn raw_gives_back(value: Self)
        ensures
            value.raw().len() == Self::raw_len(),
            Self::of_raw(value.raw()) == value,
            1 <= Self::raw_len() <= 8,
    ;

    /// How many bytes a sample has.
    fn size() -> (size: usize)
        ensures
            size == Self::raw_len(),
    ;

    /// Appends the bytes of a sample.
    fn push_raw(self, out: &mut Vec<u8>)
        ensures
            final(out)@ == old(out)@ + self.raw(),
    ;

    /// Reads the sample whose bytes start at `at`.
    fn read_raw(bytes: &[u8], at: usize) -> (value: Self)
        requires
            at + Self::raw_len() <= bytes@.len(),
        ensures
            value == Self::of_raw(bytes@.subrange(at as int, at + Self::raw_len())),
    ;

    /// The sample that stands where no tile was decoded.
    fn zero_sample() -> (value: Self)
        ensures
            value == Self::zero(),
    ;
}

impl RawSample for u8 {
    open spec fn raw_len() -> nat {
        1
    }

    open spec fn raw(self) -> Seq<u8> {
        seq![self]
    }

    open spec fn of_raw(bytes: Seq<u8>) -> u8 {
        bytes[0]
    }

    open spec fn zero() -> u8 {
        0
    }

    proof fn raw_gives_back(value: u8) {
    }

    fn size() -> (size: usize) {
        1
    }

    fn push_raw(self, out: &mut Vec<u8>) {
        out.push(self);
        assert(out@ =~= old(out)@ + self.raw());
    }

    fn read_raw(bytes: &[u8], at: usize) -> (value: u8) {
        bytes[at]
    }

    fn zero_sample() -> (value: u8) {
        0
    }
}

impl RawSample for i8 {
    open spec fn raw_len() -> nat {
        1
    }

    open spec fn raw(self) -> Seq<u8> {
        seq![self as u8]
    }

    open spec fn of_raw(bytes: Seq<u8>) -> i8 {
        bytes[0] as i8
    }

    open spec fn zero() -> i8 {
        0
    }

    proof fn raw_gives_back(value: i8) {
        assert((value as u8) as i8 == value) by (bit_vector);
    }

    fn size() -> (size: usize) {
        1
    }

    fn push_raw(self, out: &mut Vec<u8>) {
        out.push(
            #[verifier::truncate]
            (self as u8),
        );
        assert(out@ =~= old(out)@ + self.raw());
    }

    fn read_raw(bytes: &[u8], at: usize) -> (value: i8) {
        #[verifier::truncate]
        (bytes[at] as i8)
    }

    fn zero_sample() -> (value: i8) {
        0
    }
}

impl RawSample for u16 {
    open spec fn raw_len() -> nat {
        2
    }

    open spec fn raw(self) -> Seq<u8> {
        u16_le(self as nat)
    }

    open spec fn of_raw(bytes: Seq<u8>) -> u16 {
        u16_le_value(bytes) as u16
    }

    open spec fn zero() -> u16 {
        0
    }

    proof fn raw_gives_back(value: u16) {
        lemma_u16_le_roundtrip(value as nat);
    }

    fn size() -> (size: usize) {
        2
    }

    fn push_raw(self, out: &mut Vec<u8>) {
        push_u16_le(out, self);
    }

    fn read_raw(bytes: &[u8], at: usize) -> (value: u16) {
        read_u16_le(bytes, at)
    }

    fn zero_sample() -> (value: u16) {
        0
    }
}

impl RawSample for i16 {
    open spec fn raw_len() -> nat {
        2
    }

    open spec fn raw(self) -> Seq<u8> {
        u16_le((self as u16) as nat)
    }

    open spec fn of_raw(bytes: Seq<u8>) -> i16 {
        (u16_le_value(bytes) as u16) as i16
    }

    open spec fn zero() -> i16 {
        0
    }

    proof fn raw_gives_back(value: i16) {
        lemma_u16_le_roundtrip((value as u16) as nat);
        assert((value as u16) as i16 == value) by (bit_vector);
    }

    fn size() -> (size: usize) {
        2
    }

    fn push_raw(self, out: &mut Vec<u8>) {
        push_u16_le(
            out,
            #[verifier::truncate]
            (self as u16),
        );
    }

    fn read_raw(bytes: &[u8], at: usize) -> (value: i16) {
        let bits: u16 = read_u16_le(bytes, at);
        #[verifier::truncate]
        (bits as i16)
    }

    fn zero_sample() -> (value: i16) {
        0
    }
}

impl RawSample for u32 {
    open spec fn raw_len() -> nat {
        4
    }

    open spec fn raw(self) -> Seq<u8> {
        u32_le(self as nat)
    }

    open spec fn of_raw(bytes: Seq<u8>) -> u32 {
        u32_le_value(bytes) as u32
    }

    open spec fn zero() -> u32 {
        0
    }

    proof fn raw_gives_back(value: u32) {
        lemma_u32_le_roundtrip(value as nat);
    }

    fn size() -> (size: usize) {
        4
    }

    fn push_raw(self, out: &mut Vec<u8>) {
        push_u32_le(out, self);
    }

    fn read_raw(bytes: &[u8], at: usize) -> (value: u32) {
        read_u32_le(bytes, at)
    }

    fn zero_sample() -> (value: u32) {
        0
    }
}

impl RawSample for i32 {
    open spec fn raw_len() -> nat {
        4
    }

    open spec fn raw(self) -> Seq<u8> {
        u32_le((self as u32) as nat)
    }

    open spec fn of_raw(bytes: Seq<u8>) -> i32 {
        (u32_le_value(bytes) as u32) as i32
    }

    open spec fn zero() -> i32 {
        0
    }

    proof fn raw_gives_back(value: i32) {
        lemma_u32_le_roundtrip((value as u32) as nat);
        assert((value as u32) as i32 == value) by (bit_vector);
    }

    fn size() -> (size: usize) {
        4
    }

    fn push_raw(self, out: &mut Vec<u8>) {
        push_u32_le(
            out,
            #[verifier::truncate]
            (self as u32),
        );
    }

    fn read_raw(bytes: &[u8], at: usize) -> (value: i32) {
        let bits: u32 = read_u32_le(bytes, at);
        #[verifier::truncate]
        (bits as i32)
    }

    fn zero_sample() -> (value: i32) {
        0
    }
}

/// The value of eight little-endian bytes.
pub open spec fn u64_le_value(bytes: Seq<u8>) -> nat {
    u32_le_value(bytes.subrange(0, 4)) + u32_le_value(bytes.subrange(4, 8)) * 4294967296
}

/// The eight little-endian bytes of a value below 2^64.
pub open spec fn u64_le(value: nat) -> Seq<u8> {
    u32_le(value % 4294967296) + u32_le(value / 4294967296)
}

proof fn lemma_u64_le_roundtrip(value: nat)
    requires
        value <= u64::MAX,
    ensures
        u64_le(value).len() == 8,
        u64_le_value(u64_le(value)) == value,
{
    let low = value % 4294967296;
    let high = value / 4294967296;
    lemma_u32_le_roundtrip(low);
    lemma_u32_le_roundtrip(high);
    assert(u64_le(value).subrange(0, 4) =~= u32_le(low));
    assert(u64_le(value).subrange(4, 8) =~= u32_le(high));
}

fn push_u64_le(out: &mut Vec<u8>, value: u64)
    ensures
        final(out)@ == old(out)@ + u64_le(value as nat),
{
    push_u32_le(out, (value % 4294967296) as u32);
    push_u32_le(out, (value / 4294967296) as u32);
    assert(out@ =~= old(out)@ + u64_le(value as nat));
}

fn read_u64_le(bytes: &[u8], at: usize) -> (value: u64)
    requires
        at + 8 <= bytes@.len(),
    ensures
        value == u64_le_value(bytes@.subrange(at as int, at + 8)),
{
    let length: usize = bytes.len();
    let low: u32 = read_u32_le(bytes, at);
    let high: u32 = read_u32_le(bytes, at + 4);
    proof {
        let part = bytes@.subrange(at as int, at + 8);
        assert(part.subrange(0, 4) =~= bytes@.subrange(at as int, at + 4));
        assert(part.subrange(4, 8) =~= bytes@.subrange(at + 4, at + 8));
    }
    low as u64 + high as u64 * 4294967296
}

impl RawSample for u64 {
    open spec fn raw_len() -> nat {
        8
    }

    open spec fn raw(self) -> Seq<u8> {
        u64_le(self as nat)
    }

    open spec fn of_raw(bytes: Seq<u8>) -> u64 {
        u64_le_value(bytes) as u64
    }

    open spec fn zero() -> u64 {
        0
    }

    proof fn raw_gives_back(value: u64) {
        lemma_u64_le_roundtrip(value as nat);
    }

    fn size() -> (size: usize) {
        8
    }

    fn push_raw(self, out: &mut Vec<u8>) {
        push_u64_le(out, self);
    }

    fn read_raw(bytes: &[u8], at: usize) -> (value: u64) {
        read_u64_le(bytes, at)
    }

    fn zero_sample() -> (value: u64) {
        0
    }
}

impl RawSample for i64 {
    open spec fn raw_len() -> nat {
        8
    }

    open spec fn raw(self) -> Seq<u8> {
        u64_le((self as u64) as nat)
    }

    open spec fn of_raw(bytes: Seq<u8>) -> i64 {
        (u64_le_value(bytes) as u64) as i64
    }

    open spec fn zero() -> i64 {
        0
    }

    proof fn raw_gives_back(value: i64) {
        lemma_u64_le_roundtrip((value as u64) as nat);
        assert((value as u64) as i64 == value) by (bit_vector);
    }

    fn size() -> (size: usize) {
        8
    }

    fn push_raw(self, out: &mut Vec<u8>) {
        push_u64_le(
            out,
            #[verifier::truncate]
            (self as u64),
        );
    }

    fn read_raw(bytes: &[u8], at: usize) -> (value: i64) {
        let bits: u64 = read_u64_le(bytes, at);
        #[verifier::truncate]
        (bits as i64)
    }

    fn zero_sample() -> (value: i64) {
        0
    }
}

/// The bytes of several samples, one after the other.
pub open spec fn raw_all<T: RawSample>(samples: Seq<T>) -> Seq<u8>
    decreases samples.len(),
{
    if samples.len() == 0 {
        Seq::empty()
    } else {
        raw_all(samples.drop_last()) + samples.last().raw()
    }
}

/// The `count` samples whose bytes stand one after the other.
pub open spec fn samples_of<T: RawSample>(bytes: Seq<u8>, count: nat) -> Seq<T> {
    Seq::new(
        count,
        |i: int| T::of_raw(bytes.subrange(i * T::raw_len(), i * T::raw_len() + T::raw_len())),
    )
}

/// Samples have the same number of bytes each.
pub proof fn lemma_raw_all_len<T: RawSample>(samples: Seq<T>)
    ensures
        raw_all(samples).len() == samples.len() * T::raw_len(),
    decreases samples.len(),
{
    if samples.len() == 0 {
        assert(samples.len() * T::raw_len() == 0) by (nonlinear_arith)
            requires
                samples.len() == 0,
        ;
    } else {
        lemma_raw_all_len(samples.drop_last());
        T::raw_gives_back(samples.last());
        let n = samples.drop_last().len();
        assert((n + 1) * T::raw_len() == n * T::raw_len() + T::raw_len()) by (nonlinear_arith);
    }
}

/// The bytes of samples, whatever follows them, give the samples back.
pub proof fn law_raw_samples_read_back<T: RawSample>(samples: Seq<T>, tail: Seq<u8>)
    ensures
        samples_of::<T>(raw_all(samples) + tail, samples.len()) == samples,
    decreases samples.len(),
{
    let all = raw_all(samples) + tail;
    let back = samples_of::<T>(all, samples.len());
    if samples.len() > 0 {
        let front = samples.drop_last();
        let last = samples.last().raw();
        law_raw_samples_read_back(front, last + tail);
        assert(raw_all(front) + (last + tail) =~= all);
        lemma_raw_all_len(front);
        T::raw_gives_back(samples.last());
        let n = front.len() as int;
        let start = n * T::raw_len();
        assert(start == raw_all(front).len());
        assert(all.subrange(start, start + T::raw_len()) =~= last);
        assert forall|i: int| 0 <= i < samples.len() implies #[trigger] back[i] == samples[i] by {
            if i < n {
                assert(samples_of::<T>(all, front.len())[i] == front[i]);
            }
        }
    }
    assert(back =~= samples);
}

/// Appends the bytes of several samples.
pub fn push_raw_all<T: RawSample>(out: &mut Vec<u8>, samples: &Vec<T>)
    ensures
        final(out)@ == old(out)@ + raw_all(samples@),
{
    let mut i: usize = 0;
    assert(samples@.take(0) =~= Seq::<T>::empty());
    assert(old(out)@ + Seq::<u8>::empty() =~= old(out)@);
    while i < samples.len()
        invariant
            i <= samples@.len(),
            out@ == old(out)@ + raw_all(samples@.take(i as int)),
        decreases samples@.len() - i,
    {
        samples[i].push_raw(out);
        proof {
            let next = samples@.take(i + 1);
            assert(next.drop_last() =~= samples@.take(i as int));
            assert(next.last() == samples@[i as int]);
            assert(out@ =~= old(out)@ + raw_all(next));
        }
        i = i + 1;
    }
    assert(samples@.take(i as int) =~= samples@);
}

/// Reads `count` samples whose bytes stand one after the other from `at` on.
pub fn read_raw_all<T: RawSample>(bytes: &[u8], at: usize, count: usize) -> (samples: Vec<T>)
    requires
        at + count * T::raw_len() <= bytes@.len(),
    ensures
        samples@ == samples_of::<T>(bytes@.subrange(at as int, at + count * T::raw_len()), count as nat),
{
    let size: usize = T::size();
    let length: usize = bytes.len();
    let ghost part = bytes@.subrange(at as int, at + count * T::raw_len());
    let mut samples: Vec<T> = Vec::new();
    let mut from: usize = at;
    let mut i: usize = 0;
    assert(0 * T::raw_len() == 0) by (nonlinear_arith);
    while i < count
        invariant
            i <= count,
            size == T::raw_len(),
            length == bytes@.len(),
            from == at + i * T::raw_len(),
            at + count * T::raw_len() <= bytes@.len(),
            part == bytes@.subrange(at as int, at + count * T::raw_len()),
            samples@.len() == i,
            forall|j: int|
                0 <= j < i ==> #[trigger] samples@[j] == samples_of::<T>(part, count as nat)[j],
        decreases count - i,
    {
        proof {
            assert((i + 1) * T::raw_len() == i * T::raw_len() + T::raw_len()) by (nonlinear_arith);
            crate::arith::lemma_mul_bound(
                i + 1,
                T::raw_len() as int,
                count as int,
                T::raw_len() as int,
            );
            assert(part.subrange(i * T::raw_len(), i * T::raw_len() + T::raw_len())
                =~= bytes@.subrange(from as int, from + T::raw_len()));
        }
        samples.push(T::read_raw(bytes, from));
        from = from + size;
        i = i + 1;
    }
    assert(samples@ =~= samples_of::<T>(part, count as nat));
    samples
}

} // verus!
