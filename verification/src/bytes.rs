//! Fixed-width integers in byte strings.
use vstd::prelude::*;

verus! {

/// The value of four little-endian bytes.
pub open spec fn u32_le_value(bytes: Seq<u8>) -> nat {
    (bytes[0] + 256 * bytes[1] + 65536 * bytes[2] + 16777216 * bytes[3]) as nat
}

/// The value of two little-endian bytes.
pub open spec fn u16_le_value(bytes: Seq<u8>) -> nat {
    (bytes[0] + 256 * bytes[1]) as nat
}

/// The value of four big-endian bytes.
pub open spec fn u32_be_value(bytes: Seq<u8>) -> nat {
    (16777216 * bytes[0] + 65536 * bytes[1] + 256 * bytes[2] + bytes[3]) as nat
}

/// The value of eight big-endian bytes.
pub open spec fn u64_be_value(bytes: Seq<u8>) -> nat {
    u32_be_value(bytes.subrange(0, 4)) * 4294967296 + u32_be_value(bytes.subrange(4, 8))
}

/// The four little-endian bytes of a value below 2^32.
pub open spec fn u32_le(value: nat) -> Seq<u8> {
    seq![
        (value % 256) as u8,
        (value / 256 % 256) as u8,
        (value / 65536 % 256) as u8,
        (value / 16777216 % 256) as u8,
    ]
}

/// The two little-endian bytes of a value below 2^16.
pub open spec fn u16_le(value: nat) -> Seq<u8> {
    seq![(value % 256) as u8, (value / 256 % 256) as u8]
}

/// Four bytes hold every 32-bit value: reading gives back what was written.
pub proof fn lemma_u32_le_roundtrip(value: nat)
    requires
        value <= u32::MAX,
    ensures
        u32_le(value).len() == 4,
        u32_le_value(u32_le(value)) == value,
{
}

/// Two bytes hold every 16-bit value: reading gives back what was written.
pub proof fn lemma_u16_le_roundtrip(value: nat)
    requires
        value <= u16::MAX,
    ensures
        u16_le(value).len() == 2,
        u16_le_value(u16_le(value)) == value,
{
}

/// Appends the little-endian bytes of `value`.
pub fn push_u32_le(out: &mut Vec<u8>, value: u32)
    ensures
        final(out)@ == old(out)@ + u32_le(value as nat),
{
    out.push((value % 256) as u8);
    out.push((value / 256 % 256) as u8);
    out.push((value / 65536 % 256) as u8);
    out.push((value / 16777216 % 256) as u8);
    assert(out@ =~= old(out)@ + u32_le(value as nat));
}

/// Appends the little-endian bytes of `value`.
pub fn push_u16_le(out: &mut Vec<u8>, value: u16)
    ensures
        final(out)@ == old(out)@ + u16_le(value as nat),
{
    out.push((value % 256) as u8);
    out.push((value / 256 % 256) as u8);
    assert(out@ =~= old(out)@ + u16_le(value as nat));
}

/// Reads the little-endian value that starts at `at`.
pub fn read_u32_le(bytes: &[u8], at: usize) -> (value: u32)
    requires
        at + 4 <= bytes@.len(),
    ensures
        value == u32_le_value(bytes@.subrange(at as int, at + 4)),
{
    bytes[at] as u32 + 256 * bytes[at + 1] as u32 + 65536 * bytes[at + 2] as u32 + 16777216
        * bytes[at + 3] as u32
}

/// Reads the little-endian value that starts at `at`.
pub fn read_u16_le(bytes: &[u8], at: usize) -> (value: u16)
    requires
        at + 2 <= bytes@.len(),
    ensures
        value == u16_le_value(bytes@.subrange(at as int, at + 2)),
{
    bytes[at] as u16 + 256 * bytes[at + 1] as u16
}

/// Appends the bytes of `data`.
pub fn push_all(out: &mut Vec<u8>, data: &[u8])
    ensures
        final(out)@ == old(out)@ + data@,
{
    let mut i: usize = 0;
    while i < data.len()
        invariant
            i <= data@.len(),
            out@ == old(out)@ + data@.subrange(0, i as int),
        decreases data@.len() - i,
    {
        out.push(data[i]);
        i = i + 1;
        assert(out@ =~= old(out)@ + data@.subrange(0, i as int));
    }
    assert(data@.subrange(0, i as int) =~= data@);
}

/// A copy of `data[from..to]`.
pub fn copy_range(data: &[u8], from: usize, to: usize) -> (out: Vec<u8>)
    requires
        from <= to <= data@.len(),
    ensures
        out@ == data@.subrange(from as int, to as int),
{
    let mut out: Vec<u8> = Vec::new();
    let mut i: usize = from;
    while i < to
        invariant
            from <= i <= to <= data@.len(),
            out@ == data@.subrange(from as int, i as int),
        decreases to - i,
    {
        out.push(data[i]);
        i = i + 1;
        assert(out@ =~= data@.subrange(from as int, i as int));
    }
    out
}

/// The bytes that result from writing `data` over `bytes` from `position` on.
pub open spec fn overwritten(bytes: Seq<u8>, position: int, data: Seq<u8>) -> Seq<u8> {
    if position + data.len() < bytes.len() {
        bytes.subrange(0, position) + data + bytes.subrange(
            position + data.len(),
            bytes.len() as int,
        )
    } else {
        bytes.subrange(0, position) + data
    }
}

/// Writes `data` over `bytes` from `position` on and gives the position behind it.
pub fn write_over(bytes: &mut Vec<u8>, position: usize, data: &[u8]) -> (end: usize)
    requires
        position <= old(bytes)@.len(),
    ensures
        final(bytes)@ == overwritten(old(bytes)@, position as int, data@),
        end == position + data@.len(),
        end <= final(bytes)@.len(),
{
    let mut at: usize = position;
    let mut i: usize = 0;
    assert(bytes@ =~= overwritten(old(bytes)@, position as int, data@.subrange(0, 0)));
    while i < data.len()
        invariant
            i <= data@.len(),
            position <= old(bytes)@.len(),
            at == position + i,
            at <= bytes@.len(),
            bytes@ == overwritten(old(bytes)@, position as int, data@.subrange(0, i as int)),
        decreases data@.len() - i,
    {
        if at == bytes.len() {
            bytes.push(data[i]);
        } else {
            bytes.set(at, data[i]);
        }
        let length: usize = bytes.len();
        assert(at < length);
        at = at + 1;
        i = i + 1;
        assert(bytes@ =~= overwritten(old(bytes)@, position as int, data@.subrange(0, i as int)));
    }
    assert(data@.subrange(0, i as int) =~= data@);
    at
}

/// Numbers are read byte by byte: with the high byte first, each further byte multiplies what
/// came before by 256; with the low byte first, the bytes count in the other order.
pub proof fn law_byte_order_decides_value(bytes: Seq<u8>)
    requires
        bytes.len() == 4,
    ensures
        u32_be_value(bytes) == ((bytes[0] * 256 + bytes[1]) * 256 + bytes[2]) * 256 + bytes[3],
        u32_le_value(bytes) == u32_be_value(seq![bytes[3], bytes[2], bytes[1], bytes[0]]),
        u16_le_value(bytes) == bytes[1] * 256 + bytes[0],
{
}

/// A number of eight bytes is read with the high byte first.
pub proof fn law_wide_numbers_have_two_halves(bytes: Seq<u8>)
    requires
        bytes.len() == 8,
    ensures
        u64_be_value(bytes) == u32_be_value(bytes.take(4)) * 0x1_0000_0000 + u32_be_value(
            bytes.skip(4),
        ),
{
    assert(bytes.subrange(0, 4) =~= bytes.take(4));
    assert(bytes.subrange(4, 8) =~= bytes.skip(4));
}

/// What is written over bytes stands at its position, and all other bytes stay.
pub proof fn law_overwriting_keeps_other_bytes(
    bytes: Seq<u8>,
    position: int,
    data: Seq<u8>,
    i: int,
)
    requires
        0 <= position <= bytes.len(),
    ensures
        ({
            let out = overwritten(bytes, position, data);
            &&& out.len() == (if position + data.len() < bytes.len() {
                bytes.len()
            } else {
                (position + data.len()) as nat
            })
            &&& position <= i < position + data.len() ==> out[i] == data[i - position]
            &&& 0 <= i < position || position + data.len() <= i < bytes.len() ==> out[i] == bytes[i]
        }),
{
}

} // verus!
