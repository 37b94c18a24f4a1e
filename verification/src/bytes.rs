//! Big-endian numbers and length-prefixed frames.
use vstd::prelude::*;

verus! {

/// 256 to the power of `width`.
pub open spec fn radix_power(width: nat) -> nat
    decreases width,
{
    if width == 0 {
        1
    } else {
        256 * radix_power((width - 1) as nat)
    }
}

/// The `width` lowest bytes of a number, the most significant first.
pub open spec fn be_bytes(value: nat, width: nat) -> Seq<u8>
    decreases width,
{
    if width == 0 {
        Seq::empty()
    } else {
        be_bytes(value / 256, (width - 1) as nat).push((value % 256) as u8)
    }
}

/// The number that big-endian bytes stand for.
pub open spec fn be_value(bytes: Seq<u8>) -> nat
    decreases bytes.len(),
{
    if bytes.len() == 0 {
        0
    } else {
        be_value(bytes.drop_last()) * 256 + bytes.last() as nat
    }
}

/// A number that fits is read back from its bytes.
pub proof fn be_round_trip(value: nat, width: nat)
    requires
        value < radix_power(width),
    ensures
        be_bytes(value, width).len() == width,
        be_value(be_bytes(value, width)) == value,
    decreases width,
{
    if width > 0 {
        be_round_trip(value / 256, (width - 1) as nat);
        let front = be_bytes(value / 256, (width - 1) as nat);
        assert(be_bytes(value, width).drop_last() =~= front);
    }
}

/// Big-endian bytes stand for a number that fits their width.
pub proof fn be_value_bound(bytes: Seq<u8>)
    ensures
        be_value(bytes) < radix_power(bytes.len()),
    decreases bytes.len(),
{
    if bytes.len() > 0 {
        be_value_bound(bytes.drop_last());
    }
}

pub proof fn radix_powers()
    ensures
        radix_power(4) == 0x1_0000_0000,
        radix_power(8) == 0x1_0000_0000_0000_0000,
{
    reveal_with_fuel(radix_power, 9);
}

/// The four bytes of a number.
pub fn be_bytes_u32(value: u32) -> (bytes: Vec<u8>)
    ensures
        bytes@ == be_bytes(value as nat, 4),
        bytes@.len() == 4,
        be_value(bytes@) == value,
{
    let mut bytes: Vec<u8> = Vec::new();
    bytes.push((value / 256 / 256 / 256 % 256) as u8);
    bytes.push((value / 256 / 256 % 256) as u8);
    bytes.push((value / 256 % 256) as u8);
    bytes.push((value % 256) as u8);
    proof {
        reveal_with_fuel(be_bytes, 5);
        radix_powers();
        be_round_trip(value as nat, 4);
        assert(bytes@ =~= be_bytes(value as nat, 4));
    }
    bytes
}

/// The eight bytes of a number.
pub fn be_bytes_u64(value: u64) -> (bytes: Vec<u8>)
    ensures
        bytes@ == be_bytes(value as nat, 8),
        bytes@.len() == 8,
        be_value(bytes@) == value,
{
    let mut bytes: Vec<u8> = Vec::new();
    let high: u64 = value / 0x1_0000_0000;
    bytes.push((high / 256 / 256 / 256 % 256) as u8);
    bytes.push((high / 256 / 256 % 256) as u8);
    bytes.push((high / 256 % 256) as u8);
    bytes.push((high % 256) as u8);
    bytes.push((value / 256 / 256 / 256 % 256) as u8);
    bytes.push((value / 256 / 256 % 256) as u8);
    bytes.push((value / 256 % 256) as u8);
    bytes.push((value % 256) as u8);
    proof {
        assert(high == value / 256 / 256 / 256 / 256);
        reveal_with_fuel(be_bytes, 9);
        radix_powers();
        be_round_trip(value as nat, 8);
        assert(bytes@ =~= be_bytes(value as nat, 8));
    }
    bytes
}

/// The number that `width` bytes from `at` on stand for.
pub fn be_number(bytes: &[u8], at: usize, width: usize) -> (value: u64)
    requires
        width <= 8,
        at + width <= bytes@.len(),
    ensures
        value == be_value(bytes@.subrange(at as int, at + width)),
{
    let total: usize = bytes.len();
    let mut value: u64 = 0;
    let mut i: usize = 0;
    proof {
        radix_powers();
        assert(bytes@.subrange(at as int, at as int) =~= Seq::empty());
    }
    while i < width
        invariant
            i <= width <= 8,
            at + width <= bytes@.len(),
            total == bytes@.len(),
            value == be_value(bytes@.subrange(at as int, at + i)),
            radix_power(8) == 0x1_0000_0000_0000_0000,
        decreases width - i,
    {
        proof {
            let next = bytes@.subrange(at as int, at + i + 1);
            assert(next.drop_last() =~= bytes@.subrange(at as int, at + i));
            be_value_bound(next);
            radix_power_grows((i + 1) as nat, 8);
        }
        value = value * 256 + bytes[at + i] as u64;
        i = i + 1;
    }
    value
}

proof fn radix_power_grows(a: nat, b: nat)
    requires
        a <= b,
    ensures
        radix_power(a) <= radix_power(b),
    decreases b,
{
    if a < b {
        radix_power_grows(a, (b - 1) as nat);
    }
}

/// A payload behind its four-byte length.
pub open spec fn framed(payload: Seq<u8>) -> Seq<u8> {
    be_bytes(payload.len(), 4) + payload
}

/// What stands at a position of a sequence of frames.
#[derive(Clone, Copy, Debug, PartialEq, Eq, Structural)]
pub enum FrameAt {
    /// Nothing more.
    End,
    /// The beginning of a frame whose rest is missing.
    Torn,
    /// A whole frame with its payload from `start` up to `end`.
    Whole { start: usize, end: usize },
}

/// What stands at a position of a sequence of frames.
pub open spec fn frame_at(bytes: Seq<u8>, at: int) -> FrameAt {
    if bytes.len() <= at {
        FrameAt::End
    } else if bytes.len() - at < 4 {
        FrameAt::Torn
    } else {
        let len = be_value(bytes.subrange(at, at + 4));
        if bytes.len() - at - 4 < len {
            FrameAt::Torn
        } else {
            FrameAt::Whole { start: (at + 4) as usize, end: (at + 4 + len) as usize }
        }
    }
}

/// Where a frame that starts at a position ends.
pub open spec fn frame_end(bytes: Seq<u8>, at: int) -> int {
    at + 4 + be_value(bytes.subrange(at, at + 4))
}

/// Reads what stands at a position of a sequence of frames.
pub fn read_frame_at(bytes: &[u8], at: usize) -> (frame: FrameAt)
    requires
        at <= bytes@.len(),
    ensures
        frame == frame_at(bytes@, at as int),
        frame matches FrameAt::Whole { start, end } ==> at + 4 == start <= end <= bytes@.len()
            && end == frame_end(bytes@, at as int),
{
    let room: usize = bytes.len() - at;
    if room == 0 {
        FrameAt::End
    } else if room < 4 {
        FrameAt::Torn
    } else {
        let len: u64 = be_number(bytes, at, 4);
        if (room - 4) as u64 >= len {
            FrameAt::Whole { start: at + 4, end: at + 4 + len as usize }
        } else {
            FrameAt::Torn
        }
    }
}

/// A frame is read back from where it was written.
pub proof fn frame_is_read_back(before: Seq<u8>, payload: Seq<u8>, after: Seq<u8>)
    requires
        payload.len() <= u32::MAX,
        (before + framed(payload) + after).len() <= usize::MAX,
    ensures
        ({
            let bytes = before + framed(payload) + after;
            &&& frame_at(bytes, before.len() as int) == (FrameAt::Whole {
                start: (before.len() + 4) as usize,
                end: (before.len() + 4 + payload.len()) as usize,
            })
            &&& frame_end(bytes, before.len() as int) == before.len() + 4 + payload.len()
            &&& bytes.subrange(before.len() as int + 4, before.len() as int + 4 + payload.len())
                == payload
        }),
{
    let bytes = before + framed(payload) + after;
    let at = before.len() as int;
    radix_powers();
    be_round_trip(payload.len(), 4);
    assert(bytes.subrange(at, at + 4) =~= be_bytes(payload.len(), 4));
    assert(bytes.subrange(at + 4, at + 4 + payload.len()) =~= payload);
}

/// The beginning of a frame, cut short, is torn.
pub proof fn cut_frame_is_torn(before: Seq<u8>, payload: Seq<u8>, left: int)
    requires
        payload.len() <= u32::MAX,
        0 < left < framed(payload).len(),
        before.len() + left <= usize::MAX,
    ensures
        frame_at(before + framed(payload).take(left), before.len() as int) is Torn,
{
    let cut = framed(payload).take(left);
    let bytes = before + cut;
    let at = before.len() as int;
    radix_powers();
    be_round_trip(payload.len(), 4);
    if left >= 4 {
        assert(bytes.subrange(at, at + 4) =~= be_bytes(payload.len(), 4));
    }
}

} // verus!
