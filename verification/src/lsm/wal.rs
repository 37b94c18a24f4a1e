//! The write-ahead log.
use crate::bytes::{read_frame_at, FrameAt};
use crate::lsm::codec::decode_wal_frame;
use crate::lsm::record::{LsmError, WalFrame, WalFrameView};
use vstd::prelude::*;

verus! {

/// What a write-ahead log holds. Where its last frame is torn, the log is good
/// up to `torn_at` only and is to be cut there.
#[derive(Debug)]
pub struct WalReading {
    pub frames: Vec<WalFrame>,
    pub torn_at: Option<usize>,
}

/// The outcome of reading a write-ahead log from a position on: its frames and,
/// if the last is torn, where it starts.
pub open spec fn wal_from(bytes: Seq<u8>, at: int) -> Result<
    (Seq<WalFrameView>, Option<int>),
    LsmError,
>
    decreases bytes.len() - at,
{
    match crate::bytes::frame_at(bytes, at) {
        FrameAt::End => Ok((Seq::empty(), None)),
        FrameAt::Torn => Ok((Seq::empty(), Some(at))),
        FrameAt::Whole { start, end } => match crate::lsm::codec::wal_meaning(
            bytes.subrange(start as int, end as int),
        ) {
            Some(frame) => match wal_from(bytes, crate::bytes::frame_end(bytes, at)) {
                Ok((rest, torn)) => Ok((seq![frame] + rest, torn)),
                Err(error) => Err(error),
            },
            None => Err(LsmError::CorruptFrame),
        },
    }
}

/// The outcome of reading a write-ahead log.
pub open spec fn wal_in(bytes: Seq<u8>) -> Result<(Seq<WalFrameView>, Option<int>), LsmError> {
    wal_from(bytes, 0)
}

/// Reads a write-ahead log up to its end or to a torn frame.
pub fn read_wal_frames(bytes: &[u8]) -> (reading: Result<WalReading, LsmError>)
    ensures
        wal_in(bytes@) == match reading {
            Ok(reading) => Ok(
                (
                    reading.frames.deep_view(),
                    match reading.torn_at {
                        Some(at) => Some(at as int),
                        None => None,
                    },
                ),
            ),
            Err(error) => Err(error),
        },
        reading matches Ok(reading) ==> (reading.torn_at matches Some(at) ==> at <= bytes@.len()),
{
    let mut frames: Vec<WalFrame> = Vec::new();
    let mut at: usize = 0;
    assert(frames.deep_view() =~= Seq::empty());
    proof {
        match wal_in(bytes@) {
            Ok((rest, _)) => {
                assert(frames.deep_view() + rest =~= rest);
            },
            Err(_) => {},
        }
    }
    loop
        invariant
            at <= bytes@.len(),
            wal_in(bytes@) == match wal_from(bytes@, at as int) {
                Ok((rest, torn)) => Ok((frames.deep_view() + rest, torn)),
                Err(error) => Err(error),
            },
        decreases bytes@.len() - at,
    {
        let ghost before = frames.deep_view();
        match read_frame_at(bytes, at) {
            FrameAt::End => {
                assert(before + Seq::<WalFrameView>::empty() =~= before);
                return Ok(WalReading { frames, torn_at: None });
            },
            FrameAt::Torn => {
                assert(before + Seq::<WalFrameView>::empty() =~= before);
                return Ok(WalReading { frames, torn_at: Some(at) });
            },
            FrameAt::Whole { start, end } => {
                match decode_wal_frame(vstd::slice::slice_subrange(bytes, start, end)) {
                    Some(frame) => {
                        frames.push(frame);
                        proof {
                            assert(frames.deep_view() =~= before.push(frame@));
                            match wal_from(bytes@, end as int) {
                                Ok((rest, _)) => {
                                    assert(before + (seq![frame@] + rest) =~= frames.deep_view()
                                        + rest);
                                },
                                Err(_) => {},
                            }
                        }
                        at = end;
                    },
                    None => {
                        return Err(LsmError::CorruptFrame);
                    },
                }
            },
        }
    }
}

/// The frames of a write-ahead log, one behind the other.
pub open spec fn wal_of(frames: Seq<WalFrameView>) -> Seq<u8>
    decreases frames.len(),
{
    if frames.len() == 0 {
        Seq::empty()
    } else {
        wal_of(frames.drop_last()) + crate::bytes::framed(
            crate::lsm::codec::code_of_frame(frames.last()),
        )
    }
}

/// Every frame can be stored and read back.
pub open spec fn storable(frames: Seq<WalFrameView>) -> bool {
    forall|i: int|
        0 <= i < frames.len() ==> crate::lsm::codec::frame_is_storable(#[trigger] frames[i])
}

proof fn wal_of_prefix(frames: Seq<WalFrameView>, i: int)
    requires
        0 <= i < frames.len(),
    ensures
        wal_of(frames.take(i + 1)) == wal_of(frames.take(i)) + crate::bytes::framed(
            crate::lsm::codec::code_of_frame(frames[i]),
        ),
{
    assert(frames.take(i + 1).drop_last() =~= frames.take(i));
}

proof fn wal_starts_with(frames: Seq<WalFrameView>, i: int)
    requires
        0 <= i <= frames.len(),
    ensures
        wal_of(frames.take(i)).len() <= wal_of(frames).len(),
        wal_of(frames).take(wal_of(frames.take(i)).len() as int) == wal_of(frames.take(i)),
    decreases frames.len() - i,
{
    if i == frames.len() {
        assert(frames.take(i) =~= frames);
        assert(wal_of(frames).take(wal_of(frames).len() as int) =~= wal_of(frames));
    } else {
        wal_starts_with(frames, i + 1);
        wal_of_prefix(frames, i);
        let head = wal_of(frames.take(i));
        let next = wal_of(frames.take(i + 1));
        assert(wal_of(frames).take(head.len() as int) =~= next.take(head.len() as int));
        assert(next.take(head.len() as int) =~= head);
    }
}

/// Reading on from the place of a frame gives that frame and all after it, and
/// then whatever the tail gives.
proof fn rest_is_read_back(frames: Seq<WalFrameView>, tail: Seq<u8>, i: int)
    requires
        storable(frames),
        0 <= i <= frames.len(),
        (wal_of(frames) + tail).len() <= usize::MAX,
        wal_from(wal_of(frames) + tail, wal_of(frames).len() as int) matches Ok((none, _))
            && none.len() == 0,
    ensures
        wal_from(wal_of(frames) + tail, wal_of(frames.take(i)).len() as int) == Ok::<
            (Seq<WalFrameView>, Option<int>),
            LsmError,
        >(
            (
                frames.skip(i),
                wal_from(wal_of(frames) + tail, wal_of(frames).len() as int)->Ok_0.1,
            ),
        ),
    decreases frames.len() - i,
{
    let bytes = wal_of(frames) + tail;
    if i == frames.len() {
        assert(frames.take(i) =~= frames);
        assert(frames.skip(i) =~= Seq::empty());
        assert(wal_from(bytes, wal_of(frames).len() as int)->Ok_0.0 =~= Seq::empty());
    } else {
        let head = wal_of(frames.take(i));
        let next = wal_of(frames.take(i + 1));
        let payload = crate::lsm::codec::code_of_frame(frames[i]);
        wal_of_prefix(frames, i);
        wal_starts_with(frames, i + 1);
        rest_is_read_back(frames, tail, i + 1);
        assert(crate::lsm::codec::frame_is_storable(frames[i]));
        let after = bytes.skip(next.len() as int);
        crate::bytes::radix_powers();
        crate::bytes::be_round_trip(payload.len(), 4);
        assert(bytes.take(next.len() as int) =~= wal_of(frames).take(next.len() as int));
        assert(bytes =~= head + crate::bytes::framed(payload) + after);
        crate::bytes::frame_is_read_back(head, payload, after);
        assert(seq![frames[i]] + frames.skip(i + 1) =~= frames.skip(i));
    }
}

/// What was appended to a write-ahead log is read back in order.
pub proof fn frames_are_read_back(frames: Seq<WalFrameView>)
    requires
        storable(frames),
        wal_of(frames).len() <= usize::MAX,
    ensures
        wal_in(wal_of(frames)) == Ok::<(Seq<WalFrameView>, Option<int>), LsmError>((frames, None)),
{
    let tail = Seq::<u8>::empty();
    assert(wal_of(frames) + tail =~= wal_of(frames));
    assert(frames.take(0) =~= Seq::empty());
    rest_is_read_back(frames, tail, 0);
    assert(frames.skip(0) =~= frames);
}

/// A last frame that was cut short is ignored, and the log is to be cut where it
/// starts.
pub proof fn torn_tail_is_ignored(frames: Seq<WalFrameView>, last: WalFrameView, left: int)
    requires
        storable(frames),
        crate::lsm::codec::frame_is_storable(last),
        0 < left < crate::bytes::framed(crate::lsm::codec::code_of_frame(last)).len(),
        wal_of(frames).len() + left <= usize::MAX,
    ensures
        wal_in(
            wal_of(frames) + crate::bytes::framed(crate::lsm::codec::code_of_frame(last)).take(left),
        ) == Ok::<(Seq<WalFrameView>, Option<int>), LsmError>(
            (frames, Some(wal_of(frames).len() as int)),
        ),
{
    let payload = crate::lsm::codec::code_of_frame(last);
    let tail = crate::bytes::framed(payload).take(left);
    crate::bytes::cut_frame_is_torn(wal_of(frames), payload, left);
    assert(frames.take(0) =~= Seq::empty());
    rest_is_read_back(frames, tail, 0);
    assert(frames.skip(0) =~= frames);
}

/// Appending a frame to a log adds it to what is read back.
pub proof fn append_extends(frames: Seq<WalFrameView>, frame: WalFrameView)
    ensures
        wal_of(frames.push(frame)) == wal_of(frames) + crate::bytes::framed(
            crate::lsm::codec::code_of_frame(frame),
        ),
{
    assert(frames.push(frame).drop_last() =~= frames);
}

} // verus!
