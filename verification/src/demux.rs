//! From datagrams to records. A datagram carries one or more records back to
//! back; each announces its own length. The functions here cut a datagram
//! into frames, decode the quote records among them, and watch the sequence
//! numbers of what was decoded.
use crate::error::DecodeError;
use crate::f6::{bytes2f6, bytes2fcode, bytes2mlen, fcode_of, mlen_of, record_of, F6View, F6};
use crate::sequence::{due_after_all, gaps_in, sequence_numbers, SequenceGap, SequenceTracker};
use vstd::prelude::*;

verus! {

/// The function code of a quote record. Frames with another code are passed
/// over.
pub const QUOTE_FCODE: u64 = 6;

/// The length of the frame that `data` starts with: the length it announces,
/// where the four bytes that hold it are there, the announced length covers
/// them, and `data` holds that many bytes. Otherwise the frame is malformed.
pub open spec fn frame_len(data: Seq<u8>) -> Option<nat> {
    if data.len() < 4 {
        None
    } else if mlen_of(data) < 4 || mlen_of(data) > data.len() {
        None
    } else {
        Some(mlen_of(data))
    }
}

/// What one whole frame holds: a quote record, or nothing where its function
/// code is not that of a quote (or the frame is too short to carry one). A
/// quote frame that does not decode gives the decoder's error.
pub open spec fn frame_record(frame: Seq<u8>) -> Result<Option<F6View>, DecodeError> {
    if frame.len() < 5 || fcode_of(frame) != 6 {
        Ok(None)
    } else {
        match record_of(frame) {
            Ok(record) => Ok(Some(record)),
            Err(e) => Err(e),
        }
    }
}

/// What a datagram holds.
pub struct DatagramView {
    /// The quote records, in the order of their frames.
    pub records: Seq<F6View>,
    /// How many quote frames were dropped for a symbol that is no text.
    pub dropped: nat,
    /// Whether a malformed frame was met; everything from it on is lost.
    pub malformed: bool,
}

/// A datagram with nothing in it.
pub open spec fn empty_datagram() -> DatagramView {
    DatagramView { records: Seq::empty(), dropped: 0, malformed: false }
}

/// Reads a datagram frame by frame from its first byte to its last. A frame
/// with a symbol that is no text is dropped and the next one is read; a
/// malformed frame ends the reading.
pub open spec fn datagram_view(data: Seq<u8>) -> DatagramView
    decreases data.len(),
{
    if data.len() == 0 {
        empty_datagram()
    } else {
        match frame_len(data) {
            None => DatagramView { records: Seq::empty(), dropped: 0, malformed: true },
            Some(len) => {
                let rest = datagram_view(data.skip(len as int));
                match frame_record(data.take(len as int)) {
                    Err(DecodeError::MalformedFrame) => DatagramView {
                        records: Seq::empty(),
                        dropped: 0,
                        malformed: true,
                    },
                    Err(DecodeError::InvalidSymbolEncoding) => DatagramView {
                        records: rest.records,
                        dropped: rest.dropped + 1,
                        malformed: rest.malformed,
                    },
                    Ok(None) => rest,
                    Ok(Some(record)) => DatagramView {
                        records: seq![record] + rest.records,
                        dropped: rest.dropped,
                        malformed: rest.malformed,
                    },
                }
            },
        }
    }
}

/// The records of a vector as mathematics, in order.
pub open spec fn record_views(records: Seq<F6>) -> Seq<F6View> {
    Seq::new(records.len(), |i: int| records[i]@)
}

/// Reads the length of the frame that `data` starts with.
pub fn probe_frame(data: &[u8]) -> (r: Result<usize, DecodeError>)
    ensures
        match r {
            Ok(len) => frame_len(data@) == Some(len as nat),
            Err(e) => e == DecodeError::MalformedFrame && frame_len(data@) is None,
        },
{
    if data.len() < 4 {
        return Err(DecodeError::MalformedFrame);
    }
    let len = bytes2mlen(data);
    if len < 4 || len > data.len() {
        Err(DecodeError::MalformedFrame)
    } else {
        Ok(len)
    }
}

/// Decodes one whole frame: `Ok(None)` where it is no quote record.
pub fn decode_frame(frame: &[u8]) -> (r: Result<Option<F6>, DecodeError>)
    ensures
        match r {
            Ok(Some(record)) => frame_record(frame@) == Ok::<Option<F6View>, DecodeError>(
                Some(record@),
            ),
            Ok(None) => frame_record(frame@) == Ok::<Option<F6View>, DecodeError>(None),
            Err(e) => frame_record(frame@) == Err::<Option<F6View>, DecodeError>(e),
        },
{
    if frame.len() < 5 || bytes2fcode(frame) != QUOTE_FCODE {
        return Ok(None);
    }
    match bytes2f6(frame) {
        Ok(record) => Ok(Some(record)),
        Err(e) => Err(e),
    }
}

/// What was read from one datagram.
#[derive(Debug, PartialEq, Eq)]
pub struct Demuxed {
    /// The quote records, in the order of their frames.
    pub records: Vec<F6>,
    /// How many quote frames were dropped for a symbol that is no text.
    pub dropped: usize,
    /// Whether a malformed frame ended the reading early.
    pub malformed: bool,
}

/// Cuts a datagram into frames and decodes the quote records among them.
pub fn split_datagram(data: &[u8]) -> (out: Demuxed)
    ensures
        record_views(out.records@) == datagram_view(data@).records,
        out.dropped == datagram_view(data@).dropped,
        out.malformed == datagram_view(data@).malformed,
{
    let mut records: Vec<F6> = Vec::new();
    let mut dropped: usize = 0;
    let mut malformed = false;
    let mut cursor: usize = 0;
    assert(data@.skip(0) =~= data@);
    assert(record_views(records@) =~= Seq::<F6View>::empty());
    while cursor < data.len()
        invariant
            cursor <= data.len(),
            dropped <= cursor,
            datagram_view(data@).records == record_views(records@) + datagram_view(
                data@.skip(cursor as int),
            ).records,
            datagram_view(data@).dropped == dropped + datagram_view(
                data@.skip(cursor as int),
            ).dropped,
            datagram_view(data@).malformed == (malformed || datagram_view(
                data@.skip(cursor as int),
            ).malformed),
        decreases data.len() - cursor,
    {
        let rest = vstd::slice::slice_subrange(data, cursor, data.len());
        assert(rest@ =~= data@.skip(cursor as int));
        let ghost here = datagram_view(rest@);
        let mut next: usize = data.len();
        match probe_frame(rest) {
            Err(_) => {
                malformed = true;
            },
            Ok(len) => {
                let frame = vstd::slice::slice_subrange(rest, 0, len);
                assert(frame@ =~= rest@.take(len as int));
                assert(rest@.skip(len as int) =~= data@.skip(cursor + len));
                let ghost after = datagram_view(rest@.skip(len as int));
                match decode_frame(frame) {
                    Ok(Some(record)) => {
                        let ghost before = record_views(records@);
                        records.push(record);
                        next = cursor + len;
                        proof {
                            assert(record_views(records@) =~= before + seq![record@]);
                            assert(here.records == seq![record@] + after.records);
                            assert(before + (seq![record@] + after.records) =~= (before
                                + seq![record@]) + after.records);
                        }
                    },
                    Ok(None) => {
                        next = cursor + len;
                    },
                    Err(DecodeError::InvalidSymbolEncoding) => {
                        dropped += 1;
                        next = cursor + len;
                    },
                    Err(DecodeError::MalformedFrame) => {
                        malformed = true;
                    },
                }
            },
        }
        proof {
            if next == data.len() {
                assert(data@.skip(next as int) =~= Seq::<u8>::empty());
            }
        }
        cursor = next;
    }
    proof {
        assert(data@.skip(cursor as int) =~= Seq::<u8>::empty());
        assert(record_views(records@) + Seq::<F6View>::empty() =~= record_views(records@));
    }
    Demuxed { records, dropped, malformed }
}

/// A datagram that starts with a whole frame reads as that frame, then the
/// reading of what follows it.
pub proof fn lemma_datagram_starts_with_frame(frame: Seq<u8>, rest: Seq<u8>)
    requires
        frame_len(frame) == Some(frame.len()),
    ensures
        frame_len(frame + rest) == Some(frame.len()),
        datagram_view(frame + rest) == match frame_record(frame) {
            Err(DecodeError::MalformedFrame) => DatagramView {
                records: Seq::empty(),
                dropped: 0,
                malformed: true,
            },
            Err(DecodeError::InvalidSymbolEncoding) => DatagramView {
                records: datagram_view(rest).records,
                dropped: datagram_view(rest).dropped + 1,
                malformed: datagram_view(rest).malformed,
            },
            Ok(None) => datagram_view(rest),
            Ok(Some(record)) => DatagramView {
                records: seq![record] + datagram_view(rest).records,
                dropped: datagram_view(rest).dropped,
                malformed: datagram_view(rest).malformed,
            },
        },
{
    let whole = frame + rest;
    assert(whole.subrange(1, 3) =~= frame.subrange(1, 3));
    assert(whole.take(frame.len() as int) =~= frame);
    assert(whole.skip(frame.len() as int) =~= rest);
}

/// A datagram made of two whole quote records, one behind the other, reads
/// as those two records, each as it decodes on its own, with nothing dropped
/// and nothing malformed.
pub proof fn lemma_two_records_split(first: Seq<u8>, second: Seq<u8>)
    requires
        frame_len(first) == Some(first.len()),
        frame_len(second) == Some(second.len()),
        first.len() >= 5 && fcode_of(first) == 6 && record_of(first) is Ok,
        second.len() >= 5 && fcode_of(second) == 6 && record_of(second) is Ok,
    ensures
        datagram_view(first + second) == (DatagramView {
            records: seq![record_of(first)->Ok_0, record_of(second)->Ok_0],
            dropped: 0,
            malformed: false,
        }),
{
    lemma_datagram_starts_with_frame(first, second);
    lemma_datagram_starts_with_frame(second, Seq::empty());
    assert(second + Seq::<u8>::empty() =~= second);
    assert(datagram_view(Seq::<u8>::empty()) == empty_datagram());
    assert(datagram_view(first + second).records =~= seq![
        record_of(first)->Ok_0,
        record_of(second)->Ok_0,
    ]);
}

/// Whether two addresses are the same, octet by octet.
fn same_address(left: &[u8; 4], right: &[u8; 4]) -> (same: bool)
    ensures
        same == (left@ == right@),
{
    let same = left[0] == right[0] && left[1] == right[1] && left[2] == right[2] && left[3]
        == right[3];
    proof {
        if same {
            assert(left@ =~= right@);
        }
    }
    same
}

/// Whether an address is among the admitted ones.
pub open spec fn on_list(sender: Seq<u8>, admitted: Seq<[u8; 4]>) -> bool {
    exists|i: int| 0 <= i < admitted.len() && #[trigger] admitted[i]@ == sender
}

/// Whether a datagram's sender is on the list of admitted senders.
pub fn sender_admitted(sender: [u8; 4], admitted: &[[u8; 4]]) -> (found: bool)
    ensures
        found == on_list(sender@, admitted@),
{
    let mut i: usize = 0;
    while i < admitted.len()
        invariant
            i <= admitted.len(),
            forall|j: int| 0 <= j < i ==> admitted@[j]@ != sender@,
        decreases admitted.len() - i,
    {
        if same_address(&admitted[i], &sender) {
            return true;
        }
        i += 1;
    }
    false
}

/// What one admitted datagram brought.
#[derive(Debug, PartialEq, Eq)]
pub struct Delivery {
    /// The quote records, in the order of their frames: what goes on to the
    /// consumers.
    pub records: Vec<F6>,
    /// The breaks in the sequence that those records showed, in order.
    pub gaps: Vec<SequenceGap>,
    /// How many quote frames were dropped for a symbol that is no text.
    pub dropped: usize,
    /// Whether a malformed frame ended the reading early.
    pub malformed: bool,
}

/// The receiving end of one feed: the senders it listens to, and the
/// sequence number it waits for.
#[derive(Debug, PartialEq, Eq, Clone)]
pub struct Demultiplexer {
    pub admitted: Vec<[u8; 4]>,
    pub tracker: SequenceTracker,
}

impl Demultiplexer {
    /// A demultiplexer that listens to the given senders and has seen no
    /// record yet.
    pub fn new(admitted: Vec<[u8; 4]>) -> (demux: Demultiplexer)
        ensures
            demux.admitted == admitted,
            demux.tracker.expected is None,
    {
        Demultiplexer { admitted, tracker: SequenceTracker::new() }
    }

    /// Takes one datagram. From a sender that is not admitted it is ignored:
    /// nothing is returned and nothing changes. Otherwise it is cut into
    /// records, and the records' sequence numbers are held against the number
    /// that was due.
    pub fn receive(&mut self, sender: [u8; 4], datagram: &[u8]) -> (delivery: Option<Delivery>)
        ensures
            final(self).admitted == old(self).admitted,
            !on_list(sender@, old(self).admitted@) ==> delivery is None && final(self).tracker
                == old(self).tracker,
            on_list(sender@, old(self).admitted@) ==> delivery is Some && ({
                let got = delivery->Some_0;
                let numbers = sequence_numbers(got.records@);
                &&& record_views(got.records@) == datagram_view(datagram@).records
                &&& got.dropped == datagram_view(datagram@).dropped
                &&& got.malformed == datagram_view(datagram@).malformed
                &&& got.gaps@ == gaps_in(old(self).tracker.expected, numbers)
                &&& final(self).tracker.expected == due_after_all(
                    old(self).tracker.expected,
                    numbers,
                )
            }),
    {
        if !sender_admitted(sender, self.admitted.as_slice()) {
            return None;
        }
        let Demuxed { records, dropped, malformed } = split_datagram(datagram);
        let gaps = self.tracker.observe_records(records.as_slice());
        Some(Delivery { records, gaps, dropped, malformed })
    }
}

} // verus!
