//! The two fixed overlays that open every record: the ten-byte message head
//! and the fifteen-byte real-time base that follows it.
use crate::bcd::{bcd2num, bcd_number, bcd_value, bcdarr2num, lemma_bcd_number_bound, lemma_pow100_values, TwExMdTimeu6};
use crate::error::DecodeError;
use crate::text::{bytes2text, text_of};
use vstd::prelude::*;

verus! {

/// Whether the item mask announces a tick (bit 7).
pub open spec fn mask_n_match(item_mask: u8) -> nat {
    (item_mask / 128) as nat
}

/// The number of bid levels that the item mask announces (bits 6 to 4).
pub open spec fn mask_n_bid(item_mask: u8) -> nat {
    (item_mask / 16 % 8) as nat
}

/// The number of ask levels that the item mask announces (bits 3 to 1).
pub open spec fn mask_n_ask(item_mask: u8) -> nat {
    (item_mask / 2 % 8) as nat
}

/// The momentary price trend in the limit mask (bits 1 and 0).
pub open spec fn mask_trice(lmt_mask: u8) -> nat {
    (lmt_mask % 4) as nat
}

/// Whether bit `bit` of a mask is set, bit 0 being the lowest.
pub open spec fn mask_bit(mask: u8, bit: nat) -> bool
    recommends
        bit < 8,
{
    if bit == 0 {
        mask % 2 == 1
    } else if bit == 1 {
        mask / 2 % 2 == 1
    } else if bit == 2 {
        mask / 4 % 2 == 1
    } else if bit == 3 {
        mask / 8 % 2 == 1
    } else if bit == 4 {
        mask / 16 % 2 == 1
    } else if bit == 5 {
        mask / 32 % 2 == 1
    } else if bit == 6 {
        mask / 64 % 2 == 1
    } else {
        mask / 128 % 2 == 1
    }
}

/// Number of ticks in a record, from its item mask.
pub fn item_n_match(item_mask: u8) -> (n: u8)
    ensures
        n == mask_n_match(item_mask),
        n <= 1,
{
    assert((item_mask & 0x80) >> 7 == item_mask / 128) by (bit_vector);
    (item_mask & 0x80) >> 7
}

/// Number of bid levels in a record, from its item mask.
pub fn item_n_bid(item_mask: u8) -> (n: u8)
    ensures
        n == mask_n_bid(item_mask),
        n <= 7,
{
    assert((item_mask & 0x70) >> 4 == item_mask / 16 % 8) by (bit_vector);
    (item_mask & 0x70) >> 4
}

/// Number of ask levels in a record, from its item mask.
pub fn item_n_ask(item_mask: u8) -> (n: u8)
    ensures
        n == mask_n_ask(item_mask),
        n <= 7,
{
    assert((item_mask & 0x0e) >> 1 == item_mask / 2 % 8) by (bit_vector);
    (item_mask & 0x0e) >> 1
}

/// The start of every message: escape code, length, market, function code,
/// format version and sequence number, all but the first packed decimal.
#[derive(Debug, PartialEq, Eq, Clone, Copy)]
pub struct TWExMdHead {
    pub esc_code: u8,
    pub len: [u8; 2],
    pub market: u8,
    pub fcode: u8,
    pub fver: u8,
    pub seqno: [u8; 4],
}

impl TWExMdHead {
    /// The ten bytes that the head occupies on the wire.
    pub open spec fn wire(&self) -> Seq<u8> {
        seq![self.esc_code] + self.len@ + seq![self.market, self.fcode, self.fver] + self.seqno@
    }

    /// Reads the head off the front of `bytes` and returns it with the bytes
    /// that follow; fails where fewer than ten bytes are there.
    pub fn from_bytes(bytes: &[u8]) -> (r: Result<(TWExMdHead, &[u8]), DecodeError>)
        ensures
            bytes@.len() < 10 ==> r == Err::<(TWExMdHead, &[u8]), DecodeError>(
                DecodeError::MalformedFrame,
            ),
            bytes@.len() >= 10 ==> r is Ok && r->Ok_0.0.wire() == bytes@.take(10) && r->Ok_0.1@
                == bytes@.skip(10),
    {
        if bytes.len() < 10 {
            return Err(DecodeError::MalformedFrame);
        }
        let head = TWExMdHead {
            esc_code: bytes[0],
            len: [bytes[1], bytes[2]],
            market: bytes[3],
            fcode: bytes[4],
            fver: bytes[5],
            seqno: [bytes[6], bytes[7], bytes[8], bytes[9]],
        };
        let rest = vstd::slice::slice_subrange(bytes, 10, bytes.len());
        assert(head.wire() =~= bytes@.take(10));
        Ok((head, rest))
    }

    /// The length of the whole message in bytes, head included.
    pub fn len(&self) -> (len: u64)
        ensures
            len == bcd_number(self.len@),
            len <= 9999,
    {
        proof {
            lemma_bcd_number_bound(self.len@);
            lemma_pow100_values();
        }
        bcdarr2num(self.len.as_slice())
    }

    /// The market that the message comes from.
    pub fn market(&self) -> (market: u8)
        ensures
            market == bcd_value(self.market),
    {
        bcd2num(self.market) as u8
    }

    /// The function code: which format the message has.
    pub fn fcode(&self) -> (fcode: u8)
        ensures
            fcode == bcd_value(self.fcode),
    {
        bcd2num(self.fcode) as u8
    }

    /// The version of the format.
    pub fn fver(&self) -> (fver: u8)
        ensures
            fver == bcd_value(self.fver),
    {
        bcd2num(self.fver) as u8
    }

    /// The sequence number of the message within its feed.
    pub fn seqno(&self) -> (seqno: u64)
        ensures
            seqno == bcd_number(self.seqno@),
            seqno <= 99_999_999,
    {
        proof {
            lemma_bcd_number_bound(self.seqno@);
            lemma_pow100_values();
        }
        bcdarr2num(self.seqno.as_slice())
    }
}

/// What follows the head in a real-time record: symbol, time and the three
/// masks.
#[derive(Debug, PartialEq, Eq, Clone, Copy)]
pub struct TwExMdRtBase {
    pub symbol: [u8; 6],
    pub time: TwExMdTimeu6,
    pub item_mask: u8,
    pub lmt_mask: u8,
    pub status_mask: u8,
}

impl TwExMdRtBase {
    /// The fifteen bytes that the base occupies on the wire.
    pub open spec fn wire(&self) -> Seq<u8> {
        self.symbol@ + self.time.time@ + seq![self.item_mask, self.lmt_mask, self.status_mask]
    }

    /// Reads the base off the front of `bytes` and returns it with the bytes
    /// that follow; fails where fewer than fifteen bytes are there.
    pub fn from_bytes(bytes: &[u8]) -> (r: Result<(TwExMdRtBase, &[u8]), DecodeError>)
        ensures
            bytes@.len() < 15 ==> r == Err::<(TwExMdRtBase, &[u8]), DecodeError>(
                DecodeError::MalformedFrame,
            ),
            bytes@.len() >= 15 ==> r is Ok && r->Ok_0.0.wire() == bytes@.take(15) && r->Ok_0.1@
                == bytes@.skip(15),
    {
        if bytes.len() < 15 {
            return Err(DecodeError::MalformedFrame);
        }
        let base = TwExMdRtBase {
            symbol: [bytes[0], bytes[1], bytes[2], bytes[3], bytes[4], bytes[5]],
            time: TwExMdTimeu6::new([bytes[6], bytes[7], bytes[8], bytes[9], bytes[10], bytes[11]]),
            item_mask: bytes[12],
            lmt_mask: bytes[13],
            status_mask: bytes[14],
        };
        let rest = vstd::slice::slice_subrange(bytes, 15, bytes.len());
        assert(base.wire() =~= bytes@.take(15));
        Ok((base, rest))
    }

    /// The symbol as text; fails where the six bytes are not valid UTF-8.
    pub fn symbol(&self) -> (symbol: Result<&str, DecodeError>)
        ensures
            match symbol {
                Ok(s) => text_of(self.symbol@) == Ok::<Seq<char>, DecodeError>(s@),
                Err(e) => text_of(self.symbol@) == Err::<Seq<char>, DecodeError>(e),
            },
    {
        bytes2text(self.symbol.as_slice())
    }

    /// Whether this record closes the day's dealing: its hour byte is 0x99.
    pub fn is_last_deal(&self) -> (last: bool)
        ensures
            last == (self.time.time@[0] == 0x99),
    {
        self.time.hraw() == 0x99
    }

    /// Number of ticks that follow: bit 7 of the item mask.
    pub fn n_match(&self) -> (n: u8)
        ensures
            n == mask_n_match(self.item_mask),
            n <= 1,
    {
        item_n_match(self.item_mask)
    }

    /// Number of bid levels that follow: bits 6 to 4 of the item mask.
    pub fn n_bid(&self) -> (n: u8)
        ensures
            n == mask_n_bid(self.item_mask),
            n <= 7,
    {
        item_n_bid(self.item_mask)
    }

    /// Number of ask levels that follow: bits 3 to 1 of the item mask.
    pub fn n_ask(&self) -> (n: u8)
        ensures
            n == mask_n_ask(self.item_mask),
            n <= 7,
    {
        item_n_ask(self.item_mask)
    }

    /// The momentary price trend: bits 1 and 0 of the limit mask.
    pub fn trice(&self) -> (trice: u8)
        ensures
            trice == mask_trice(self.lmt_mask),
            trice <= 3,
    {
        let m = self.lmt_mask;
        assert(m & 0x03 == m % 4) by (bit_vector);
        m & 0x03
    }

    /// Whether the quote is a trial calculation: bit 7 of the status mask.
    pub fn simulation(&self) -> (flag: bool)
        ensures
            flag == mask_bit(self.status_mask, 7),
    {
        let m = self.status_mask;
        assert(((m & 0x80) != 0) == (m / 128 % 2 == 1)) by (bit_vector);
        (m & 0x80) != 0
    }

    /// Whether the opening is put off: bit 6 of the status mask.
    pub fn delay_open(&self) -> (flag: bool)
        ensures
            flag == mask_bit(self.status_mask, 6),
    {
        let m = self.status_mask;
        assert(((m & 0x40) != 0) == (m / 64 % 2 == 1)) by (bit_vector);
        (m & 0x40) != 0
    }

    /// Whether the closing is put off: bit 5 of the status mask.
    pub fn delay_close(&self) -> (flag: bool)
        ensures
            flag == mask_bit(self.status_mask, 5),
    {
        let m = self.status_mask;
        assert(((m & 0x20) != 0) == (m / 32 % 2 == 1)) by (bit_vector);
        (m & 0x20) != 0
    }

    /// The matching mode, continuous if set: bit 4 of the status mask.
    pub fn auction(&self) -> (flag: bool)
        ensures
            flag == mask_bit(self.status_mask, 4),
    {
        let m = self.status_mask;
        assert(((m & 0x10) != 0) == (m / 16 % 2 == 1)) by (bit_vector);
        (m & 0x10) != 0
    }

    /// Whether this is the opening quote: bit 3 of the status mask.
    pub fn is_open(&self) -> (flag: bool)
        ensures
            flag == mask_bit(self.status_mask, 3),
    {
        let m = self.status_mask;
        assert(((m & 0x08) != 0) == (m / 8 % 2 == 1)) by (bit_vector);
        (m & 0x08) != 0
    }

    /// Whether this is the closing quote: bit 2 of the status mask.
    pub fn is_close(&self) -> (flag: bool)
        ensures
            flag == mask_bit(self.status_mask, 2),
    {
        let m = self.status_mask;
        assert(((m & 0x04) != 0) == (m / 4 % 2 == 1)) by (bit_vector);
        (m & 0x04) != 0
    }
}

} // verus!
