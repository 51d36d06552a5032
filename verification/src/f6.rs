//! The format-six record: a fixed 29-byte preamble, then one nine-byte group
//! for the tick (where there is one), for each bid level and for each ask
//! level, in that order and without padding.
use crate::bcd::{
    bcd2num, bcd2price, bcd2time, bcd2volume, bcd_number, bcd_value, bcdarr2num,
    lemma_bcd_number_bound, lemma_pow100_values, time_text,
};
use crate::error::DecodeError;
use crate::head::{
    item_n_ask, item_n_bid, item_n_match, mask_bit, mask_n_ask, mask_n_bid, mask_n_match,
    mask_trice, TWExMdHead, TwExMdRtBase,
};
use crate::text::{bytes2text, text_of};
use vstd::prelude::*;

verus! {

/// One price level as a number pair: the price in ten-thousandths, and the
/// volume.
pub struct PriceLevel {
    pub price: nat,
    pub volume: nat,
}

/// The level that stands for "nothing here".
pub open spec fn empty_level() -> PriceLevel {
    PriceLevel { price: 0, volume: 0 }
}

/// The `k`-th nine-byte group of a body: five bytes of price, four of volume.
pub open spec fn level_of(body: Seq<u8>, k: int) -> PriceLevel {
    PriceLevel {
        price: bcd_number(body.subrange(9 * k, 9 * k + 5)),
        volume: bcd_number(body.subrange(9 * k + 5, 9 * k + 9)),
    }
}

/// A quote as mathematics: the tick and the two ladders, best level first.
pub struct QuoteView {
    pub tick: PriceLevel,
    pub bid: Seq<PriceLevel>,
    pub ask: Seq<PriceLevel>,
}

/// The quote that a body holds, given the counts that its header announced.
/// The tick group comes first if there is one; the bid groups follow, and the
/// ask groups start right behind the last bid group. A ladder has five slots,
/// and a slot at or beyond the announced count is empty.
pub open spec fn quote_of(body: Seq<u8>, n_match: nat, n_bid: nat, n_ask: nat) -> QuoteView {
    QuoteView {
        tick: if n_match > 0 {
            level_of(body, 0)
        } else {
            empty_level()
        },
        bid: Seq::new(
            5,
            |i: int|
                if i < n_bid {
                    level_of(body, n_match + i)
                } else {
                    empty_level()
                },
        ),
        ask: Seq::new(
            5,
            |i: int|
                if i < n_ask {
                    level_of(body, n_match + n_bid + i)
                } else {
                    empty_level()
                },
        ),
    }
}

/// The two ladders of a quote, prices in ten-thousandths.
#[derive(Debug, PartialEq, Eq, Clone, Copy)]
pub struct BidAsk {
    pub bid_price: [u64; 5],
    pub bid_volume: [u64; 5],
    pub ask_price: [u64; 5],
    pub ask_volume: [u64; 5],
}

/// The last trade: price in ten-thousandths, and volume.
#[derive(Debug, PartialEq, Eq, Clone, Copy)]
pub struct Tick {
    pub price: u64,
    pub volume: u64,
}

/// The decoded body of a record.
#[derive(Debug, PartialEq, Eq, Clone, Copy)]
pub struct Quote {
    pub bidask: BidAsk,
    pub tick: Tick,
}

impl View for Quote {
    type V = QuoteView;

    open spec fn view(&self) -> QuoteView {
        QuoteView {
            tick: PriceLevel { price: self.tick.price as nat, volume: self.tick.volume as nat },
            bid: Seq::new(
                5,
                |i: int|
                    PriceLevel {
                        price: self.bidask.bid_price@[i] as nat,
                        volume: self.bidask.bid_volume@[i] as nat,
                    },
            ),
            ask: Seq::new(
                5,
                |i: int|
                    PriceLevel {
                        price: self.bidask.ask_price@[i] as nat,
                        volume: self.bidask.ask_volume@[i] as nat,
                    },
            ),
        }
    }
}

/// In every decoded quote both ladders have five slots; a slot below the
/// announced count holds the group at its place in the body, the ask groups
/// being counted from behind the announced bid groups; every other slot is
/// empty, as is the tick of a body without one.
pub proof fn lemma_quote_ladders(body: Seq<u8>, n_match: nat, n_bid: nat, n_ask: nat)
    ensures
        quote_of(body, n_match, n_bid, n_ask).bid.len() == 5,
        quote_of(body, n_match, n_bid, n_ask).ask.len() == 5,
        forall|i: int|
            0 <= i < 5 && i < n_bid ==> #[trigger] quote_of(body, n_match, n_bid, n_ask).bid[i]
                == level_of(body, n_match + i),
        forall|i: int|
            0 <= i < 5 && i >= n_bid ==> #[trigger] quote_of(body, n_match, n_bid, n_ask).bid[i]
                == empty_level(),
        forall|i: int|
            0 <= i < 5 && i < n_ask ==> #[trigger] quote_of(body, n_match, n_bid, n_ask).ask[i]
                == level_of(body, n_match + n_bid + i),
        forall|i: int|
            0 <= i < 5 && i >= n_ask ==> #[trigger] quote_of(body, n_match, n_bid, n_ask).ask[i]
                == empty_level(),
        n_match == 0 ==> quote_of(body, n_match, n_bid, n_ask).tick == empty_level(),
{
}

/// A level that lies within its body has a price below 10^10 ten-thousandths
/// and a volume below 10^8: ten and eight decimal digits.
pub proof fn lemma_level_bounded(body: Seq<u8>, k: int)
    requires
        0 <= k,
        9 * (k + 1) <= body.len(),
    ensures
        level_of(body, k).price < 10_000_000_000,
        level_of(body, k).volume < 100_000_000,
{
    lemma_bcd_number_bound(body.subrange(9 * k, 9 * k + 5));
    lemma_bcd_number_bound(body.subrange(9 * k + 5, 9 * k + 9));
    lemma_pow100_values();
}

/// Reads the `k`-th nine-byte group of a body.
fn read_level(body: &[u8], k: usize) -> (level: (u64, u64))
    requires
        9 * (k + 1) <= body.len(),
    ensures
        level.0 == level_of(body@, k as int).price,
        level.1 == level_of(body@, k as int).volume,
{
    let at: usize = 9 * k;
    let price_raw: [u8; 5] = [body[at], body[at + 1], body[at + 2], body[at + 3], body[at + 4]];
    let volume_raw: [u8; 4] = [body[at + 5], body[at + 6], body[at + 7], body[at + 8]];
    proof {
        assert(price_raw@ =~= body@.subrange(9 * k, 9 * k + 5));
        assert(volume_raw@ =~= body@.subrange(9 * k + 5, 9 * k + 9));
    }
    (bcd2price(price_raw), bcd2volume(volume_raw))
}

/// Decodes the body of a record. `packbcd_arr` starts at the first group and
/// holds at least the groups that the three counts announce.
pub fn bytes2quote(packbcd_arr: &[u8], n_match: usize, n_bid: usize, n_ask: usize) -> (quote:
    Quote)
    requires
        n_match <= 1,
        9 * (n_match + n_bid + n_ask) <= packbcd_arr.len(),
    ensures
        quote@ == quote_of(packbcd_arr@, n_match as nat, n_bid as nat, n_ask as nat),
{
    let mut tick_price: u64 = 0;
    let mut tick_volume: u64 = 0;
    if n_match > 0 {
        let level = read_level(packbcd_arr, 0);
        tick_price = level.0;
        tick_volume = level.1;
    }
    let mut bid_price: [u64; 5] = [0;5];
    let mut bid_volume: [u64; 5] = [0;5];
    let mut ask_price: [u64; 5] = [0;5];
    let mut ask_volume: [u64; 5] = [0;5];
    let ghost want = quote_of(packbcd_arr@, n_match as nat, n_bid as nat, n_ask as nat);
    let mut i: usize = 0;
    while i < 5
        invariant
            i <= 5,
            n_match <= 1,
            9 * (n_match + n_bid + n_ask) <= packbcd_arr.len(),
            want == quote_of(packbcd_arr@, n_match as nat, n_bid as nat, n_ask as nat),
            forall|j: int|
                0 <= j < i ==> bid_price@[j] == want.bid[j].price && bid_volume@[j]
                    == want.bid[j].volume,
            forall|j: int|
                0 <= j < i ==> ask_price@[j] == want.ask[j].price && ask_volume@[j]
                    == want.ask[j].volume,
            forall|j: int| i <= j < 5 ==> bid_price@[j] == 0 && bid_volume@[j] == 0,
            forall|j: int| i <= j < 5 ==> ask_price@[j] == 0 && ask_volume@[j] == 0,
        decreases 5 - i,
    {
        if n_bid > i {
            let level = read_level(packbcd_arr, n_match + i);
            bid_price[i] = level.0;
            bid_volume[i] = level.1;
        }
        if n_ask > i {
            let level = read_level(packbcd_arr, n_match + n_bid + i);
            ask_price[i] = level.0;
            ask_volume[i] = level.1;
        }
        i += 1;
    }
    let quote = Quote {
        bidask: BidAsk { bid_price, bid_volume, ask_price, ask_volume },
        tick: Tick { price: tick_price, volume: tick_volume },
    };
    proof {
        assert(quote@.bid =~= want.bid);
        assert(quote@.ask =~= want.ask);
    }
    quote
}

/// A header as mathematics.
pub struct HeaderView {
    pub mlen: nat,
    pub cate: nat,
    pub fcode: nat,
    pub fver: nat,
    pub no: nat,
    pub symbol: Seq<char>,
    pub time: Seq<char>,
    pub n_match: nat,
    pub n_bid: nat,
    pub n_ask: nat,
    pub trice: nat,
    pub simulation: bool,
    pub delay_open: bool,
    pub delay_close: bool,
    pub auction: bool,
    pub opened: bool,
    pub closed: bool,
    pub volsum: nat,
}

/// The decoded preamble of a record.
#[derive(Debug, PartialEq, Eq, Clone)]
pub struct F6Header {
    /// Length of the whole record in bytes, preamble included.
    pub mlen: u16,
    pub cate: u8,
    pub fcode: u8,
    pub fver: u8,
    /// Sequence number within the feed.
    pub no: u64,
    pub symbol: String,
    /// `HH:MM:SS.uuuuuu`.
    pub time: String,
    pub n_match: u8,
    pub n_bid: u8,
    pub n_ask: u8,
    pub trice: u8,
    pub simulation: bool,
    pub delay_open: bool,
    pub delay_close: bool,
    pub auction: bool,
    pub opened: bool,
    pub closed: bool,
    /// Cumulative volume of the day.
    pub volsum: u64,
}

impl View for F6Header {
    type V = HeaderView;

    open spec fn view(&self) -> HeaderView {
        HeaderView {
            mlen: self.mlen as nat,
            cate: self.cate as nat,
            fcode: self.fcode as nat,
            fver: self.fver as nat,
            no: self.no as nat,
            symbol: self.symbol@,
            time: self.time@,
            n_match: self.n_match as nat,
            n_bid: self.n_bid as nat,
            n_ask: self.n_ask as nat,
            trice: self.trice as nat,
            simulation: self.simulation,
            delay_open: self.delay_open,
            delay_close: self.delay_close,
            auction: self.auction,
            opened: self.opened,
            closed: self.closed,
            volsum: self.volsum as nat,
        }
    }
}

impl HeaderView {
    /// The counts are those of a record as the exchange sends it: at most one
    /// tick and at most five levels a side.
    pub open spec fn counts_in_range(&self) -> bool {
        self.n_match <= 1 && self.n_bid <= 5 && self.n_ask <= 5
    }
}

impl F6Header {
    /// The three counts that size the body: ticks, bid levels, ask levels.
    pub fn n_info(&self) -> (counts: (usize, usize, usize))
        ensures
            counts.0 == self@.n_match,
            counts.1 == self@.n_bid,
            counts.2 == self@.n_ask,
            self@.counts_in_range() ==> counts.0 <= 1 && counts.1 <= 5 && counts.2 <= 5,
    {
        (self.n_match as usize, self.n_bid as usize, self.n_ask as usize)
    }
}

/// The 29 bytes of the preamble, field by field, as they stand on the wire.
#[derive(Debug, PartialEq, Eq, Clone, Copy)]
pub struct Rawf6Fixed {
    pub esc_code: u8,
    pub mlen: [u8; 2],
    pub cate: u8,
    pub fcode: u8,
    pub fver: u8,
    pub no: [u8; 4],
    pub symbol: [u8; 6],
    pub time: [u8; 6],
    pub bmp: u8,
    pub ud: u8,
    pub st: u8,
    pub volsum: [u8; 4],
}

impl Rawf6Fixed {
    /// The 29 bytes that the preamble occupies on the wire.
    pub open spec fn wire(&self) -> Seq<u8> {
        seq![self.esc_code] + self.mlen@ + seq![self.cate, self.fcode, self.fver] + self.no@
            + self.symbol@ + self.time@ + seq![self.bmp, self.ud, self.st] + self.volsum@
    }

    /// A preamble that lies over the start of `raw` holds, field by field,
    /// the bytes at the field's place.
    pub proof fn lemma_fields_of_wire(&self, raw: Seq<u8>)
        requires
            raw.len() >= 29,
            self.wire() == raw.take(29),
        ensures
            self.esc_code == raw[0],
            self.mlen@ == raw.subrange(1, 3),
            self.cate == raw[3],
            self.fcode == raw[4],
            self.fver == raw[5],
            self.no@ == raw.subrange(6, 10),
            self.symbol@ == raw.subrange(10, 16),
            self.time@ == raw.subrange(16, 22),
            self.bmp == raw[22],
            self.ud == raw[23],
            self.st == raw[24],
            self.volsum@ == raw.subrange(25, 29),
    {
        let wire = raw.take(29);
        assert forall|i: int| 0 <= i < 29 implies self.wire()[i] == raw[i] by {
            assert(wire[i] == raw[i]);
        }
        assert(self.wire()[0] == raw[0]);
        assert(self.wire()[3] == raw[3]);
        assert(self.wire()[4] == raw[4]);
        assert(self.wire()[5] == raw[5]);
        assert(self.wire()[22] == raw[22]);
        assert(self.wire()[23] == raw[23]);
        assert(self.wire()[24] == raw[24]);
        assert(self.mlen@ =~= raw.subrange(1, 3)) by {
            assert forall|i: int| 0 <= i < 2 implies self.mlen@[i] == raw[1 + i] by {
                assert(self.wire()[1 + i] == raw[1 + i]);
            }
        }
        assert(self.no@ =~= raw.subrange(6, 10)) by {
            assert forall|i: int| 0 <= i < 4 implies self.no@[i] == raw[6 + i] by {
                assert(self.wire()[6 + i] == raw[6 + i]);
            }
        }
        assert(self.symbol@ =~= raw.subrange(10, 16)) by {
            assert forall|i: int| 0 <= i < 6 implies self.symbol@[i] == raw[10 + i] by {
                assert(self.wire()[10 + i] == raw[10 + i]);
            }
        }
        assert(self.time@ =~= raw.subrange(16, 22)) by {
            assert forall|i: int| 0 <= i < 6 implies self.time@[i] == raw[16 + i] by {
                assert(self.wire()[16 + i] == raw[16 + i]);
            }
        }
        assert(self.volsum@ =~= raw.subrange(25, 29)) by {
            assert forall|i: int| 0 <= i < 4 implies self.volsum@[i] == raw[25 + i] by {
                assert(self.wire()[25 + i] == raw[25 + i]);
            }
        }
    }

    /// Cuts the first 29 bytes of a record into the preamble's fields.
    pub fn from_bytes(raw: &[u8]) -> (fixed: Rawf6Fixed)
        requires
            raw.len() >= 29,
        ensures
            fixed.wire() == raw@.take(29),
    {
        let fixed = Rawf6Fixed {
            esc_code: raw[0],
            mlen: [raw[1], raw[2]],
            cate: raw[3],
            fcode: raw[4],
            fver: raw[5],
            no: [raw[6], raw[7], raw[8], raw[9]],
            symbol: [raw[10], raw[11], raw[12], raw[13], raw[14], raw[15]],
            time: [raw[16], raw[17], raw[18], raw[19], raw[20], raw[21]],
            bmp: raw[22],
            ud: raw[23],
            st: raw[24],
            volsum: [raw[25], raw[26], raw[27], raw[28]],
        };
        assert(fixed.wire() =~= raw@.take(29));
        fixed
    }
}

/// The length that a record announces in its second and third byte.
pub open spec fn mlen_of(raw: Seq<u8>) -> nat
    recommends
        raw.len() >= 3,
{
    bcd_number(raw.subrange(1, 3))
}

/// The function code that a record carries in its fifth byte.
pub open spec fn fcode_of(raw: Seq<u8>) -> nat
    recommends
        raw.len() >= 5,
{
    bcd_value(raw[4])
}

/// The header that the first 29 bytes of a record encode. Only the symbol
/// can fail to decode.
pub open spec fn header_of(raw: Seq<u8>) -> Result<HeaderView, DecodeError>
    recommends
        raw.len() >= 29,
{
    match text_of(raw.subrange(10, 16)) {
        Err(e) => Err(e),
        Ok(symbol) => Ok(
            HeaderView {
                mlen: mlen_of(raw),
                cate: bcd_value(raw[3]),
                fcode: fcode_of(raw),
                fver: bcd_value(raw[5]),
                no: bcd_number(raw.subrange(6, 10)),
                symbol,
                time: time_text(raw.subrange(16, 22)),
                n_match: mask_n_match(raw[22]),
                n_bid: mask_n_bid(raw[22]),
                n_ask: mask_n_ask(raw[22]),
                trice: mask_trice(raw[23]),
                simulation: mask_bit(raw[24], 7),
                delay_open: mask_bit(raw[24], 6),
                delay_close: mask_bit(raw[24], 5),
                auction: mask_bit(raw[24], 4),
                opened: mask_bit(raw[24], 3),
                closed: mask_bit(raw[24], 2),
                volsum: bcd_number(raw.subrange(25, 29)),
            },
        ),
    }
}

/// The announced length of a record.
pub fn bytes2mlen(raw: &[u8]) -> (mlen: usize)
    requires
        raw.len() >= 3,
    ensures
        mlen == mlen_of(raw@),
        mlen <= 9999,
{
    let field = vstd::slice::slice_subrange(raw, 1, 3);
    proof {
        lemma_bcd_number_bound(field@);
        lemma_pow100_values();
    }
    bcdarr2num(field) as usize
}

/// The function code of a record.
pub fn bytes2fcode(raw: &[u8]) -> (fcode: u64)
    requires
        raw.len() >= 5,
    ensures
        fcode == fcode_of(raw@),
        fcode <= 99,
{
    bcd2num(raw[4])
}

/// Decodes the preamble of a record.
pub fn bytes2header(raw: &[u8]) -> (r: Result<F6Header, DecodeError>)
    requires
        raw.len() >= 29,
    ensures
        match r {
            Ok(header) => header_of(raw@) == Ok::<HeaderView, DecodeError>(header@),
            Err(e) => header_of(raw@) == Err::<HeaderView, DecodeError>(e),
        },
{
    let fixed = Rawf6Fixed::from_bytes(raw);
    proof {
        fixed.lemma_fields_of_wire(raw@);
        lemma_bcd_number_bound(fixed.mlen@);
        lemma_bcd_number_bound(fixed.no@);
        lemma_bcd_number_bound(fixed.volsum@);
        lemma_pow100_values();
    }
    let symbol = match bytes2text(fixed.symbol.as_slice()) {
        Ok(text) => String::from_str(text),
        Err(e) => {
            return Err(e);
        },
    };
    let st = fixed.st;
    let ud = fixed.ud;
    proof {
        assert(ud & 0x03 == ud % 4) by (bit_vector);
        assert(((st & 0x80) != 0) == (st / 128 % 2 == 1)) by (bit_vector);
        assert(((st & 0x40) != 0) == (st / 64 % 2 == 1)) by (bit_vector);
        assert(((st & 0x20) != 0) == (st / 32 % 2 == 1)) by (bit_vector);
        assert(((st & 0x10) != 0) == (st / 16 % 2 == 1)) by (bit_vector);
        assert(((st & 0x08) != 0) == (st / 8 % 2 == 1)) by (bit_vector);
        assert(((st & 0x04) != 0) == (st / 4 % 2 == 1)) by (bit_vector);
    }
    let header = F6Header {
        mlen: bcdarr2num(fixed.mlen.as_slice()) as u16,
        cate: bcd2num(fixed.cate) as u8,
        fcode: bcd2num(fixed.fcode) as u8,
        fver: bcd2num(fixed.fver) as u8,
        no: bcdarr2num(fixed.no.as_slice()),
        symbol,
        time: bcd2time(fixed.time),
        n_match: item_n_match(fixed.bmp),
        n_bid: item_n_bid(fixed.bmp),
        n_ask: item_n_ask(fixed.bmp),
        trice: ud & 0x03,
        simulation: (st & 0x80) != 0,
        delay_open: (st & 0x40) != 0,
        delay_close: (st & 0x20) != 0,
        auction: (st & 0x10) != 0,
        opened: (st & 0x08) != 0,
        closed: (st & 0x04) != 0,
        volsum: bcdarr2num(fixed.volsum.as_slice()),
    };
    Ok(header)
}

/// Decoding depends on the first 29 bytes alone: two buffers that agree there
/// decode to the same header, or fail alike. In particular, decoding the same
/// bytes twice gives the same header.
pub proof fn lemma_header_decode_repeatable(first: Seq<u8>, second: Seq<u8>)
    requires
        first.len() >= 29,
        second.len() >= 29,
        first.take(29) == second.take(29),
    ensures
        header_of(first) == header_of(second),
{
    assert forall|i: int| 0 <= i < 29 implies first[i] == second[i] by {
        assert(first.take(29)[i] == first[i]);
        assert(second.take(29)[i] == second[i]);
    }
    assert(first.subrange(1, 3) =~= second.subrange(1, 3));
    assert(first.subrange(6, 10) =~= second.subrange(6, 10));
    assert(first.subrange(10, 16) =~= second.subrange(10, 16));
    assert(first.subrange(16, 22) =~= second.subrange(16, 22));
    assert(first.subrange(25, 29) =~= second.subrange(25, 29));
}

/// The two overlays and the header decoder read the same record alike: where
/// a head lies over the first ten bytes and a base over the fifteen behind
/// them, each field of the decoded header is what the overlay's own getter
/// gives.
pub proof fn lemma_overlays_agree_with_header(raw: Seq<u8>, head: TWExMdHead, base: TwExMdRtBase)
    requires
        raw.len() >= 29,
        head.wire() == raw.take(10),
        base.wire() == raw.subrange(10, 25),
    ensures
        mlen_of(raw) == bcd_number(head.len@),
        fcode_of(raw) == bcd_value(head.fcode),
        text_of(base.symbol@) is Ok <==> header_of(raw) is Ok,
        header_of(raw) is Ok ==> ({
            let header = header_of(raw)->Ok_0;
            &&& header.mlen == bcd_number(head.len@)
            &&& header.cate == bcd_value(head.market)
            &&& header.fcode == bcd_value(head.fcode)
            &&& header.fver == bcd_value(head.fver)
            &&& header.no == bcd_number(head.seqno@)
            &&& text_of(base.symbol@) == Ok::<Seq<char>, DecodeError>(header.symbol)
            &&& header.time == time_text(base.time.time@)
            &&& header.n_match == mask_n_match(base.item_mask)
            &&& header.n_bid == mask_n_bid(base.item_mask)
            &&& header.n_ask == mask_n_ask(base.item_mask)
            &&& header.trice == mask_trice(base.lmt_mask)
            &&& header.simulation == mask_bit(base.status_mask, 7)
            &&& header.delay_open == mask_bit(base.status_mask, 6)
            &&& header.delay_close == mask_bit(base.status_mask, 5)
            &&& header.auction == mask_bit(base.status_mask, 4)
            &&& header.opened == mask_bit(base.status_mask, 3)
            &&& header.closed == mask_bit(base.status_mask, 2)
        }),
{
    let front = raw.take(10);
    let behind = raw.subrange(10, 25);
    assert forall|i: int| 0 <= i < 10 implies head.wire()[i] == raw[i] by {
        assert(front[i] == raw[i]);
    }
    assert forall|i: int| 0 <= i < 15 implies base.wire()[i] == raw[10 + i] by {
        assert(behind[i] == raw[10 + i]);
    }
    assert(head.len@ =~= raw.subrange(1, 3)) by {
        assert forall|i: int| 0 <= i < 2 implies head.len@[i] == raw[1 + i] by {
            assert(head.wire()[1 + i] == raw[1 + i]);
        }
    }
    assert(head.seqno@ =~= raw.subrange(6, 10)) by {
        assert forall|i: int| 0 <= i < 4 implies head.seqno@[i] == raw[6 + i] by {
            assert(head.wire()[6 + i] == raw[6 + i]);
        }
    }
    assert(head.market == raw[3] && head.fcode == raw[4] && head.fver == raw[5]) by {
        assert(head.wire()[3] == raw[3]);
        assert(head.wire()[4] == raw[4]);
        assert(head.wire()[5] == raw[5]);
    }
    assert(base.symbol@ =~= raw.subrange(10, 16)) by {
        assert forall|i: int| 0 <= i < 6 implies base.symbol@[i] == raw[10 + i] by {
            assert(base.wire()[i] == raw[10 + i]);
        }
    }
    assert(base.time.time@ =~= raw.subrange(16, 22)) by {
        assert forall|i: int| 0 <= i < 6 implies base.time.time@[i] == raw[16 + i] by {
            assert(base.wire()[6 + i] == raw[10 + (6 + i)]);
        }
    }
    assert(base.item_mask == raw[22] && base.lmt_mask == raw[23] && base.status_mask == raw[24])
        by {
        assert(base.wire()[12] == raw[22]);
        assert(base.wire()[13] == raw[23]);
        assert(base.wire()[14] == raw[24]);
    }
}

/// Every header that decodes keeps within what its fields can carry: at most
/// one tick and at most seven levels a side, since the item mask has one bit
/// for the tick and three for each side; two decimal digits for each
/// one-byte field, four for the length, eight for the sequence number and
/// for the cumulative volume.
pub proof fn lemma_header_fields_bounded(raw: Seq<u8>)
    requires
        raw.len() >= 29,
        header_of(raw) is Ok,
    ensures
        header_of(raw)->Ok_0.n_match <= 1,
        header_of(raw)->Ok_0.n_bid <= 7,
        header_of(raw)->Ok_0.n_ask <= 7,
        header_of(raw)->Ok_0.trice <= 3,
        header_of(raw)->Ok_0.cate <= 99,
        header_of(raw)->Ok_0.fcode <= 99,
        header_of(raw)->Ok_0.fver <= 99,
        header_of(raw)->Ok_0.mlen <= 9999,
        header_of(raw)->Ok_0.no <= 99_999_999,
        header_of(raw)->Ok_0.volsum <= 99_999_999,
{
    lemma_bcd_number_bound(raw.subrange(1, 3));
    lemma_bcd_number_bound(raw.subrange(6, 10));
    lemma_bcd_number_bound(raw.subrange(25, 29));
    lemma_pow100_values();
}

/// Where the item mask holds level counts of at most five, as the exchange
/// sends them, the counts of the decoded header are in range: at most one
/// tick and at most five levels a side.
pub proof fn lemma_header_counts_in_range(raw: Seq<u8>)
    requires
        raw.len() >= 29,
        header_of(raw) is Ok,
        mask_n_bid(raw[22]) <= 5,
        mask_n_ask(raw[22]) <= 5,
    ensures
        header_of(raw)->Ok_0.counts_in_range(),
{
}

/// A record as mathematics.
pub struct F6View {
    pub header: HeaderView,
    pub quote: QuoteView,
}

/// One decoded record: header and quote.
#[derive(Debug, PartialEq, Eq, Clone)]
pub struct F6 {
    pub header: F6Header,
    pub quote: Quote,
}

impl View for F6 {
    type V = F6View;

    open spec fn view(&self) -> F6View {
        F6View { header: self.header@, quote: self.quote@ }
    }
}

/// A record together with the local time at which it was received.
#[derive(Debug, PartialEq, Eq)]
pub struct F6Received {
    pub f6: F6,
    pub received: String,
}

impl F6Received {
    /// Pairs a record with its time of receipt.
    pub fn new(f6: F6, received: String) -> (stamped: F6Received)
        ensures
            stamped.f6 == f6,
            stamped.received == received,
    {
        F6Received { f6, received }
    }
}

/// The number of nine-byte groups that an item mask announces.
pub open spec fn body_groups(item_mask: u8) -> nat {
    mask_n_match(item_mask) + mask_n_bid(item_mask) + mask_n_ask(item_mask)
}

/// The record that a run of bytes encodes. The bytes must hold the preamble
/// and every group that the preamble announces, else they are malformed;
/// bytes beyond the last group (the record's trailer) are not looked at.
pub open spec fn record_of(raw: Seq<u8>) -> Result<F6View, DecodeError> {
    if raw.len() < 29 || raw.len() < 29 + 9 * body_groups(raw[22]) {
        Err(DecodeError::MalformedFrame)
    } else {
        match header_of(raw) {
            Err(e) => Err(e),
            Ok(header) => Ok(
                F6View {
                    header,
                    quote: quote_of(raw.skip(29), header.n_match, header.n_bid, header.n_ask),
                },
            ),
        }
    }
}

/// Decodes one record from the bytes that start with it.
pub fn bytes2f6(raw: &[u8]) -> (r: Result<F6, DecodeError>)
    ensures
        match r {
            Ok(f6) => record_of(raw@) == Ok::<F6View, DecodeError>(f6@),
            Err(e) => record_of(raw@) == Err::<F6View, DecodeError>(e),
        },
{
    if raw.len() < 29 {
        return Err(DecodeError::MalformedFrame);
    }
    let item_mask = raw[22];
    let (n_match, n_bid, n_ask) = (
        item_n_match(item_mask) as usize,
        item_n_bid(item_mask) as usize,
        item_n_ask(item_mask) as usize,
    );
    let groups: usize = n_match + n_bid + n_ask;
    if raw.len() - 29 < 9 * groups {
        return Err(DecodeError::MalformedFrame);
    }
    let header = match bytes2header(raw) {
        Ok(header) => header,
        Err(e) => {
            return Err(e);
        },
    };
    let body = vstd::slice::slice_subrange(raw, 29, raw.len());
    assert(body@ =~= raw@.skip(29));
    let quote = bytes2quote(body, n_match, n_bid, n_ask);
    Ok(F6 { header, quote })
}

/// What a record decodes to depends only on its preamble and its announced
/// groups: bytes appended behind a record that decodes change nothing.
pub proof fn lemma_record_ignores_what_follows(raw: Seq<u8>, more: Seq<u8>)
    requires
        record_of(raw) is Ok,
    ensures
        record_of(raw + more) == record_of(raw),
{
    let whole = raw + more;
    assert(whole.take(29) =~= raw.take(29));
    lemma_header_decode_repeatable(whole, raw);
    assert(whole[22] == raw[22]);
    let header = header_of(raw)->Ok_0;
    let here = quote_of(raw.skip(29), header.n_match, header.n_bid, header.n_ask);
    let there = quote_of(whole.skip(29), header.n_match, header.n_bid, header.n_ask);
    assert forall|k: int| 0 <= k < body_groups(raw[22]) implies level_of(whole.skip(29), k)
        == level_of(raw.skip(29), k) by {
        assert(whole.skip(29).subrange(9 * k, 9 * k + 5) =~= raw.skip(29).subrange(
            9 * k,
            9 * k + 5,
        ));
        assert(whole.skip(29).subrange(9 * k + 5, 9 * k + 9) =~= raw.skip(29).subrange(
            9 * k + 5,
            9 * k + 9,
        ));
    }
    assert(there.bid =~= here.bid);
    assert(there.ask =~= here.ask);
    assert(there.tick == here.tick);
}

} // verus!
