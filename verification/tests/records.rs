use tw_quote::demux::{decode_frame, probe_frame, sender_admitted, split_datagram};
use tw_quote::error::DecodeError;
use tw_quote::f6::{
    bytes2f6, bytes2fcode, bytes2header, bytes2mlen, bytes2quote, BidAsk, F6Header, Quote,
    Rawf6Fixed, Tick, F6,
};
use tw_quote::clock::receive_now;

/// A price in currency units, from ten-thousandths.
fn units(price: u64) -> f64 {
    price as f64 / 10000.
}

fn ladder(prices: [u64; 5]) -> [f64; 5] {
    [units(prices[0]), units(prices[1]), units(prices[2]), units(prices[3]), units(prices[4])]
}

/// A record with a tick and five levels a side, without its two closing bytes.
fn full_record() -> Vec<u8> {
    vec![
        0x1b, 0x01, 0x31, 0x01, 0x06, 0x04, 0x00, 0x10, 0x93, 0x59, 0x39, 0x31, 0x31, 0x36,
        0x31, 0x36, 0x09, 0x00, 0x00, 0x14, 0x08, 0x66, 0xda, 0x00, 0x08, 0x00, 0x00, 0x00,
        0x06, 0x00, 0x00, 0x01, 0x82, 0x00, 0x00, 0x00, 0x00, 0x06, 0x00, 0x00, 0x01, 0x82,
        0x00, 0x00, 0x00, 0x00, 0x06, 0x00, 0x00, 0x01, 0x81, 0x00, 0x00, 0x00, 0x00, 0x05,
        0x00, 0x00, 0x01, 0x80, 0x00, 0x00, 0x00, 0x00, 0x16, 0x00, 0x00, 0x01, 0x76, 0x00,
        0x00, 0x00, 0x00, 0x28, 0x00, 0x00, 0x01, 0x75, 0x00, 0x00, 0x00, 0x00, 0x20, 0x00,
        0x00, 0x01, 0x93, 0x00, 0x00, 0x00, 0x00, 0x08, 0x00, 0x00, 0x01, 0x94, 0x00, 0x00,
        0x00, 0x00, 0x01, 0x00, 0x00, 0x01, 0x95, 0x00, 0x00, 0x00, 0x00, 0x01, 0x00, 0x00,
        0x01, 0x96, 0x00, 0x00, 0x00, 0x00, 0x25, 0x00, 0x00, 0x01, 0x97, 0x00, 0x00, 0x00,
        0x00, 0x26, 0xc6,
    ]
}

/// A record with one bid level and nothing else, without its two closing bytes.
fn bid_only_record() -> Vec<u8> {
    vec![
        0x1b, 0x00, 0x41, 0x01, 0x06, 0x04, 0x00, 0x00, 0x00, 0x11, 0x30, 0x30, 0x36, 0x33,
        0x32, 0x52, 0x08, 0x30, 0x00, 0x92, 0x09, 0x15, 0x10, 0x00, 0x80, 0x00, 0x00, 0x00,
        0x00, 0x00, 0x00, 0x06, 0x32, 0x00, 0x00, 0x00, 0x00, 0x01, 0x25,
    ]
}

fn full_header() -> F6Header {
    F6Header {
        mlen: 131,
        cate: 1,
        fcode: 6,
        fver: 4,
        no: 109359,
        symbol: String::from("911616"),
        time: String::from("09:00:00.140866"),
        n_match: 1,
        n_bid: 5,
        n_ask: 5,
        trice: 0,
        simulation: false,
        delay_open: false,
        delay_close: false,
        auction: false,
        opened: true,
        closed: false,
        volsum: 6,
    }
}

fn bid_only_header() -> F6Header {
    F6Header {
        mlen: 41,
        cate: 1,
        fcode: 6,
        fver: 4,
        no: 11,
        symbol: String::from("00632R"),
        time: String::from("08:30:00.920915"),
        n_match: 0,
        n_bid: 1,
        n_ask: 0,
        trice: 0,
        simulation: true,
        delay_open: false,
        delay_close: false,
        auction: false,
        opened: false,
        closed: false,
        volsum: 0,
    }
}

/// The record and the two bytes that close it on the wire.
fn framed(mut record: Vec<u8>) -> Vec<u8> {
    record.push(0x0d);
    record.push(0x0a);
    record
}

#[test]
fn bytes2f6_test() {
    let f6 = bytes2f6(&full_record()).unwrap();
    assert_eq!(
        f6.header,
        F6Header {
            mlen: 131,
            cate: 1,
            fcode: 6,
            fver: 4,
            no: 109359,
            symbol: String::from("911616"),
            time: String::from("09:00:00.140866"),
            n_match: 1,
            n_bid: 5,
            n_ask: 5,
            trice: 0,
            simulation: false,
            delay_open: false,
            delay_close: false,
            auction: false,
            opened: true,
            closed: false,
            volsum: 6,
        }
    );
    assert_eq!(ladder(f6.quote.bidask.bid_price), [1.82, 1.81, 1.8, 1.76, 1.75]);
    assert_eq!(f6.quote.bidask.bid_volume, [6, 5, 16, 28, 20]);
    assert_eq!(ladder(f6.quote.bidask.ask_price), [1.93, 1.94, 1.95, 1.96, 1.97]);
    assert_eq!(f6.quote.bidask.ask_volume, [8, 1, 1, 25, 26]);
    assert_eq!(units(f6.quote.tick.price), 1.82);
    assert_eq!(f6.quote.tick.volume, 6);
    assert_eq!(
        f6.quote,
        Quote {
            bidask: BidAsk {
                bid_price: [18200, 18100, 18000, 17600, 17500],
                bid_volume: [6, 5, 16, 28, 20],
                ask_price: [19300, 19400, 19500, 19600, 19700],
                ask_volume: [8, 1, 1, 25, 26],
            },
            tick: Tick { price: 18200, volume: 6 },
        }
    );
}

#[test]
fn bytes2f6_bid_only() {
    let f6 = bytes2f6(&bid_only_record()).unwrap();
    assert_eq!(f6.header, bid_only_header());
    assert_eq!(ladder(f6.quote.bidask.bid_price), [6.32, 0.0, 0.0, 0.0, 0.0]);
    assert_eq!(f6.quote.bidask.bid_volume, [1, 0, 0, 0, 0]);
    assert_eq!(ladder(f6.quote.bidask.ask_price), [0.0, 0.0, 0.0, 0.0, 0.0]);
    assert_eq!(f6.quote.bidask.ask_volume, [0, 0, 0, 0, 0]);
    assert_eq!(units(f6.quote.tick.price), 0.0);
    assert_eq!(f6.quote.tick.volume, 0);
    assert!(f6.header.simulation);
}

#[test]
fn bytes2f6_rejects_short_input() {
    let record = full_record();
    assert_eq!(bytes2f6(&record[..28]), Err(DecodeError::MalformedFrame));
    assert_eq!(bytes2f6(&record[..127]), Err(DecodeError::MalformedFrame));
    assert!(bytes2f6(&record[..128]).is_ok());
    assert_eq!(bytes2f6(&[]), Err(DecodeError::MalformedFrame));
}

#[test]
fn bytes2f6_rejects_symbol_that_is_no_text() {
    let mut record = full_record();
    record[12] = 0xff;
    assert_eq!(bytes2f6(&record), Err(DecodeError::InvalidSymbolEncoding));
    assert_eq!(bytes2header(&record), Err(DecodeError::InvalidSymbolEncoding));
}

#[test]
fn bytes2mlen_test() {
    assert_eq!(bytes2mlen(&full_record()), 131)
}

#[test]
fn bytes2mlen_of_other_formats() {
    assert_eq!(bytes2mlen(&[27, 1, 20, 1, 1, 9, 0, 0, 0, 1]), 114);
    assert_eq!(bytes2mlen(&[27, 3, 116, 1, 18, 3, 0, 0, 0, 1]), 374);
    assert_eq!(bytes2mlen(&[27, 0, 65]), 41);
}

#[test]
fn bytes2fcode_reads_the_fifth_byte() {
    assert_eq!(bytes2fcode(&full_record()), 6);
    assert_eq!(bytes2fcode(&[27, 3, 116, 1, 18, 3]), 12);
    assert_eq!(bytes2fcode(&[27, 1, 20, 1, 1, 9]), 1);
}

#[test]
fn bytes2header_test() {
    assert_eq!(
        bytes2header(&full_record()),
        Ok(F6Header {
            mlen: 131,
            cate: 1,
            fcode: 6,
            fver: 4,
            no: 109359,
            symbol: String::from("911616"),
            time: String::from("09:00:00.140866"),
            n_match: 1,
            n_bid: 5,
            n_ask: 5,
            trice: 0,
            simulation: false,
            delay_open: false,
            delay_close: false,
            auction: false,
            opened: true,
            closed: false,
            volsum: 6,
        })
    )
}

#[test]
fn bytes2header_bid_only() {
    assert_eq!(bytes2header(&bid_only_record()), Ok(bid_only_header()))
}

#[test]
fn bytes2header_twice_gives_the_same() {
    let record = full_record();
    assert_eq!(bytes2header(&record), bytes2header(&record));
    let mut longer = record.clone();
    longer.extend_from_slice(&[1, 2, 3]);
    assert_eq!(bytes2header(&longer), bytes2header(&record[..29]));
}

#[test]
fn bytes2header_reads_every_flag() {
    let mut record = bid_only_record();
    record[22] = 0x7e;
    record[23] = 0x03;
    record[24] = 0x7c;
    let header = bytes2header(&record).unwrap();
    assert_eq!((header.n_match, header.n_bid, header.n_ask), (0, 7, 7));
    assert_eq!(header.trice, 3);
    assert!(!header.simulation);
    assert!(header.delay_open && header.delay_close && header.auction);
    assert!(header.opened && header.closed);
}

#[test]
fn rawf6fixed_cuts_the_preamble() {
    let record = full_record();
    let fixed = Rawf6Fixed::from_bytes(&record);
    assert_eq!(fixed.esc_code, 0x1b);
    assert_eq!(fixed.mlen, [0x01, 0x31]);
    assert_eq!((fixed.cate, fixed.fcode, fixed.fver), (1, 6, 4));
    assert_eq!(fixed.no, [0x00, 0x10, 0x93, 0x59]);
    assert_eq!(&fixed.symbol, b"911616");
    assert_eq!(fixed.time, [0x09, 0x00, 0x00, 0x14, 0x08, 0x66]);
    assert_eq!((fixed.bmp, fixed.ud, fixed.st), (0xda, 0x00, 0x08));
    assert_eq!(fixed.volsum, [0, 0, 0, 6]);
}

#[test]
fn f6header_n_info_test() {
    let f6 = F6Header {
        mlen: 131,
        cate: 1,
        fcode: 6,
        fver: 4,
        no: 109359,
        symbol: String::from("911616"),
        time: String::from("09:00:00.140866"),
        n_match: 1,
        n_bid: 5,
        n_ask: 5,
        trice: 0,
        simulation: false,
        delay_open: false,
        delay_close: false,
        auction: false,
        opened: true,
        closed: false,
        volsum: 6,
    };
    assert_eq!((1, 5, 5), f6.n_info())
}

#[test]
fn bytes2quote_test() {
    let quote = bytes2quote(
        &[
            0x00, 0x05, 0x52, 0x00, 0x00, 0x00, 0x00, 0x00, 0x02, 0x00, 0x05, 0x45, 0x00, 0x00,
            0x00, 0x00, 0x00, 0x01, 0x00, 0x05, 0x41, 0x00, 0x00, 0x00, 0x00, 0x00, 0x01, 0x00,
            0x05, 0x40, 0x00, 0x00, 0x00, 0x00, 0x00, 0x01, 0x00, 0x05, 0x30, 0x00, 0x00, 0x00,
            0x00, 0x00, 0x02, 0x00, 0x05, 0x22, 0x00, 0x00, 0x00, 0x00, 0x00, 0x24, 0x00, 0x05,
            0x55, 0x00, 0x00, 0x00, 0x00, 0x00, 0x01, 0x00, 0x05, 0x58, 0x00, 0x00, 0x00, 0x00,
            0x00, 0x01, 0x00, 0x05, 0x60, 0x00, 0x00, 0x00, 0x00, 0x00, 0x01, 0x00, 0x05, 0x61,
            0x00, 0x00, 0x00, 0x00, 0x00, 0x02, 0x00, 0x05, 0x62, 0x00, 0x00, 0x00, 0x00, 0x00,
            0x01,
        ],
        1,
        5,
        5,
    );
    assert_eq!(ladder(quote.bidask.bid_price), [545.0, 541.0, 540.0, 530.0, 522.0]);
    assert_eq!(quote.bidask.bid_volume, [1, 1, 1, 2, 24]);
    assert_eq!(ladder(quote.bidask.ask_price), [555.0, 558.0, 560.0, 561.0, 562.0]);
    assert_eq!(quote.bidask.ask_volume, [1, 1, 1, 2, 1]);
    assert_eq!(units(quote.tick.price), 552.0);
    assert_eq!(quote.tick.volume, 2);
}

#[test]
fn bytes2quote_full_ladders() {
    let quote = bytes2quote(
        &[
            0x00, 0x00, 0x01, 0x82, 0x00, 0x00, 0x00, 0x00, 0x06, 0x00, 0x00, 0x01, 0x82, 0x00,
            0x00, 0x00, 0x00, 0x06, 0x00, 0x00, 0x01, 0x81, 0x00, 0x00, 0x00, 0x00, 0x05, 0x00,
            0x00, 0x01, 0x80, 0x00, 0x00, 0x00, 0x00, 0x16, 0x00, 0x00, 0x01, 0x76, 0x00, 0x00,
            0x00, 0x00, 0x28, 0x00, 0x00, 0x01, 0x75, 0x00, 0x00, 0x00, 0x00, 0x20, 0x00, 0x00,
            0x01, 0x93, 0x00, 0x00, 0x00, 0x00, 0x08, 0x00, 0x00, 0x01, 0x94, 0x00, 0x00, 0x00,
            0x00, 0x01, 0x00, 0x00, 0x01, 0x95, 0x00, 0x00, 0x00, 0x00, 0x01, 0x00, 0x00, 0x01,
            0x96, 0x00, 0x00, 0x00, 0x00, 0x25, 0x00, 0x00, 0x01, 0x97, 0x00, 0x00, 0x00, 0x00,
            0x26,
        ],
        1,
        5,
        5,
    );
    assert_eq!(ladder(quote.bidask.bid_price), [1.82, 1.81, 1.8, 1.76, 1.75]);
    assert_eq!(quote.bidask.bid_volume, [6, 5, 16, 28, 20]);
    assert_eq!(ladder(quote.bidask.ask_price), [1.93, 1.94, 1.95, 1.96, 1.97]);
    assert_eq!(quote.bidask.ask_volume, [8, 1, 1, 25, 26]);
    assert_eq!(units(quote.tick.price), 1.82);
    assert_eq!(quote.tick.volume, 6);
}

#[test]
fn bytes2quote_asks_follow_the_last_bid() {
    let quote = bytes2quote(
        &[
            0x00, 0x00, 0x07, 0x06, 0x00, 0x00, 0x00, 0x00, 0x10, 0x00, 0x00, 0x07, 0x05, 0x00,
            0x00, 0x00, 0x00, 0x10, 0x00, 0x00, 0x06, 0x80, 0x00, 0x00, 0x00, 0x00, 0x02, 0x00,
            0x00, 0x06, 0x35, 0x00, 0x00, 0x00, 0x00, 0x04, 0x00, 0x00, 0x07, 0x07, 0x00, 0x00,
            0x00, 0x00, 0x10, 0x00, 0x00, 0x07, 0x08, 0x00, 0x00, 0x00, 0x00, 0x10, 0x00, 0x00,
            0x07, 0x26, 0x00, 0x00, 0x00, 0x00, 0x40, 0xb5, 0x0d, 0x0a,
        ],
        0,
        3,
        4,
    );
    assert_eq!(ladder(quote.bidask.bid_price), [7.06, 7.05, 6.8, 0.0, 0.0]);
    assert_eq!(quote.bidask.bid_volume, [10, 10, 2, 0, 0]);
    assert_eq!(ladder(quote.bidask.ask_price), [6.35, 7.07, 7.08, 7.26, 0.0]);
    assert_eq!(quote.bidask.ask_volume, [4, 10, 10, 40, 0]);
    assert_eq!(units(quote.tick.price), 0.0);
    assert_eq!(quote.tick.volume, 0);
}

#[test]
fn bytes2quote_of_nothing_is_empty() {
    let quote = bytes2quote(&[], 0, 0, 0);
    assert_eq!(quote.bidask.bid_price, [0; 5]);
    assert_eq!(quote.bidask.bid_volume, [0; 5]);
    assert_eq!(quote.bidask.ask_price, [0; 5]);
    assert_eq!(quote.bidask.ask_volume, [0; 5]);
    assert_eq!(quote.tick, Tick { price: 0, volume: 0 });
}

#[test]
fn bytes2quote_counts_fill_exactly_their_slots() {
    let mut body = Vec::new();
    for level in 1..=10u8 {
        let packed = (level / 10) << 4 | (level % 10);
        body.extend_from_slice(&[0, 0, 0, packed, 0, 0, 0, 0, packed]);
    }
    for n_bid in 0..=5usize {
        for n_ask in 0..=5usize {
            let quote = bytes2quote(&body, 0, n_bid, n_ask);
            for slot in 0..5 {
                let bid = if slot < n_bid { (slot + 1) as u64 } else { 0 };
                let ask = if slot < n_ask { (n_bid + slot + 1) as u64 } else { 0 };
                assert_eq!(quote.bidask.bid_price[slot], bid * 100);
                assert_eq!(quote.bidask.bid_volume[slot], bid);
                assert_eq!(quote.bidask.ask_price[slot], ask * 100);
                assert_eq!(quote.bidask.ask_volume[slot], ask);
            }
        }
    }
}

#[test]
fn push_f6_test() {
    let f6 = bytes2f6(&full_record()).unwrap();
    let stamped = receive_now(f6.clone());
    assert_eq!(stamped.f6, f6);
    assert!(stamped.received.len() >= 20);
    assert!(stamped.received.contains('T'));
}

#[test]
fn probe_frame_reads_the_announced_length() {
    assert_eq!(probe_frame(&framed(full_record())), Ok(131));
    assert_eq!(probe_frame(&framed(bid_only_record())), Ok(41));
    assert_eq!(probe_frame(&bid_only_record()), Err(DecodeError::MalformedFrame));
    assert_eq!(probe_frame(&[0x1b, 0x00, 0x41]), Err(DecodeError::MalformedFrame));
    assert_eq!(probe_frame(&[0x1b, 0x00, 0x03, 0x01]), Err(DecodeError::MalformedFrame));
    assert_eq!(probe_frame(&[0x1b, 0x00, 0x00, 0x01]), Err(DecodeError::MalformedFrame));
    assert_eq!(probe_frame(&[0x1b, 0x00, 0x04, 0x01]), Ok(4));
}

#[test]
fn decode_frame_passes_over_other_formats() {
    let mut other = framed(full_record());
    other[4] = 0x01;
    assert_eq!(decode_frame(&other), Ok(None));
    assert_eq!(decode_frame(&[0x1b, 0x00, 0x04, 0x01]), Ok(None));
    let record = decode_frame(&framed(full_record())).unwrap().unwrap();
    assert_eq!(record.header, full_header());
    assert_eq!(decode_frame(&[0x1b, 0x00, 0x05, 0x01, 0x06]), Err(DecodeError::MalformedFrame));
}

#[test]
fn datagram_of_two_records_splits_in_two() {
    let first = framed(full_record());
    let second = framed(bid_only_record());
    let mut datagram = first.clone();
    datagram.extend_from_slice(&second);
    let out = split_datagram(&datagram);
    assert!(!out.malformed);
    assert_eq!(out.dropped, 0);
    assert_eq!(out.records, vec![bytes2f6(&first).unwrap(), bytes2f6(&second).unwrap()]);
    assert_eq!(out.records[0].header, full_header());
    assert_eq!(out.records[1].header, bid_only_header());
}

#[test]
fn datagram_of_one_record() {
    let out = split_datagram(&framed(bid_only_record()));
    assert!(!out.malformed);
    assert_eq!(out.dropped, 0);
    assert_eq!(out.records, vec![bytes2f6(&bid_only_record()).unwrap()]);
}

#[test]
fn empty_datagram_holds_nothing() {
    let out = split_datagram(&[]);
    assert!(!out.malformed);
    assert_eq!(out.dropped, 0);
    assert!(out.records.is_empty());
}

#[test]
fn datagram_skips_other_formats() {
    let mut other = framed(full_record());
    other[4] = 0x01;
    let mut datagram = other;
    datagram.extend_from_slice(&framed(bid_only_record()));
    let out = split_datagram(&datagram);
    assert!(!out.malformed);
    assert_eq!(out.dropped, 0);
    assert_eq!(out.records.len(), 1);
    assert_eq!(out.records[0].header, bid_only_header());
}

#[test]
fn datagram_cut_short_keeps_what_came_before() {
    let mut datagram = framed(full_record());
    datagram.extend_from_slice(&bid_only_record()[..20]);
    let out = split_datagram(&datagram);
    assert!(out.malformed);
    assert_eq!(out.dropped, 0);
    assert_eq!(out.records.len(), 1);
    assert_eq!(out.records[0].header, full_header());
    let out = split_datagram(&[0x1b, 0x00]);
    assert!(out.malformed);
    assert!(out.records.is_empty());
}

#[test]
fn datagram_drops_record_with_bad_symbol_and_goes_on() {
    let mut bad = framed(full_record());
    bad[10] = 0xc0;
    let mut datagram = bad;
    datagram.extend_from_slice(&framed(bid_only_record()));
    let out = split_datagram(&datagram);
    assert!(!out.malformed);
    assert_eq!(out.dropped, 1);
    assert_eq!(out.records.len(), 1);
    assert_eq!(out.records[0].header, bid_only_header());
}

#[test]
fn datagram_with_frame_too_short_for_its_groups_is_malformed() {
    let mut record = framed(bid_only_record());
    record[22] = 0xda;
    let out = split_datagram(&record);
    assert!(out.malformed);
    assert!(out.records.is_empty());
}

#[test]
fn sender_admitted_looks_through_the_list() {
    let admitted = [[10, 3, 0, 1], [10, 3, 0, 2]];
    assert!(sender_admitted([10, 3, 0, 1], &admitted));
    assert!(sender_admitted([10, 3, 0, 2], &admitted));
    assert!(!sender_admitted([10, 3, 0, 3], &admitted));
    assert!(!sender_admitted([1, 3, 0, 10], &admitted));
    assert!(!sender_admitted([10, 3, 0, 1], &[]));
}

#[test]
fn whole_record_type_is_comparable() {
    let left: F6 = bytes2f6(&full_record()).unwrap();
    let right: F6 = bytes2f6(&framed(full_record())).unwrap();
    assert_eq!(left, right);
    assert_ne!(left, bytes2f6(&bid_only_record()).unwrap());
}
