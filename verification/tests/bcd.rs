use tw_quote::bcd::{
    bcd2num, bcd2price, bcd2str, bcd2time, bcd2volume, bcdarr2num, packbcd2num, pad_decimal,
    TwExMdTimeu6,
};

#[test]
fn bcd2str_test() {
    assert_eq!("80", bcd2str(128));
}

#[test]
fn bcd2str_of_two_digits() {
    assert_eq!("12", bcd2str(18));
    assert_eq!("80", bcd2str(128));
    assert_eq!("00", bcd2str(0));
    assert_eq!("07", bcd2str(0x07));
    assert_eq!("99", bcd2str(0x99));
}

#[test]
fn bcd2num_test() {
    assert_eq!(80, bcd2num(128));
}

#[test]
fn bcd2num_of_two_digits() {
    assert_eq!(12, bcd2num(18));
    assert_eq!(80, bcd2num(128));
}

#[test]
fn bcd2num_is_nibble_arithmetic_on_decimal_bytes() {
    for b in 0..=255u8 {
        let (high, low) = (b >> 4, b & 0x0f);
        if high <= 9 && low <= 9 {
            assert_eq!(bcd2num(b), (high * 10 + low) as u64);
        } else {
            assert_eq!(bcd2num(b), 0);
            assert_eq!(bcd2str(b), "00");
        }
    }
}

#[test]
fn bcd2price_test() {
    assert_eq!(85.2, bcd2price([0, 0, 133, 32, 0]) as f64 / 10000.);
}

#[test]
fn bcd2price_in_ten_thousandths() {
    assert_eq!(852_000, bcd2price([0, 0, 133, 32, 0]));
    assert_eq!(8520., bcd2price([0, 133, 32, 0, 0]) as f64 / 10000.);
    assert_eq!(9_999_999_999, bcd2price([0x99, 0x99, 0x99, 0x99, 0x99]));
    assert_eq!(0, bcd2price([0; 5]));
}

#[test]
fn bcd2volume_test() {
    assert_eq!(2, bcd2volume([0, 0, 0, 2]));
    assert_eq!(2020202, bcd2volume([2, 2, 2, 2]));
    assert_eq!(2028520, bcd2volume([2, 2, 133, 32]));
}

#[test]
fn bcd2volume_of_packed_bytes() {
    assert_eq!(2, bcd2volume([0, 0, 0, 2]));
    assert_eq!(8520, bcd2volume([0, 0, 133, 32]));
    assert_eq!(99_999_999, bcd2volume([0x99, 0x99, 0x99, 0x99]));
}

#[test]
fn bcdarr2num_is_big_endian() {
    assert_eq!(0, bcdarr2num(&[]));
    assert_eq!(131, bcdarr2num(&[0x01, 0x31]));
    assert_eq!(109359, bcdarr2num(&[0x00, 0x10, 0x93, 0x59]));
    assert_eq!(123_456_789_012_345_678, bcdarr2num(&[0x12, 0x34, 0x56, 0x78, 0x90, 0x12, 0x34, 0x56, 0x78]));
    assert_eq!(100, bcdarr2num(&[0x01, 0xab]));
}

#[test]
fn packbcd2num_test() {
    assert_eq!(2, packbcd2num([0, 0, 0, 2], 4));
    assert_eq!(8520, packbcd2num([0, 0, 133, 32], 4));
    assert_eq!(28520, packbcd2num([0, 2, 133, 32], 4));
    assert_eq!(2028520, packbcd2num([2, 2, 133, 32], 4));
    assert_eq!(202028520, packbcd2num([2, 2, 2, 133, 32], 5));
}

#[test]
fn packbcd2num_reads_the_last_bytes() {
    assert_eq!(0, packbcd2num([0x12, 0x34], 0));
    assert_eq!(34, packbcd2num([0x12, 0x34], 1));
    assert_eq!(1234, packbcd2num([0x12, 0x34], 2));
    assert_eq!(
        18_000_000_000_000_000_000,
        packbcd2num([0x18, 0, 0, 0, 0, 0, 0, 0, 0, 0], 10)
    );
}

fn pack(mut value: u64, width: usize) -> Vec<u8> {
    let mut bytes = vec![0u8; width];
    for slot in bytes.iter_mut().rev() {
        let pair = (value % 100) as u8;
        *slot = (pair / 10) << 4 | (pair % 10);
        value /= 100;
    }
    bytes
}

#[test]
fn price_and_volume_come_back_from_their_packed_form() {
    for &price in &[0u64, 1, 99, 100, 18_200, 852_000, 1_234_567_890, 9_999_999_999] {
        let packed: [u8; 5] = pack(price, 5).try_into().unwrap();
        assert_eq!(bcd2price(packed), price);
        assert!((bcd2price(packed) as f64 / 10000. - price as f64 / 10000.).abs() < 1e-9);
    }
    for &volume in &[0u64, 1, 6, 8520, 2_028_520, 99_999_999] {
        let packed: [u8; 4] = pack(volume, 4).try_into().unwrap();
        assert_eq!(bcd2volume(packed), volume);
        assert_eq!(packbcd2num(packed, 4), volume);
        assert_eq!(bcdarr2num(&packed), volume);
    }
}

#[test]
fn bcd2time_writes_two_digits_a_byte() {
    assert_eq!(bcd2time([0x09, 0x00, 0x00, 0x14, 0x08, 0x66]), "09:00:00.140866");
    assert_eq!(bcd2time([0x08, 0x30, 0x00, 0x92, 0x09, 0x15]), "08:30:00.920915");
    assert_eq!(bcd2time([0x13, 0x30, 0x59, 0x00, 0x00, 0x01]), "13:30:59.000001");
    assert_eq!(bcd2time([0xff, 0x0a, 0xa0, 0x99, 0x99, 0x99]), "00:00:00.999999");
}

#[test]
fn time_fields_and_text() {
    let time = TwExMdTimeu6::new([0x09, 0x00, 0x00, 0x14, 0x08, 0x66]);
    assert_eq!(time.hour(), 9);
    assert_eq!(time.minute(), 0);
    assert_eq!(time.second(), 0);
    assert_eq!(time.microsecond(), 140866);
    assert_eq!(time.to_string(), "09:00:00.140866");
    let time = TwExMdTimeu6::new([0x23, 0x59, 0x58, 0x99, 0x99, 0x99]);
    assert_eq!((time.hour(), time.minute(), time.second()), (23, 59, 58));
    assert_eq!(time.microsecond(), 999_999);
    assert_eq!(time.to_string(), bcd2time(time.time));
}

#[test]
fn pad_decimal_pads_and_cuts_on_the_left() {
    assert_eq!(pad_decimal(7, 2), "07");
    assert_eq!(pad_decimal(140866, 6), "140866");
    assert_eq!(pad_decimal(42, 6), "000042");
    assert_eq!(pad_decimal(12345, 2), "45");
    assert_eq!(pad_decimal(5, 0), "");
}
