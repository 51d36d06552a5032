//! Packed-decimal (BCD) codec: one byte carries two decimal digits, one per
//! nibble, and multi-byte fields are big-endian.
use vstd::prelude::*;

verus! {

/// The number that one packed byte stands for: ten times the high nibble plus
/// the low nibble. A byte with a nibble above nine carries no number and
/// stands for zero.
pub open spec fn bcd_value(b: u8) -> nat {
    if b / 16 <= 9 && b % 16 <= 9 {
        ((b / 16) * 10 + b % 16) as nat
    } else {
        0
    }
}

/// The number that a big-endian run of packed bytes stands for.
pub open spec fn bcd_number(bytes: Seq<u8>) -> nat
    decreases bytes.len(),
{
    if bytes.len() == 0 {
        0
    } else {
        bcd_number(bytes.drop_last()) * 100 + bcd_value(bytes.last())
    }
}

/// One hundred to the power `k`: the number of values that `k` packed bytes
/// can tell apart.
pub open spec fn pow100(k: nat) -> nat
    decreases k,
{
    if k == 0 {
        1
    } else {
        100 * pow100((k - 1) as nat)
    }
}

/// The character of one decimal digit.
pub open spec fn digit_char(d: nat) -> char {
    ((48 + d % 10) as u8) as char
}

/// `n` written in decimal with exactly `width` digits, padded with zeros on
/// the left (and cut on the left where `n` has more digits).
pub open spec fn decimal_text(n: nat, width: nat) -> Seq<char>
    decreases width,
{
    if width == 0 {
        Seq::empty()
    } else {
        decimal_text(n / 10, (width - 1) as nat).push(digit_char(n % 10))
    }
}

/// Hour of a six-byte packed time.
pub open spec fn time_hour(t: Seq<u8>) -> nat {
    bcd_value(t[0])
}

/// Minute of a six-byte packed time.
pub open spec fn time_minute(t: Seq<u8>) -> nat {
    bcd_value(t[1])
}

/// Second of a six-byte packed time.
pub open spec fn time_second(t: Seq<u8>) -> nat {
    bcd_value(t[2])
}

/// Microsecond of a six-byte packed time.
pub open spec fn time_microsecond(t: Seq<u8>) -> nat {
    bcd_value(t[3]) * 10000 + bcd_value(t[4]) * 100 + bcd_value(t[5])
}

/// A six-byte packed time written as `HH:MM:SS.uuuuuu`.
pub open spec fn time_text(t: Seq<u8>) -> Seq<char> {
    decimal_text(time_hour(t), 2) + seq![':'] + decimal_text(time_minute(t), 2) + seq![':']
        + decimal_text(time_second(t), 2) + seq!['.'] + decimal_text(time_microsecond(t), 6)
}

/// Decodes one packed byte.
pub fn bcd2num(packbcd: u8) -> (num: u64)
    ensures
        num == bcd_value(packbcd),
        num <= 99,
        (packbcd >> 4) <= 9 && (packbcd & 0x0f) <= 9 ==> num == (packbcd >> 4) * 10 + (packbcd
            & 0x0f),
        (packbcd >> 4) > 9 || (packbcd & 0x0f) > 9 ==> num == 0,
{
    let high: u8 = packbcd >> 4;
    let low: u8 = packbcd & 0x0f;
    proof {
        lemma_bcd_value_by_nibbles(packbcd);
    }
    if high <= 9 && low <= 9 {
        (high * 10 + low) as u64
    } else {
        0
    }
}

/// A byte whose nibbles are both decimal digits stands for ten times its high
/// nibble plus its low nibble; any other byte stands for zero.
pub proof fn lemma_bcd_value_by_nibbles(b: u8)
    ensures
        (b >> 4) <= 9 && (b & 0x0f) <= 9 ==> bcd_value(b) == (b >> 4) * 10 + (b & 0x0f),
        (b >> 4) > 9 || (b & 0x0f) > 9 ==> bcd_value(b) == 0,
        bcd_value(b) <= 99,
{
    assert(b >> 4 == b / 16 && b & 0x0f == b % 16) by (bit_vector);
}

/// A packed number never decreases when more bytes follow.
pub proof fn lemma_bcd_number_prefix(bytes: Seq<u8>, i: int, j: int)
    requires
        0 <= i <= j <= bytes.len(),
    ensures
        bcd_number(bytes.take(i)) <= bcd_number(bytes.take(j)),
    decreases j - i,
{
    if i < j {
        lemma_bcd_number_prefix(bytes, i, j - 1);
        assert(bytes.take(j).drop_last() =~= bytes.take(j - 1));
    }
}

/// `k` packed bytes stand for a number below one hundred to the `k`.
pub proof fn lemma_bcd_number_bound(bytes: Seq<u8>)
    ensures
        bcd_number(bytes) < pow100(bytes.len()),
    decreases bytes.len(),
{
    if bytes.len() > 0 {
        lemma_bcd_number_bound(bytes.drop_last());
    }
}

/// Decodes a big-endian run of packed bytes.
pub fn bcdarr2num(packbcd_arr: &[u8]) -> (num: u64)
    requires
        bcd_number(packbcd_arr@) <= u64::MAX,
    ensures
        num == bcd_number(packbcd_arr@),
{
    let mut num: u64 = 0;
    let mut i: usize = 0;
    while i < packbcd_arr.len()
        invariant
            i <= packbcd_arr.len(),
            num == bcd_number(packbcd_arr@.take(i as int)),
            bcd_number(packbcd_arr@) <= u64::MAX,
        decreases packbcd_arr.len() - i,
    {
        let digit_pair: u64 = bcd2num(packbcd_arr[i]);
        proof {
            lemma_bcd_number_prefix(packbcd_arr@, i + 1, packbcd_arr@.len() as int);
            assert(packbcd_arr@.take(i + 1).drop_last() =~= packbcd_arr@.take(i as int));
            assert(packbcd_arr@.take(packbcd_arr@.len() as int) =~= packbcd_arr@);
        }
        num = num * 100 + digit_pair;
        i += 1;
    }
    proof {
        assert(packbcd_arr@.take(i as int) =~= packbcd_arr@);
    }
    num
}

/// One hundred to the power `k`, for the byte counts whose power fits.
fn pow100_exec(k: usize) -> (p: u64)
    requires
        k <= 9,
    ensures
        p == pow100(k as nat),
        p <= 1_000_000_000_000_000_000,
{
    let mut p: u64 = 1;
    let mut i: usize = 0;
    while i < k
        invariant
            i <= k <= 9,
            p == pow100(i as nat),
            p * pow100((9 - i) as nat) == pow100(9),
        decreases k - i,
    {
        proof {
            lemma_pow100_values();
            assert(pow100((9 - i) as nat) == 100 * pow100((9 - i - 1) as nat));
            assert(p * (100 * pow100((9 - i - 1) as nat)) == (p * 100) * pow100(
                (9 - i - 1) as nat,
            )) by (nonlinear_arith);
            assert(pow100((9 - i - 1) as nat) >= 1) by {
                lemma_pow100_positive((9 - i - 1) as nat);
            }
            assert(p * 100 <= (p * 100) * pow100((9 - i - 1) as nat)) by (nonlinear_arith)
                requires
                    pow100((9 - i - 1) as nat) >= 1,
            ;
        }
        p = p * 100;
        i += 1;
    }
    proof {
        lemma_pow100_values();
        lemma_pow100_positive((9 - i) as nat);
        assert(p <= p * pow100((9 - i) as nat)) by (nonlinear_arith)
            requires
                pow100((9 - i) as nat) >= 1,
        ;
    }
    p
}

/// A power of one hundred is at least one.
pub proof fn lemma_pow100_positive(k: nat)
    ensures
        pow100(k) >= 1,
    decreases k,
{
    if k > 0 {
        lemma_pow100_positive((k - 1) as nat);
    }
}

/// The powers of one hundred that the record's fields use.
pub proof fn lemma_pow100_values()
    ensures
        pow100(0) == 1,
        pow100(1) == 100,
        pow100(2) == 10_000,
        pow100(4) == 100_000_000,
        pow100(5) == 10_000_000_000,
        pow100(9) == 1_000_000_000_000_000_000,
{
    reveal_with_fuel(pow100, 10);
}

/// Splitting a packed run in two: the front counts one hundred times per byte
/// of the back.
pub proof fn lemma_bcd_number_split(bytes: Seq<u8>, k: int)
    requires
        0 <= k <= bytes.len(),
    ensures
        bcd_number(bytes) == bcd_number(bytes.take(k)) * pow100((bytes.len() - k) as nat)
            + bcd_number(bytes.skip(k)),
    decreases bytes.len(),
{
    if k == bytes.len() {
        assert(bytes.take(k) =~= bytes);
        assert(bytes.skip(k) =~= Seq::<u8>::empty());
        assert(pow100((bytes.len() - k) as nat) == 1);
        assert(bcd_number(bytes.skip(k)) == 0);
        let whole = bcd_number(bytes) as int;
        assert(whole * 1 + 0 == whole);
    } else {
        let front = bytes.drop_last();
        let back = bytes.skip(k);
        lemma_bcd_number_split(front, k);
        assert(front.take(k) =~= bytes.take(k));
        assert(front.skip(k) =~= back.drop_last());
        assert(back.last() == bytes.last());
        let a = bcd_number(bytes.take(k)) as int;
        let p = pow100((front.len() - k) as nat) as int;
        let c = bcd_number(front.skip(k)) as int;
        let last = bcd_value(bytes.last()) as int;
        assert(pow100((bytes.len() - k) as nat) == 100 * p);
        assert(bcd_number(front) == a * p + c);
        assert(bcd_number(bytes) == bcd_number(front) * 100 + last);
        assert(bcd_number(back) == c * 100 + last);
        assert((a * p + c) * 100 == a * (100 * p) + c * 100) by (nonlinear_arith);
    }
}

/// Decodes the last `i` bytes of a packed array, most significant first.
pub fn packbcd2num<const N: usize>(packbcd: [u8; N], i: usize) -> (num: u64)
    requires
        i <= N,
        i <= 10,
        bcd_number(packbcd@.skip(N - i)) <= u64::MAX,
    ensures
        num == bcd_number(packbcd@.skip(N - i)),
    decreases i,
{
    if i > 0 {
        let ghost tail = packbcd@.skip(N - i);
        proof {
            lemma_bcd_number_split(tail, 1);
            assert(tail.skip(1) =~= packbcd@.skip(N - (i - 1)));
            assert(tail.take(1) =~= seq![packbcd@[N - i]]);
            assert(seq![packbcd@[N - i]].drop_last() =~= Seq::<u8>::empty());
            assert(bcd_number(tail.take(1)) == bcd_value(packbcd@[N - i])) by {
                reveal_with_fuel(bcd_number, 2);
            }
            lemma_pow100_positive((i - 1) as nat);
        }
        let digit_pair: u64 = bcd2num(packbcd[N - i]);
        let rest: u64 = packbcd2num(packbcd, i - 1);
        if digit_pair == 0 {
            proof {
                assert(0 * pow100((i - 1) as nat) == 0) by (nonlinear_arith);
            }
            rest
        } else {
            proof {
                let p = pow100((i - 1) as nat);
                assert(p <= digit_pair * p) by (nonlinear_arith)
                    requires
                        digit_pair >= 1,
                ;
                if i == 10 {
                    lemma_pow100_values();
                    assert(digit_pair * p >= p);
                    assert(pow100(9) == 1_000_000_000_000_000_000);
                }
            }
            let scale: u64 = pow100_exec(i - 1);
            digit_pair * scale + rest
        }
    } else {
        proof {
            assert(packbcd@.skip(N - i) =~= Seq::<u8>::empty());
        }
        0
    }
}

/// The price in a five-byte packed field, in ten-thousandths: the field
/// carries four implied decimal places.
pub fn bcd2price(packbcd_arr: [u8; 5]) -> (price: u64)
    ensures
        price == bcd_number(packbcd_arr@),
        price < 10_000_000_000,
{
    proof {
        lemma_bcd_number_bound(packbcd_arr@);
        lemma_pow100_values();
    }
    bcdarr2num(packbcd_arr.as_slice())
}

/// The volume in a four-byte packed field.
pub fn bcd2volume(packbcd_arr: [u8; 4]) -> (volume: u64)
    ensures
        volume == bcd_number(packbcd_arr@),
        volume < 100_000_000,
{
    proof {
        lemma_bcd_number_bound(packbcd_arr@);
        lemma_pow100_values();
    }
    bcdarr2num(packbcd_arr.as_slice())
}

/// The one-character text of a decimal digit.
fn digit_str(d: u8) -> (text: &'static str)
    requires
        d <= 9,
    ensures
        text@ == seq![digit_char(d as nat)],
{
    proof {
        reveal_strlit("0");
        reveal_strlit("1");
        reveal_strlit("2");
        reveal_strlit("3");
        reveal_strlit("4");
        reveal_strlit("5");
        reveal_strlit("6");
        reveal_strlit("7");
        reveal_strlit("8");
        reveal_strlit("9");
    }
    let text = match d {
        0 => "0",
        1 => "1",
        2 => "2",
        3 => "3",
        4 => "4",
        5 => "5",
        6 => "6",
        7 => "7",
        8 => "8",
        _ => "9",
    };
    assert(text@ =~= seq![digit_char(d as nat)]);
    text
}

/// Writes `n` in decimal with exactly `width` digits.
pub fn pad_decimal(n: u64, width: usize) -> (text: String)
    ensures
        text@ == decimal_text(n as nat, width as nat),
    decreases width,
{
    if width == 0 {
        String::new()
    } else {
        let mut text = pad_decimal(n / 10, width - 1);
        text.append(digit_str((n % 10) as u8));
        assert(text@ =~= decimal_text(n as nat, width as nat));
        text
    }
}

/// The two decimal digits of one packed byte, as text.
pub fn bcd2str(packbcd: u8) -> (text: String)
    ensures
        text@ == decimal_text(bcd_value(packbcd), 2),
        text@.len() == 2,
{
    proof {
        lemma_decimal_text_len(bcd_value(packbcd), 2);
    }
    pad_decimal(bcd2num(packbcd), 2)
}

/// A padded decimal text has as many characters as asked for.
pub proof fn lemma_decimal_text_len(n: nat, width: nat)
    ensures
        decimal_text(n, width).len() == width,
    decreases width,
{
    if width > 0 {
        lemma_decimal_text_len(n / 10, (width - 1) as nat);
    }
}

/// The last two digits of a padded decimal text are those of the number
/// modulo one hundred; the digits before them are those of the hundreds.
pub proof fn lemma_decimal_text_low_pair(n: nat, width: nat)
    ensures
        decimal_text(n, width + 2) == decimal_text(n / 100, width) + decimal_text(n % 100, 2),
{
    let low = n % 100;
    assert(n / 10 / 10 == n / 100);
    assert(n / 10 % 10 == low / 10 % 10);
    assert(n % 10 == low % 10);
    let front = decimal_text(n / 100, width);
    assert(decimal_text(n, width + 2) == decimal_text(n / 10, width + 1).push(
        digit_char(n % 10),
    ));
    assert(decimal_text(n / 10, width + 1) == front.push(digit_char(n / 10 % 10)));
    assert(decimal_text(low, 2) == decimal_text(low / 10, 1).push(digit_char(low % 10)));
    assert(decimal_text(low / 10, 1) == decimal_text(low / 10 / 10, 0).push(
        digit_char(low / 10 % 10),
    ));
    assert(decimal_text(low / 10 / 10, 0) =~= Seq::<char>::empty());
    assert(decimal_text(n, width + 2) =~= front + decimal_text(low, 2));
}

/// Three numbers below one hundred, written side by side with two digits
/// each, read as the six digits of the number they make together.
pub proof fn lemma_decimal_text_pairs(a: nat, b: nat, c: nat)
    requires
        a < 100,
        b < 100,
        c < 100,
    ensures
        decimal_text(a * 10000 + b * 100 + c, 6) == decimal_text(a, 2) + decimal_text(b, 2)
            + decimal_text(c, 2),
{
    let n = a * 10000 + b * 100 + c;
    let upper = a * 100 + b;
    assert(n / 100 == upper && n % 100 == c);
    assert(upper / 100 == a && upper % 100 == b);
    lemma_decimal_text_low_pair(n, 4);
    lemma_decimal_text_low_pair(upper, 2);
    lemma_decimal_text_low_pair(a, 0);
    assert(a / 100 == 0 && a % 100 == a);
    assert(decimal_text(0, 0) =~= Seq::<char>::empty());
    assert(decimal_text(a, 2) =~= decimal_text(0, 0) + decimal_text(a, 2));
}

/// A six-byte packed time as `HH:MM:SS.uuuuuu`, two digits per byte.
pub fn bcd2time(packbcd_arr: [u8; 6]) -> (text: String)
    ensures
        text@ == time_text(packbcd_arr@),
{
    proof {
        reveal_strlit(":");
        reveal_strlit(".");
        lemma_decimal_text_pairs(
            bcd_value(packbcd_arr@[3]),
            bcd_value(packbcd_arr@[4]),
            bcd_value(packbcd_arr@[5]),
        );
    }
    let mut text = bcd2str(packbcd_arr[0]);
    text.append(":");
    text.append(bcd2str(packbcd_arr[1]).as_str());
    text.append(":");
    text.append(bcd2str(packbcd_arr[2]).as_str());
    text.append(".");
    text.append(bcd2str(packbcd_arr[3]).as_str());
    text.append(bcd2str(packbcd_arr[4]).as_str());
    text.append(bcd2str(packbcd_arr[5]).as_str());
    assert(text@ =~= time_text(packbcd_arr@));
    text
}

/// The six packed bytes of a record's time: hour, minute, second and three
/// bytes of microseconds.
#[derive(Debug, PartialEq, Eq, Clone, Copy)]
pub struct TwExMdTimeu6 {
    pub time: [u8; 6],
}

impl TwExMdTimeu6 {
    /// Wraps the six packed bytes.
    pub fn new(time: [u8; 6]) -> (t: Self)
        ensures
            t.time == time,
    {
        TwExMdTimeu6 { time }
    }

    /// The first byte as it stands on the wire, not decoded.
    pub fn hraw(&self) -> (raw: u8)
        ensures
            raw == self.time@[0],
    {
        self.time[0]
    }

    /// The hour: the first byte, decoded.
    pub fn hour(&self) -> (hour: u8)
        ensures
            hour == time_hour(self.time@),
            hour <= 99,
    {
        bcd2num(self.time[0]) as u8
    }

    /// The minute: the second byte, decoded.
    pub fn minute(&self) -> (minute: u8)
        ensures
            minute == time_minute(self.time@),
            minute <= 99,
    {
        bcd2num(self.time[1]) as u8
    }

    /// The second: the third byte, decoded.
    pub fn second(&self) -> (second: u8)
        ensures
            second == time_second(self.time@),
            second <= 99,
    {
        bcd2num(self.time[2]) as u8
    }

    /// The microsecond: the last three bytes, decoded as one six-digit number.
    pub fn microsecond(&self) -> (microsecond: u64)
        ensures
            microsecond == time_microsecond(self.time@),
            microsecond <= 999_999,
    {
        bcd2num(self.time[3]) * 10000 + bcd2num(self.time[4]) * 100 + bcd2num(self.time[5])
    }

    /// The time as `HH:MM:SS.uuuuuu`, written from the decoded numbers.
    pub fn to_string(&self) -> (text: String)
        ensures
            text@ == time_text(self.time@),
    {
        proof {
            reveal_strlit(":");
            reveal_strlit(".");
        }
        let mut text = pad_decimal(self.hour() as u64, 2);
        text.append(":");
        text.append(pad_decimal(self.minute() as u64, 2).as_str());
        text.append(":");
        text.append(pad_decimal(self.second() as u64, 2).as_str());
        text.append(".");
        text.append(pad_decimal(self.microsecond(), 6).as_str());
        assert(text@ =~= time_text(self.time@));
        text
    }
}

/// The packed byte of a number below one hundred.
pub open spec fn bcd_byte(n: nat) -> u8 {
    ((n / 10 % 10) * 16 + n % 10) as u8
}

/// `n` packed into `width` bytes, most significant first (cut on the left
/// where `n` needs more).
pub open spec fn bcd_encode(n: nat, width: nat) -> Seq<u8>
    decreases width,
{
    if width == 0 {
        Seq::empty()
    } else {
        bcd_encode(n / 100, (width - 1) as nat).push(bcd_byte(n % 100))
    }
}

/// Decoding gives back every number that was packed into enough bytes.
pub proof fn lemma_decode_encode(n: nat, width: nat)
    requires
        n < pow100(width),
    ensures
        bcd_encode(n, width).len() == width,
        bcd_number(bcd_encode(n, width)) == n,
    decreases width,
{
    if width > 0 {
        let front = bcd_encode(n / 100, (width - 1) as nat);
        lemma_decode_encode(n / 100, (width - 1) as nat);
        assert(front.push(bcd_byte(n % 100)).drop_last() =~= front);
        let m = n % 100;
        assert(bcd_byte(m) / 16 == m / 10 && bcd_byte(m) % 16 == m % 10);
    }
}

/// A price below 10^10 ten-thousandths, packed into five bytes, decodes to
/// itself; so does a volume below 10^8 packed into four bytes.
pub proof fn lemma_price_volume_round_trip(price: nat, volume: nat)
    requires
        price < 10_000_000_000,
        volume < 100_000_000,
    ensures
        bcd_encode(price, 5).len() == 5,
        bcd_number(bcd_encode(price, 5)) == price,
        bcd_encode(volume, 4).len() == 4,
        bcd_number(bcd_encode(volume, 4)) == volume,
{
    lemma_pow100_values();
    lemma_decode_encode(price, 5);
    lemma_decode_encode(volume, 4);
}

} // verus!
