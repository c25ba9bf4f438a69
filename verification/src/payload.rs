//! The outbound payload: one line of text that names the three angles.
//!
//! A payload is an object with the fields `yaw`, `pitch` and `roll`, in that
//! order and without white space. Each value is a whole number of degrees
//! written with one decimal place, which is always zero, as in
//! `{"yaw":270.0,"pitch":-5.0,"roll":0.0}`. A number has no leading zero and
//! zero has no sign, so that an orientation has one text and a text at most
//! one orientation.

use vstd::prelude::*;
use crate::angles::OrientationResult;
use crate::error::ConversionError;

verus! {

/// The character `0`; the other digits follow it.
pub const ZERO: u8 = 0x30;

/// The character `-`.
pub const MINUS: u8 = 0x2d;

/// The character `.`.
pub const POINT: u8 = 0x2e;

/// The character `}`.
pub const CLOSING_BRACE: u8 = 0x7d;

/// The text `{"yaw":`, which opens a payload.
pub open spec fn yaw_key() -> Seq<u8> {
    seq![0x7bu8, 0x22, 0x79, 0x61, 0x77, 0x22, 0x3a]
}

/// The text `,"pitch":`.
pub open spec fn pitch_key() -> Seq<u8> {
    seq![0x2cu8, 0x22, 0x70, 0x69, 0x74, 0x63, 0x68, 0x22, 0x3a]
}

/// The text `,"roll":`.
pub open spec fn roll_key() -> Seq<u8> {
    seq![0x2cu8, 0x22, 0x72, 0x6f, 0x6c, 0x6c, 0x22, 0x3a]
}

/// The character that stands for a digit.
pub open spec fn digit(d: int) -> u8
    recommends
        0 <= d <= 9,
{
    (ZERO + d) as u8
}

/// Whether a character is a digit.
pub open spec fn is_digit(c: u8) -> bool {
    ZERO <= c <= ZERO + 9
}

/// The decimal numeral of a natural number, without leading zeros.
pub open spec fn decimal(n: nat) -> Seq<u8>
    decreases n,
{
    if n < 10 {
        seq![digit(n as int)]
    } else {
        decimal(n / 10).push(digit((n % 10) as int))
    }
}

/// A whole number as the payload writes it: a minus sign where it is
/// negative, its decimal numeral, a point and a zero.
pub open spec fn number_text(n: int) -> Seq<u8> {
    if n < 0 {
        seq![MINUS] + decimal((-n) as nat) + seq![POINT, ZERO]
    } else {
        decimal(n as nat) + seq![POINT, ZERO]
    }
}

/// The numbers that a payload can hold: those of at most three digits.
pub open spec fn writable(n: int) -> bool {
    -1000 < n < 1000
}

/// The text of an orientation.
pub open spec fn payload_text(orientation: OrientationResult) -> Seq<u8> {
    yaw_key() + number_text(orientation.yaw as int) + pitch_key() + number_text(
        orientation.pitch as int,
    ) + roll_key() + number_text(orientation.roll as int) + seq![CLOSING_BRACE]
}

/// The text is the payload of the orientation, and the orientation is in
/// range.
pub open spec fn is_payload_of(text: Seq<u8>, orientation: OrientationResult) -> bool {
    orientation.valid() && text == payload_text(orientation)
}

/// The orientation that a text is the payload of, if it is one.
pub open spec fn decoded(text: Seq<u8>) -> Option<OrientationResult> {
    if exists|o: OrientationResult| is_payload_of(text, o) {
        Some(choose|o: OrientationResult| is_payload_of(text, o))
    } else {
        None
    }
}

/// The text `part` stands in `text` from position `at` on.
pub open spec fn stands_at(text: Seq<u8>, at: int, part: Seq<u8>) -> bool {
    &&& 0 <= at
    &&& at + part.len() <= text.len()
    &&& text.subrange(at, at + part.len()) == part
}

/// The numeral of a number of at most three digits, digit by digit.
pub proof fn lemma_decimal_digits(n: nat)
    requires
        n < 1000,
    ensures
        n < 10 ==> decimal(n) == seq![digit(n as int)],
        10 <= n < 100 ==> decimal(n) == seq![digit(n as int / 10), digit(n as int % 10)],
        100 <= n ==> decimal(n) == seq![
            digit(n as int / 100),
            digit(n as int / 10 % 10),
            digit(n as int % 10),
        ],
{
    reveal_with_fuel(decimal, 3);
    if n < 10 {
    } else if n < 100 {
        assert(decimal(n) =~= seq![digit(n as int / 10), digit(n as int % 10)]);
    } else {
        assert(n / 10 / 10 == n / 100);
        assert(decimal(n) =~= seq![
            digit(n as int / 100),
            digit(n as int / 10 % 10),
            digit(n as int % 10),
        ]);
    }
}

/// The text that opens a payload.
fn opening() -> (key: [u8; 7])
    ensures
        key@ == yaw_key(),
{
    let key: [u8; 7] = [0x7b, 0x22, 0x79, 0x61, 0x77, 0x22, 0x3a];
    assert(key@ =~= yaw_key());
    key
}

/// The text between the yaw and the pitch.
fn before_pitch() -> (key: [u8; 9])
    ensures
        key@ == pitch_key(),
{
    let key: [u8; 9] = [0x2c, 0x22, 0x70, 0x69, 0x74, 0x63, 0x68, 0x22, 0x3a];
    assert(key@ =~= pitch_key());
    key
}

/// The text between the pitch and the roll.
fn before_roll() -> (key: [u8; 8])
    ensures
        key@ == roll_key(),
{
    let key: [u8; 8] = [0x2c, 0x22, 0x72, 0x6f, 0x6c, 0x6c, 0x22, 0x3a];
    assert(key@ =~= roll_key());
    key
}

/// Appends `part` to `out`.
fn append(out: &mut Vec<u8>, part: &[u8])
    ensures
        final(out)@ == old(out)@ + part@,
{
    let mut i: usize = 0;
    while i < part.len()
        invariant
            i <= part.len(),
            out@ == old(out)@ + part@.subrange(0, i as int),
        decreases part.len() - i,
    {
        out.push(part[i]);
        i += 1;
    }
    assert(part@.subrange(0, part.len() as int) == part@);
}

/// Appends the text of a number to `out`.
fn append_number(out: &mut Vec<u8>, n: i16)
    requires
        writable(n as int),
    ensures
        final(out)@ == old(out)@ + number_text(n as int),
{
    let magnitude: u16 = if n < 0 {
        out.push(MINUS);
        (-n) as u16
    } else {
        n as u16
    };
    if magnitude >= 100 {
        out.push(ZERO + (magnitude / 100) as u8);
    }
    if magnitude >= 10 {
        out.push(ZERO + (magnitude / 10 % 10) as u8);
    }
    out.push(ZERO + (magnitude % 10) as u8);
    out.push(POINT);
    out.push(ZERO);
    proof {
        lemma_decimal_digits(magnitude as nat);
        assert(out@ =~= old(out)@ + number_text(n as int));
    }
}

/// Writes an orientation as a payload. An orientation with a field out of
/// range has no payload, and nothing is written for it.
pub fn encode(orientation: &OrientationResult) -> (outcome: Result<Vec<u8>, ConversionError>)
    ensures
        match outcome {
            Ok(payload) => orientation.valid() && payload@ == payload_text(*orientation),
            Err(reason) => !orientation.valid() && reason == ConversionError::EncodingFailure,
        },
{
    if !orientation.is_valid() {
        return Err(ConversionError::EncodingFailure);
    }
    let mut out: Vec<u8> = Vec::new();
    append(&mut out, &opening());
    append_number(&mut out, orientation.yaw);
    append(&mut out, &before_pitch());
    append_number(&mut out, orientation.pitch);
    append(&mut out, &before_roll());
    append_number(&mut out, orientation.roll);
    out.push(CLOSING_BRACE);
    assert(out@ =~= payload_text(*orientation));
    Ok(out)
}

/// Where a text stands in another, the two agree character by character.
pub proof fn lemma_stands_at_characters(text: Seq<u8>, at: int, part: Seq<u8>)
    requires
        stands_at(text, at, part),
    ensures
        forall|i: int| 0 <= i < part.len() ==> text[at + i] == #[trigger] part[i],
{
    assert forall|i: int| 0 <= i < part.len() implies text[at + i] == #[trigger] part[i] by {
        assert(text.subrange(at, at + part.len())[i] == text[at + i]);
    }
}

/// Whether `part` stands in `text` from position `at` on.
fn stands_here(text: &[u8], at: usize, part: &[u8]) -> (found: bool)
    requires
        at <= text.len(),
    ensures
        found == stands_at(text@, at as int, part@),
{
    if part.len() > text.len() - at {
        return false;
    }
    let mut i: usize = 0;
    while i < part.len()
        invariant
            i <= part.len(),
            at + part.len() <= text.len(),
            forall|j: int| 0 <= j < i ==> text@[at + j] == part@[j],
        decreases part.len() - i,
    {
        if text[at + i] != part[i] {
            proof {
                if stands_at(text@, at as int, part@) {
                    lemma_stands_at_characters(text@, at as int, part@);
                    assert(text@[at + i] == part@[i as int]);
                }
            }
            return false;
        }
        i += 1;
    }
    assert(text@.subrange(at as int, at + part.len()) =~= part@);
    true
}

/// How many of the characters from position `from` on are digits, counted no
/// further than the fourth.
spec fn digit_run(text: Seq<u8>, from: int) -> int {
    if !(0 <= from < text.len() && is_digit(text[from])) {
        0
    } else if !(from + 1 < text.len() && is_digit(text[from + 1])) {
        1
    } else if !(from + 2 < text.len() && is_digit(text[from + 2])) {
        2
    } else if !(from + 3 < text.len() && is_digit(text[from + 3])) {
        3
    } else {
        4
    }
}

/// The number that `count` digits from position `from` on denote.
spec fn digits_value(text: Seq<u8>, from: int, count: int) -> int {
    if count == 1 {
        text[from] - ZERO
    } else if count == 2 {
        10 * (text[from] - ZERO) + (text[from + 1] - ZERO)
    } else {
        100 * (text[from] - ZERO) + 10 * (text[from + 1] - ZERO) + (text[from + 2] - ZERO)
    }
}

/// What a reader that goes through `text` from position `at` on finds: a
/// number and the position behind it, or nothing.
spec fn scanned(text: Seq<u8>, at: int) -> Option<(int, int)> {
    let negative = 0 <= at < text.len() && text[at] == MINUS;
    let from = if negative { at + 1 } else { at };
    let count = digit_run(text, from);
    let value = digits_value(text, from, count);
    let behind = from + count;
    if 1 <= count <= 3 && (count > 1 ==> text[from] != ZERO) && !(negative && value == 0) && behind
        + 2 <= text.len() && text[behind] == POINT && text[behind + 1] == ZERO {
        Some((if negative { -value } else { value }, behind + 2))
    } else {
        None
    }
}

/// The numeral of the number that one to three digits denote, the first of
/// them not zero where there are more, is made of those digits.
proof fn lemma_decimal_of_digits(text: Seq<u8>, from: int, count: int)
    requires
        1 <= count <= 3,
        0 <= from,
        from + count <= text.len(),
        forall|k: int| from <= k < from + count ==> is_digit(#[trigger] text[k]),
        count > 1 ==> text[from] != ZERO,
    ensures
        0 <= digits_value(text, from, count) < 1000,
        decimal(digits_value(text, from, count) as nat) == text.subrange(from, from + count),
{
    let value: int = digits_value(text, from, count);
    let numeral: Seq<u8> = text.subrange(from, from + count);
    let a: int = text[from] - ZERO;
    assert(is_digit(text[from]));
    assert(numeral[0] == digit(a));
    if count == 1 {
        lemma_decimal_digits(value as nat);
        assert(decimal(value as nat) =~= numeral);
    } else if count == 2 {
        let b: int = text[from + 1] - ZERO;
        assert(is_digit(text[from + 1]));
        assert(value == 10 * a + b);
        assert(value / 10 == a && value % 10 == b);
        assert(numeral[1] == digit(b));
        lemma_decimal_digits(value as nat);
        assert(decimal(value as nat) =~= numeral);
    } else {
        let b: int = text[from + 1] - ZERO;
        let c: int = text[from + 2] - ZERO;
        assert(is_digit(text[from + 1]));
        assert(is_digit(text[from + 2]));
        assert(value == 100 * a + 10 * b + c);
        assert(value / 100 == a && value / 10 % 10 == b && value % 10 == c);
        assert(numeral[1] == digit(b));
        assert(numeral[2] == digit(c));
        lemma_decimal_digits(value as nat);
        assert(decimal(value as nat) =~= numeral);
    }
}

/// What the reader finds is a number that stands there.
proof fn lemma_scanned_stands(text: Seq<u8>, at: int)
    requires
        0 <= at <= text.len(),
    ensures
        scanned(text, at) matches Some((n, end)) ==> writable(n) && stands_at(
            text,
            at,
            number_text(n),
        ) && end == at + number_text(n).len(),
{
    if let Some((n, end)) = scanned(text, at) {
        let negative: bool = text[at] == MINUS;
        let from: int = if negative { at + 1 } else { at };
        let count: int = digit_run(text, from);
        let value: int = digits_value(text, from, count);
        lemma_decimal_of_digits(text, from, count);
        let numeral: Seq<u8> = text.subrange(from, from + count);
        assert(numeral.len() == count);
        if negative {
            assert(number_text(n) == seq![MINUS] + numeral + seq![POINT, ZERO]);
        } else {
            assert(number_text(n) == numeral + seq![POINT, ZERO]);
        }
        assert(text.subrange(at, end) =~= number_text(n));
    }
}

/// The numeral of a number of at most three digits: how long it is, that it
/// is made of digits, that it does not begin with a zero where it has more
/// than one, and that the digits denote the number.
proof fn lemma_decimal_shape(m: nat)
    requires
        m < 1000,
    ensures
        ({
            let numeral = decimal(m);
            let count: int = if m < 10 { 1 } else if m < 100 { 2 } else { 3 };
            &&& numeral.len() == count
            &&& forall|k: int| 0 <= k < count ==> is_digit(#[trigger] numeral[k])
            &&& count > 1 ==> numeral[0] != ZERO
            &&& m == digits_value(numeral, 0, count)
        }),
{
    lemma_decimal_digits(m);
    let numeral = decimal(m);
    if m < 10 {
        assert(numeral[0] == digit(m as int));
    } else if m < 100 {
        let a: int = m as int / 10;
        let b: int = m as int % 10;
        assert(1 <= a <= 9 && 0 <= b <= 9 && m == 10 * a + b);
        assert(numeral[0] == digit(a) && numeral[1] == digit(b));
    } else {
        let a: int = m as int / 100;
        let b: int = m as int / 10 % 10;
        let c: int = m as int % 10;
        assert(1 <= a <= 9 && 0 <= b <= 9 && 0 <= c <= 9);
        assert(m == 100 * a + 10 * b + c);
        assert(numeral[0] == digit(a) && numeral[1] == digit(b) && numeral[2] == digit(c));
    }
}

/// The text of a number: its sign, if any, then its digits, which end at the
/// point.
proof fn lemma_number_text_shape(n: int)
    requires
        writable(n),
    ensures
        ({
            let shown = number_text(n);
            let sign: int = if n < 0 { 1 } else { 0 };
            let magnitude: int = if n < 0 { -n } else { n };
            let count: int = if magnitude < 10 { 1 } else if magnitude < 100 { 2 } else { 3 };
            &&& shown.len() == sign + count + 2
            &&& n < 0 ==> shown[0] == MINUS
            &&& forall|k: int| sign <= k < sign + count ==> is_digit(#[trigger] shown[k])
            &&& count > 1 ==> shown[sign] != ZERO
            &&& shown[sign + count] == POINT
            &&& shown[sign + count + 1] == ZERO
            &&& magnitude == digits_value(shown, sign, count)
        }),
{
    let shown = number_text(n);
    let sign: int = if n < 0 { 1 } else { 0 };
    let magnitude: nat = if n < 0 { (-n) as nat } else { n as nat };
    let count: int = if magnitude < 10 { 1 } else if magnitude < 100 { 2 } else { 3 };
    let numeral = decimal(magnitude);
    lemma_decimal_shape(magnitude);
    assert forall|k: int| sign <= k < sign + count implies is_digit(#[trigger] shown[k]) by {
        assert(shown[k] == numeral[k - sign]);
    }
    assert(shown[sign] == numeral[0]);
    if count >= 2 {
        assert(shown[sign + 1] == numeral[1]);
    }
    if count >= 3 {
        assert(shown[sign + 2] == numeral[2]);
    }
}

/// A number that stands in the text is what the reader finds.
proof fn lemma_standing_is_scanned(text: Seq<u8>, at: int, n: int)
    requires
        writable(n),
        stands_at(text, at, number_text(n)),
    ensures
        scanned(text, at) == Some((n, at + number_text(n).len())),
{
    let shown = number_text(n);
    let sign: int = if n < 0 { 1 } else { 0 };
    let magnitude: int = if n < 0 { -n } else { n };
    let count: int = if magnitude < 10 { 1 } else if magnitude < 100 { 2 } else { 3 };
    lemma_number_text_shape(n);
    lemma_stands_at_characters(text, at, shown);
    assert forall|k: int| 0 <= k < shown.len() implies text[at + k] == shown[k] by {
        assert(text[at + k] == shown[k]);
    }
    assert(text[at] == shown[0]);
    if n >= 0 {
        assert(is_digit(shown[0]));
    }
    let from: int = at + sign;
    assert(is_digit(shown[sign]));
    assert(text[from] == shown[sign]);
    assert(text[from + count] == shown[sign + count]);
    assert(text[from + count + 1] == shown[sign + count + 1]);
    if count >= 2 {
        assert(is_digit(shown[sign + 1]));
        assert(text[from + 1] == shown[sign + 1]);
    }
    if count >= 3 {
        assert(is_digit(shown[sign + 2]));
        assert(text[from + 2] == shown[sign + 2]);
    }
    assert(digit_run(text, from) == count);
    assert(digits_value(text, from, count) == magnitude);
}

/// Reads the number that stands in `text` from position `at` on, and the
/// position behind it.
fn read_number(text: &[u8], at: usize) -> (found: Option<(i16, usize)>)
    requires
        at <= text.len(),
    ensures
        match found {
            Some((n, end)) => scanned(text@, at as int) == Some((n as int, end as int)),
            None => scanned(text@, at as int) is None,
        },
{
    let len: usize = text.len();
    let mut i: usize = at;
    let negative: bool = i < len && text[i] == MINUS;
    if negative {
        i += 1;
    }
    if !(i < len && ZERO <= text[i] && text[i] <= ZERO + 9) {
        return None;
    }
    let mut value: i16 = (text[i] - ZERO) as i16;
    let mut canonical: bool = true;
    i += 1;
    if i < len && ZERO <= text[i] && text[i] <= ZERO + 9 {
        canonical = value != 0;
        value = value * 10 + (text[i] - ZERO) as i16;
        i += 1;
        if i < len && ZERO <= text[i] && text[i] <= ZERO + 9 {
            value = value * 10 + (text[i] - ZERO) as i16;
            i += 1;
        }
    }
    if canonical && !(negative && value == 0) && i < len && len - i >= 2 && text[i] == POINT
        && text[i + 1] == ZERO {
        Some((if negative { -value } else { value }, i + 2))
    } else {
        None
    }
}

/// What a reader that goes through a whole text finds: an orientation, or
/// nothing.
spec fn parsed(text: Seq<u8>) -> Option<OrientationResult> {
    if !stands_at(text, 0, yaw_key()) {
        None
    } else {
        match scanned(text, yaw_key().len() as int) {
            None => None,
            Some((yaw, behind_yaw)) => if !stands_at(text, behind_yaw, pitch_key()) {
                None
            } else {
                match scanned(text, behind_yaw + pitch_key().len()) {
                    None => None,
                    Some((pitch, behind_pitch)) => if !stands_at(text, behind_pitch, roll_key()) {
                        None
                    } else {
                        match scanned(text, behind_pitch + roll_key().len()) {
                            None => None,
                            Some((roll, behind_roll)) => {
                                let orientation = OrientationResult {
                                    yaw: yaw as i16,
                                    pitch: pitch as i16,
                                    roll: roll as i16,
                                };
                                if behind_roll + 1 == text.len() && text[behind_roll]
                                    == CLOSING_BRACE && orientation.valid() {
                                    Some(orientation)
                                } else {
                                    None
                                }
                            },
                        }
                    },
                }
            },
        }
    }
}

/// What the reader finds in a text is an orientation in range, and the text is
/// its payload.
proof fn lemma_parsed_is_payload(text: Seq<u8>)
    ensures
        parsed(text) matches Some(o) ==> is_payload_of(text, o),
{
    if let Some(o) = parsed(text) {
        let a: int = yaw_key().len() as int;
        lemma_scanned_stands(text, a);
        let b: int = scanned(text, a).unwrap().1;
        let c: int = b + pitch_key().len();
        lemma_scanned_stands(text, c);
        let d: int = scanned(text, c).unwrap().1;
        let e: int = d + roll_key().len();
        lemma_scanned_stands(text, e);
        let f: int = scanned(text, e).unwrap().1;
        lemma_stands_at_characters(text, 0, yaw_key());
        lemma_stands_at_characters(text, a, number_text(o.yaw as int));
        lemma_stands_at_characters(text, b, pitch_key());
        lemma_stands_at_characters(text, c, number_text(o.pitch as int));
        lemma_stands_at_characters(text, d, roll_key());
        lemma_stands_at_characters(text, e, number_text(o.roll as int));
        let whole = payload_text(o);
        assert(whole.len() == text.len());
        assert forall|i: int| 0 <= i < text.len() implies text[i] == whole[i] by {
            if i < a {
                assert(text[0 + i] == yaw_key()[i]);
            } else if i < b {
                assert(text[a + (i - a)] == number_text(o.yaw as int)[i - a]);
            } else if i < c {
                assert(text[b + (i - b)] == pitch_key()[i - b]);
            } else if i < d {
                assert(text[c + (i - c)] == number_text(o.pitch as int)[i - c]);
            } else if i < e {
                assert(text[d + (i - d)] == roll_key()[i - d]);
            } else if i < f {
                assert(text[e + (i - e)] == number_text(o.roll as int)[i - e]);
            } else {
            }
        }
        assert(text =~= whole);
    }
}

/// A text stands behind whatever it is appended to.
proof fn lemma_stands_behind(head: Seq<u8>, part: Seq<u8>)
    ensures
        stands_at(head + part, head.len() as int, part),
{
    assert((head + part).subrange(head.len() as int, (head.len() + part.len()) as int) =~= part);
}

/// What stands in a text stands in every text that begins with it.
proof fn lemma_stands_on(text: Seq<u8>, at: int, part: Seq<u8>, tail: Seq<u8>)
    requires
        stands_at(text, at, part),
    ensures
        stands_at(text + tail, at, part),
{
    assert((text + tail).subrange(at, at + part.len()) =~= text.subrange(at, at + part.len()));
}

/// Where the parts of a payload stand in it.
proof fn lemma_payload_layout(o: OrientationResult)
    ensures
        ({
            let text = payload_text(o);
            let a: int = yaw_key().len() as int;
            let b: int = a + number_text(o.yaw as int).len();
            let c: int = b + pitch_key().len();
            let d: int = c + number_text(o.pitch as int).len();
            let e: int = d + roll_key().len();
            let f: int = e + number_text(o.roll as int).len();
            &&& stands_at(text, 0, yaw_key())
            &&& stands_at(text, a, number_text(o.yaw as int))
            &&& stands_at(text, b, pitch_key())
            &&& stands_at(text, c, number_text(o.pitch as int))
            &&& stands_at(text, d, roll_key())
            &&& stands_at(text, e, number_text(o.roll as int))
            &&& text.len() == f + 1
            &&& text[f] == CLOSING_BRACE
        }),
{
    let yaw = number_text(o.yaw as int);
    let pitch = number_text(o.pitch as int);
    let roll = number_text(o.roll as int);
    let close = seq![CLOSING_BRACE];
    let t0 = Seq::<u8>::empty();
    let t1 = yaw_key();
    let t2 = t1 + yaw;
    let t3 = t2 + pitch_key();
    let t4 = t3 + pitch;
    let t5 = t4 + roll_key();
    let t6 = t5 + roll;
    let t7 = t6 + close;
    assert(t7 == payload_text(o));
    assert(t0 + t1 =~= t1);
    lemma_stands_behind(t0, t1);
    lemma_stands_behind(t1, yaw);
    lemma_stands_behind(t2, pitch_key());
    lemma_stands_behind(t3, pitch);
    lemma_stands_behind(t4, roll_key());
    lemma_stands_behind(t5, roll);
    lemma_stands_on(t1, 0, t1, yaw);
    lemma_stands_on(t2, 0, t1, pitch_key());
    lemma_stands_on(t2, t1.len() as int, yaw, pitch_key());
    lemma_stands_on(t3, 0, t1, pitch);
    lemma_stands_on(t3, t1.len() as int, yaw, pitch);
    lemma_stands_on(t3, t2.len() as int, pitch_key(), pitch);
    lemma_stands_on(t4, 0, t1, roll_key());
    lemma_stands_on(t4, t1.len() as int, yaw, roll_key());
    lemma_stands_on(t4, t2.len() as int, pitch_key(), roll_key());
    lemma_stands_on(t4, t3.len() as int, pitch, roll_key());
    lemma_stands_on(t5, 0, t1, roll);
    lemma_stands_on(t5, t1.len() as int, yaw, roll);
    lemma_stands_on(t5, t2.len() as int, pitch_key(), roll);
    lemma_stands_on(t5, t3.len() as int, pitch, roll);
    lemma_stands_on(t5, t4.len() as int, roll_key(), roll);
    lemma_stands_on(t6, 0, t1, close);
    lemma_stands_on(t6, t1.len() as int, yaw, close);
    lemma_stands_on(t6, t2.len() as int, pitch_key(), close);
    lemma_stands_on(t6, t3.len() as int, pitch, close);
    lemma_stands_on(t6, t4.len() as int, roll_key(), close);
    lemma_stands_on(t6, t5.len() as int, roll, close);
}

/// The reader finds in the payload of an orientation that orientation.
proof fn lemma_payload_is_parsed(o: OrientationResult)
    requires
        o.valid(),
    ensures
        parsed(payload_text(o)) == Some(o),
{
    let text = payload_text(o);
    let a: int = yaw_key().len() as int;
    let b: int = a + number_text(o.yaw as int).len();
    let c: int = b + pitch_key().len();
    let d: int = c + number_text(o.pitch as int).len();
    let e: int = d + roll_key().len();
    lemma_payload_layout(o);
    lemma_standing_is_scanned(text, a, o.yaw as int);
    lemma_standing_is_scanned(text, c, o.pitch as int);
    lemma_standing_is_scanned(text, e, o.roll as int);
}

/// Two orientations in range with the same payload are the same orientation.
pub proof fn lemma_payload_determines_orientation(a: OrientationResult, b: OrientationResult)
    requires
        a.valid(),
        b.valid(),
        payload_text(a) == payload_text(b),
    ensures
        a == b,
{
    lemma_payload_is_parsed(a);
    lemma_payload_is_parsed(b);
}

/// Writing an orientation in range and reading the payload back gives the
/// orientation: the three fields under the names `yaw`, `pitch` and `roll`,
/// each with the value that was written.
pub proof fn lemma_decode_inverts_encode(orientation: OrientationResult)
    requires
        orientation.valid(),
    ensures
        decoded(payload_text(orientation)) == Some(orientation),
{
    let text = payload_text(orientation);
    assert(is_payload_of(text, orientation));
    let chosen = choose|o: OrientationResult| is_payload_of(text, o);
    lemma_payload_determines_orientation(chosen, orientation);
}

/// What the reader finds in a text is the orientation that the text is the
/// payload of, and nothing where it is the payload of none.
proof fn lemma_parsed_is_decoded(text: Seq<u8>)
    ensures
        parsed(text) == decoded(text),
        parsed(text) matches Some(o) ==> is_payload_of(text, o),
        parsed(text) is None ==> forall|o: OrientationResult| !is_payload_of(text, o),
{
    lemma_parsed_is_payload(text);
    assert forall|o: OrientationResult| is_payload_of(text, o) implies parsed(text) == Some(o) by {
        lemma_payload_is_parsed(o);
    }
    if let Some(o) = parsed(text) {
        lemma_decode_inverts_encode(o);
    }
}

/// Reads a payload back. A text that is not, character for character, the
/// payload of an orientation in range is refused.
pub fn decode(text: &[u8]) -> (found: Option<OrientationResult>)
    ensures
        found == decoded(text@),
        found matches Some(o) ==> is_payload_of(text@, o),
        found is None ==> forall|o: OrientationResult| !is_payload_of(text@, o),
{
    let found = read_payload(text);
    proof {
        lemma_parsed_is_decoded(text@);
    }
    found
}

/// Goes through a text as the payload lays it out: a key, a number, twice
/// more, and the closing brace.
fn read_payload(text: &[u8]) -> (found: Option<OrientationResult>)
    ensures
        found == parsed(text@),
{
    let opening = opening();
    let before_pitch = before_pitch();
    let before_roll = before_roll();
    if !stands_here(text, 0, &opening) {
        return None;
    }
    let at_yaw: usize = opening.len();
    let (yaw, behind_yaw) = match read_number(text, at_yaw) {
        Some(number) => number,
        None => {
            return None;
        },
    };
    proof {
        lemma_scanned_stands(text@, at_yaw as int);
    }
    if !stands_here(text, behind_yaw, &before_pitch) {
        return None;
    }
    let at_pitch: usize = behind_yaw + before_pitch.len();
    let (pitch, behind_pitch) = match read_number(text, at_pitch) {
        Some(number) => number,
        None => {
            return None;
        },
    };
    proof {
        lemma_scanned_stands(text@, at_pitch as int);
    }
    if !stands_here(text, behind_pitch, &before_roll) {
        return None;
    }
    let at_roll: usize = behind_pitch + before_roll.len();
    let (roll, behind_roll) = match read_number(text, at_roll) {
        Some(number) => number,
        None => {
            return None;
        },
    };
    proof {
        lemma_scanned_stands(text@, at_roll as int);
    }
    let orientation = OrientationResult { yaw, pitch, roll };
    if behind_roll < text.len() && text.len() - behind_roll == 1 && text[behind_roll]
        == CLOSING_BRACE && orientation.is_valid() {
        Some(orientation)
    } else {
        None
    }
}

} // verus!
