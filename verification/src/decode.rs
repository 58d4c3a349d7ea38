//! Decoding of one record, `name;reading`. A reading is a decimal number
//! with one or two digits before the point, one after it, and an optional
//! leading minus sign.

use vstd::prelude::*;
use vstd::slice::slice_subrange;
use crate::ascii::{MINUS, NINE, POINT, SEMICOLON, ZERO};

verus! {

/// `b` is an ASCII decimal digit.
pub open spec fn is_digit(b: u8) -> bool {
    ZERO <= b <= NINE
}

/// The number that an ASCII digit stands for.
pub open spec fn digit(b: u8) -> int {
    b - ZERO
}

/// Whether the text starts with a minus sign.
pub open spec fn is_negative(v: Seq<u8>) -> bool {
    v.len() > 0 && v[0] == MINUS
}

/// The position of the first digit of a reading.
pub open spec fn digits_start(v: Seq<u8>) -> int {
    if is_negative(v) {
        1
    } else {
        0
    }
}

/// The text is a reading: an optional minus sign, one or two digits, a
/// point and one digit.
pub open spec fn is_reading(v: Seq<u8>) -> bool {
    let s = digits_start(v);
    let w = v.len() - s - 2;
    &&& (w == 1 || w == 2)
    &&& forall|i: int| s <= i < s + w ==> is_digit(#[trigger] v[i])
    &&& v[v.len() - 2] == POINT
    &&& is_digit(v[v.len() - 1])
}

/// The temperature that a reading states, in hundredths of a degree. The
/// sign is that of the text: `-0.5` is fifty hundredths below zero.
pub open spec fn reading_value(v: Seq<u8>) -> int {
    let s = digits_start(v);
    let whole = if v.len() - s == 3 {
        digit(v[s])
    } else {
        digit(v[s]) * 10 + digit(v[s + 1])
    };
    let magnitude = whole * 100 + digit(v[v.len() - 1]) * 10;
    if is_negative(v) {
        -magnitude
    } else {
        magnitude
    }
}

/// The line is a record whose separator stands at `k`: a name of `k`
/// bytes, a semicolon and a reading.
pub open spec fn splits_at(line: Seq<u8>, k: int) -> bool {
    &&& 0 <= k < line.len()
    &&& line[k] == SEMICOLON
    &&& is_reading(line.skip(k + 1))
}

/// The line is a record.
pub open spec fn is_record(line: Seq<u8>) -> bool {
    exists|k: int| splits_at(line, k)
}

/// Where the separator of a record stands.
pub open spec fn separator(line: Seq<u8>) -> int {
    choose|k: int| splits_at(line, k)
}

/// The station that a record names: the bytes before its separator.
pub open spec fn record_name(line: Seq<u8>) -> Seq<u8> {
    line.take(separator(line))
}

/// The temperature that a record states, in hundredths of a degree.
pub open spec fn record_value(line: Seq<u8>) -> int {
    reading_value(line.skip(separator(line) + 1))
}

/// A reading is worth at most 99.9 degrees either way, and a whole number
/// of tenths.
pub proof fn lemma_reading_range(v: Seq<u8>)
    requires
        is_reading(v),
    ensures
        -9990 <= reading_value(v) <= 9990,
        reading_value(v) % 10 == 0,
{
    let s = digits_start(v);
    assert(is_digit(v[s]));
    if v.len() - s == 4 {
        assert(is_digit(v[s + 1]));
    }
}

/// A record splits in one way only: a reading holds no semicolon.
pub proof fn lemma_split_unique(line: Seq<u8>, j: int, k: int)
    requires
        splits_at(line, j),
        splits_at(line, k),
    ensures
        j == k,
{
    if j < k {
        lemma_no_separator_inside(line, j, k);
    } else if k < j {
        lemma_no_separator_inside(line, k, j);
    }
}

/// A line that splits at `k` is a record, and `k` is its separator.
pub proof fn lemma_separator(line: Seq<u8>, k: int)
    requires
        splits_at(line, k),
    ensures
        is_record(line),
        separator(line) == k,
{
    lemma_split_unique(line, separator(line), k);
}

/// Behind the separator of a record there is no semicolon.
proof fn lemma_no_separator_inside(line: Seq<u8>, j: int, k: int)
    requires
        splits_at(line, j),
        j < k < line.len(),
    ensures
        line[k] != SEMICOLON,
{
    let v = line.skip(j + 1);
    let i = k - j - 1;
    assert(v[i] == line[k]);
    let s = digits_start(v);
    if i >= s && i < v.len() - 2 {
        assert(is_digit(v[i]));
    }
}

/// One decoded record: the station's name, borrowed from the line, and the
/// temperature in hundredths of a degree.
#[derive(Clone, Copy, Debug)]
pub struct Measurement<'a> {
    pub name: &'a [u8],
    pub value: i32,
}

impl<'a> From<(&'a [u8], i32)> for Measurement<'a> {
    /// The measurement of a name and a value.
    fn from(value: (&'a [u8], i32)) -> (m: Measurement<'a>) {
        Measurement { name: value.0, value: value.1 }
    }
}

impl<'a> vstd::std_specs::convert::FromSpecImpl<(&'a [u8], i32)> for Measurement<'a> {
    open spec fn obeys_from_spec() -> bool {
        true
    }

    open spec fn from_spec(value: (&'a [u8], i32)) -> Measurement<'a> {
        Measurement { name: value.0, value: value.1 }
    }
}

/// The line is not a record.
#[derive(Clone, Copy, Debug, PartialEq, Eq, Structural)]
pub struct Malformed;

/// Decodes one line, without its newline. The layout is found from the
/// end of the line: the separator stands four, five or six bytes before it.
pub fn measurement<'a>(input: &'a [u8]) -> (r: Result<Measurement<'a>, Malformed>)
    ensures
        r is Ok <==> is_record(input@),
        r matches Ok(m) ==> m.name@ == record_name(input@) && m.value == record_value(input@),
{
    let n = input.len();
    let offset: usize = if n >= 4 && input[n - 4] == SEMICOLON {
        4
    } else if n >= 5 && input[n - 5] == SEMICOLON {
        5
    } else if n >= 6 && input[n - 6] == SEMICOLON {
        6
    } else {
        proof {
            assert forall|k: int| !splits_at(input@, k) by {
                if splits_at(input@, k) {
                    lemma_layouts(input@, k);
                }
            }
        }
        return Err(Malformed);
    };
    let k = n - offset;
    let ghost v = input@.skip(k + 1);
    proof {
        assert forall|i: int| 0 <= i < v.len() implies v[i] == input@[k + 1 + i] by {}
        assert forall|j: int| splits_at(input@, j) implies j == k by {
            lemma_layouts(input@, j);
            if j < k {
                lemma_no_separator_inside(input@, j, k as int);
            }
        }
    }
    let negative = input[k + 1] == MINUS;
    let first = if negative { k + 2 } else { k + 1 };
    let digits = n - 2 - first;
    let tens: i32 = if digits == 2 {
        match digit_of(input[first]) {
            Some(d) => d,
            None => {
                proof {
                    assert(!is_digit(v[first - k - 1]));
                }
                return Err(Malformed);
            },
        }
    } else if digits == 1 {
        0
    } else {
        return Err(Malformed);
    };
    let units: i32 = match digit_of(input[n - 3]) {
        Some(d) => d,
        None => {
            proof {
                assert(!is_digit(v[n - 3 - k - 1]));
            }
            return Err(Malformed);
        },
    };
    let tenths: i32 = match digit_of(input[n - 1]) {
        Some(d) => d,
        None => {
            return Err(Malformed);
        },
    };
    if input[n - 2] != POINT {
        return Err(Malformed);
    }
    proof {
        assert(is_reading(v)) by {
            assert forall|j: int| digits_start(v) <= j < v.len() - 2 implies is_digit(
                #[trigger] v[j],
            ) by {
                assert(j == first - k - 1 || j == n - 3 - k - 1);
            }
        }
        assert(splits_at(input@, k as int));
        lemma_separator(input@, k as int);
        lemma_reading_range(v);
    }
    let magnitude = (tens * 10 + units) * 100 + tenths * 10;
    let value = if negative { -magnitude } else { magnitude };
    let name = slice_subrange(input, 0, k);
    proof {
        assert(name@ =~= input@.take(k as int));
    }
    Ok(Measurement { name, value })
}

/// The number that a byte stands for, if it is a digit.
fn digit_of(b: u8) -> (d: Option<i32>)
    ensures
        d is Some <==> is_digit(b),
        d matches Some(x) ==> x == digit(b),
{
    if ZERO <= b && b <= NINE {
        Some((b - ZERO) as i32)
    } else {
        None
    }
}

/// The separator of a record stands four, five or six bytes before its end.
proof fn lemma_layouts(line: Seq<u8>, k: int)
    requires
        splits_at(line, k),
    ensures
        k == line.len() - 4 || k == line.len() - 5 || k == line.len() - 6,
{
}

} // verus!
