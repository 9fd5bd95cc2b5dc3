//! Record field parsing.
//!
//! A raw record carries the seven text fields the aggregation reads. Airport
//! ids must be non-negative decimal integers; a malformed id is a fatal
//! `ParseError`. The passenger field is forgiving: its digit characters are
//! extracted and read as a number, and anything that fails to read that way
//! (no digits at all, or a value too large) counts as zero passengers.

use vstd::prelude::*;
use crate::model::RecordV;

verus! {

/// The text fields of one flight-leg record, in input order.
pub struct RawRecord {
    pub passengers: String,
    pub origin_id: String,
    pub origin_code: String,
    pub origin_city: String,
    pub dest_id: String,
    pub dest_code: String,
    pub dest_city: String,
}

/// One flight-leg record after field parsing.
pub struct FlightRecord {
    pub passengers: usize,
    pub origin_id: u32,
    pub origin_code: String,
    pub origin_city: String,
    pub dest_id: u32,
    pub dest_code: String,
    pub dest_city: String,
}

impl View for FlightRecord {
    type V = RecordV;

    open spec fn view(&self) -> RecordV {
        RecordV {
            origin: self.origin_id,
            dest: self.dest_id,
            passengers: self.passengers as nat,
        }
    }
}

/// The one fatal ingestion error: an airport id field that is not a
/// non-negative decimal integer.
#[derive(Clone, Copy, Debug, PartialEq, Eq, Structural)]
pub enum IngestError {
    ParseError,
}

pub open spec fn is_digit(c: char) -> bool {
    48 <= c as u32 <= 57
}

pub open spec fn digit_val(c: char) -> nat {
    (c as u32 - 48) as nat
}

pub open spec fn all_digits(s: Seq<char>) -> bool {
    forall|i: int| 0 <= i < s.len() ==> is_digit(#[trigger] s[i])
}

/// The number a sequence of decimal digit characters denotes.
pub open spec fn digits_val(s: Seq<char>) -> nat
    decreases s.len(),
{
    if s.len() == 0 {
        0
    } else {
        digits_val(s.drop_last()) * 10 + digit_val(s.last())
    }
}

/// The digit characters of `s`, in order.
pub open spec fn digits_of(s: Seq<char>) -> Seq<char> {
    s.filter(|c: char| is_digit(c))
}

/// Whether `s` is text that denotes a u32: an optional leading plus sign, then
/// one or more decimal digits, with a value that fits.
pub open spec fn u32_text_ok(s: Seq<char>) -> bool {
    let body = if s.len() > 0 && s[0] == '+' {
        s.drop_first()
    } else {
        s
    };
    body.len() > 0 && all_digits(body) && digits_val(body) <= u32::MAX
}

/// The value such text denotes.
pub open spec fn u32_text_val(s: Seq<char>) -> nat {
    digits_val(
        if s.len() > 0 && s[0] == '+' {
            s.drop_first()
        } else {
            s
        },
    )
}

/// The passenger count a raw passenger field denotes: the value of its digit
/// characters, or zero when there are none or the value does not fit.
pub open spec fn passengers_spec(s: Seq<char>) -> nat {
    let d = digits_of(s);
    if d.len() == 0 || digits_val(d) > usize::MAX {
        0
    } else {
        digits_val(d)
    }
}

/// Whether a raw record's id fields parse, so that ingestion accepts it.
pub open spec fn parse_ok(raw: RawRecord) -> bool {
    u32_text_ok(raw.origin_id@) && u32_text_ok(raw.dest_id@)
}

/// The parsed record a well-formed raw record denotes.
pub open spec fn record_view(raw: RawRecord) -> RecordV {
    RecordV {
        origin: u32_text_val(raw.origin_id@) as u32,
        dest: u32_text_val(raw.dest_id@) as u32,
        passengers: passengers_spec(raw.passengers@),
    }
}

/// Whether every record of a batch parses.
pub open spec fn all_ok(raws: Seq<RawRecord>) -> bool {
    forall|i: int| 0 <= i < raws.len() ==> parse_ok(#[trigger] raws[i])
}

/// The total passenger count a batch of raw records denotes.
pub open spec fn sum_raw_passengers(raws: Seq<RawRecord>) -> nat
    decreases raws.len(),
{
    if raws.len() == 0 {
        0
    } else {
        sum_raw_passengers(raws.drop_last()) + passengers_spec(raws.last().passengers@)
    }
}

pub proof fn lemma_sum_raw_prefix_le(raws: Seq<RawRecord>, i: int)
    requires
        0 <= i <= raws.len(),
    ensures
        sum_raw_passengers(raws.take(i)) <= sum_raw_passengers(raws),
    decreases raws.len() - i,
{
    if i < raws.len() {
        assert(raws.take(i + 1).drop_last() =~= raws.take(i));
        assert(raws.take(i + 1).last() == raws[i]);
        lemma_sum_raw_prefix_le(raws, i + 1);
    } else {
        assert(raws.take(i) =~= raws);
    }
}

proof fn lemma_digits_of_push(s: Seq<char>, c: char)
    ensures
        digits_of(s.push(c)) == if is_digit(c) {
            digits_of(s).push(c)
        } else {
            digits_of(s)
        },
{
    reveal(Seq::filter);
    assert(s.push(c).drop_last() =~= s);
}

proof fn lemma_digits_of_empty()
    ensures
        digits_of(Seq::<char>::empty()) == Seq::<char>::empty(),
{
    reveal(Seq::filter);
}

/// A digit string's value never shrinks as digits are appended.
proof fn lemma_digits_val_push_ge(s: Seq<char>, c: char)
    ensures
        digits_val(s.push(c)) >= digits_val(s),
{
    assert(s.push(c).drop_last() =~= s);
}

/// Once a prefix of the digit characters exceeds a bound, the whole string's
/// digit value exceeds it too.
proof fn lemma_digits_of_prefix_exceeds(s: Seq<char>, i: int, bound: nat)
    requires
        0 <= i <= s.len(),
        digits_val(digits_of(s.take(i))) > bound,
    ensures
        digits_val(digits_of(s)) > bound,
    decreases s.len() - i,
{
    if i < s.len() {
        assert(s.take(i + 1) =~= s.take(i).push(s[i]));
        lemma_digits_of_push(s.take(i), s[i]);
        if is_digit(s[i]) {
            lemma_digits_val_push_ge(digits_of(s.take(i)), s[i]);
        }
        lemma_digits_of_prefix_exceeds(s, i + 1, bound);
    } else {
        assert(s.take(i) =~= s);
    }
}

/// Once a prefix of an all-digit string exceeds a bound, the whole string's
/// value exceeds it too.
proof fn lemma_digits_prefix_exceeds(s: Seq<char>, i: int, bound: nat)
    requires
        0 <= i <= s.len(),
        digits_val(s.take(i)) > bound,
    ensures
        digits_val(s) > bound,
    decreases s.len() - i,
{
    if i < s.len() {
        assert(s.take(i + 1) =~= s.take(i).push(s[i]));
        lemma_digits_val_push_ge(s.take(i), s[i]);
        lemma_digits_prefix_exceeds(s, i + 1, bound);
    } else {
        assert(s.take(i) =~= s);
    }
}

/// Read a string as a u32 the way the id fields demand it: an optional
/// leading plus sign, then decimal digits; `None` on anything else or on
/// overflow.
pub fn parse_u32(s: &str) -> (r: Option<u32>)
    ensures
        u32_text_ok(s@) ==> r == Some(u32_text_val(s@) as u32),
        !u32_text_ok(s@) ==> r is None,
{
    let n = s.unicode_len();
    let start: usize = if n > 0 && s.get_char(0) == '+' {
        1
    } else {
        0
    };
    let ghost body = if s@.len() > 0 && s@[0] == '+' {
        s@.drop_first()
    } else {
        s@
    };
    assert(body.len() == n - start);
    assert(forall|j: int| 0 <= j < body.len() ==> body[j] == s@[j + start]);
    if n == start {
        return None;
    }
    let mut acc: u64 = 0;
    let mut i: usize = start;
    while i < n
        invariant
            start <= i <= n,
            n == s@.len(),
            body == (if s@.len() > 0 && s@[0] == '+' {
                s@.drop_first()
            } else {
                s@
            }),
            body.len() == n - start,
            forall|j: int| 0 <= j < body.len() ==> body[j] == s@[j + start],
            all_digits(body.take(i - start)),
            acc == digits_val(body.take(i - start)),
            acc <= u32::MAX,
        decreases n - i,
    {
        let c = s.get_char(i);
        assert(c == body[i - start]);
        let u = c as u32;
        if u < 48 || u > 57 {
            assert(!is_digit(body[i - start]));
            assert(!u32_text_ok(s@));
            return None;
        }
        let d = (u - 48) as u64;
        let next = acc * 10 + d;
        assert(body.take(i + 1 - start) =~= body.take(i - start).push(body[i - start]));
        assert(body.take(i + 1 - start).drop_last() =~= body.take(i - start));
        assert(body.take(i + 1 - start).last() == body[i - start]);
        assert(next == digits_val(body.take(i + 1 - start)));
        if next > 0xFFFF_FFFFu64 {
            proof {
                lemma_digits_prefix_exceeds(body, i + 1 - start, u32::MAX as nat);
            }
            return None;
        }
        acc = next;
        i = i + 1;
    }
    assert(body.take(i - start) =~= body);
    Some(acc as u32)
}

/// Read the passenger field: keep its digit characters, read them as a
/// number, and fall back to zero when no digits remain or the value does not
/// fit in usize.
pub fn passenger_count(s: &str) -> (r: usize)
    ensures
        r as nat == passengers_spec(s@),
{
    let n = s.unicode_len();
    let mut acc: u128 = 0;
    let mut saw_digit: bool = false;
    let mut i: usize = 0;
    proof {
        assert(s@.take(0) =~= Seq::<char>::empty());
        lemma_digits_of_empty();
    }
    while i < n
        invariant
            0 <= i <= n,
            n == s@.len(),
            saw_digit == (digits_of(s@.take(i as int)).len() > 0),
            acc == digits_val(digits_of(s@.take(i as int))),
            acc <= usize::MAX,
        decreases n - i,
    {
        let c = s.get_char(i);
        let u = c as u32;
        proof {
            assert(s@.take(i + 1) =~= s@.take(i as int).push(s@[i as int]));
            lemma_digits_of_push(s@.take(i as int), s@[i as int]);
        }
        if 48 <= u && u <= 57 {
            let d = (u - 48) as u128;
            let next = acc * 10 + d;
            assert(c == s@[i as int]);
            assert(digits_of(s@.take(i + 1)) == digits_of(s@.take(i as int)).push(s@[i as int]));
            assert(digits_of(s@.take(i + 1)).drop_last() =~= digits_of(s@.take(i as int)));
            assert(digits_of(s@.take(i + 1)).last() == s@[i as int]);
            assert(next == digits_val(digits_of(s@.take(i + 1))));
            if next > usize::MAX as u128 {
                proof {
                    lemma_digits_of_prefix_exceeds(s@, i + 1, usize::MAX as nat);
                }
                return 0;
            }
            acc = next;
            saw_digit = true;
        }
        i = i + 1;
    }
    assert(s@.take(i as int) =~= s@);
    if !saw_digit {
        return 0;
    }
    acc as usize
}

/// Parse one raw record. The ids must be non-negative decimal integers —
/// anything else is the fatal `ParseError` — while a malformed passenger
/// field silently counts as zero passengers.
pub fn parse_record(raw: &RawRecord) -> (r: Result<FlightRecord, IngestError>)
    ensures
        r is Ok <==> u32_text_ok(raw.origin_id@) && u32_text_ok(raw.dest_id@),
        r is Ok ==> ({
            let rec = r->Ok_0;
            &&& rec.origin_id == u32_text_val(raw.origin_id@)
            &&& rec.dest_id == u32_text_val(raw.dest_id@)
            &&& rec.passengers as nat == passengers_spec(raw.passengers@)
            &&& rec.origin_code@ == raw.origin_code@
            &&& rec.origin_city@ == raw.origin_city@
            &&& rec.dest_code@ == raw.dest_code@
            &&& rec.dest_city@ == raw.dest_city@
        }),
        r is Err ==> r->Err_0 == IngestError::ParseError,
{
    let origin_id = match parse_u32(raw.origin_id.as_str()) {
        Some(v) => v,
        None => {
            return Err(IngestError::ParseError);
        },
    };
    let dest_id = match parse_u32(raw.dest_id.as_str()) {
        Some(v) => v,
        None => {
            return Err(IngestError::ParseError);
        },
    };
    let passengers = passenger_count(raw.passengers.as_str());
    Ok(
        FlightRecord {
            passengers,
            origin_id,
            origin_code: raw.origin_code.clone(),
            origin_city: raw.origin_city.clone(),
            dest_id,
            dest_code: raw.dest_code.clone(),
            dest_city: raw.dest_city.clone(),
        },
    )
}

} // verus!
