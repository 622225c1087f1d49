//! The split count setting: report totals are divided by it.

use vstd::prelude::*;
use crate::error::{AppError, ErrorModel};
use crate::text::{all_digits, decimal, decimal_digits, decimal_text, digit_char, digits_value, is_digit};

verus! {

/// The settings key of the split count.
pub const SPLIT_COUNT_KEY: &'static str = "split_count";

/// The split count that a fresh or restored database starts with.
pub const DEFAULT_SPLIT_COUNT: &'static str = "2";

/// What `str::parse::<i64>` accepts, as its documentation states it: an
/// optional `+` or `-` sign followed by one or more ASCII digits, whose
/// value fits in an `i64`; nothing else (no white space).
pub open spec fn parsed_i64(s: Seq<char>) -> Option<int> {
    let negative = s.len() > 0 && s[0] == '-';
    let body = if s.len() > 0 && (s[0] == '-' || s[0] == '+') {
        s.drop_first()
    } else {
        s
    };
    if body.len() == 0 || !all_digits(body) {
        None
    } else {
        let v = if negative {
            -digits_value(body)
        } else {
            digits_value(body)
        };
        if i64::MIN <= v <= i64::MAX {
            Some(v)
        } else {
            None
        }
    }
}

/// The message of the error that `str::parse::<i64>` gives for `s`: a
/// function of `s` alone.
pub uninterp spec fn parse_i64_error_text(s: Seq<char>) -> Seq<char>;

/// `str::parse::<i64>`; the error is taken as its message (`to_string`).
/// The contract states which texts parse and to what value, as the
/// documentation of `FromStr for i64` gives it; the wording of the error
/// message is only named.
#[verifier::external_body]
fn parse_i64(s: &str) -> (r: Result<i64, String>)
    ensures
        r is Ok <==> parsed_i64(s@) is Some,
        r matches Ok(v) ==> parsed_i64(s@) == Some(v as int),
        r matches Err(m) ==> m@ == parse_i64_error_text(s@),
{
    s.parse::<i64>().map_err(|e| e.to_string())
}

/// The stored text for a split count, or why the count is refused.
pub open spec fn split_count_value_spec(count: i64) -> Result<Seq<char>, ErrorModel> {
    if count < 1 {
        Err(ErrorModel::Other("split_count must be at least 1"@))
    } else {
        Ok(decimal_text(count as int))
    }
}

/// The text to store for a new split count: counts below 1 are refused.
pub fn split_count_value(count: i64) -> (r: Result<String, AppError>)
    ensures
        match r {
            Ok(v) => split_count_value_spec(count) == Ok::<Seq<char>, ErrorModel>(v@),
            Err(e) => split_count_value_spec(count) == Err::<Seq<char>, ErrorModel>(e@),
        },
{
    if count < 1 {
        return Err(AppError::Other(String::from_str("split_count must be at least 1")));
    }
    Ok(decimal(count))
}

/// The split count read back from its stored text.
pub open spec fn split_count_of(value: Seq<char>) -> Result<int, ErrorModel> {
    match parsed_i64(value) {
        Some(v) => Ok(v),
        None => Err(ErrorModel::Other(parse_i64_error_text(value))),
    }
}

/// The split count held by its stored text.
pub fn parse_split_count(value: &str) -> (r: Result<i64, AppError>)
    ensures
        match r {
            Ok(v) => split_count_of(value@) == Ok::<int, ErrorModel>(v as int),
            Err(e) => split_count_of(value@) == Err::<int, ErrorModel>(e@),
        },
{
    match parse_i64(value) {
        Ok(v) => Ok(v),
        Err(m) => Err(AppError::Other(m)),
    }
}

proof fn lemma_digit_char_value(d: nat)
    requires
        d < 10,
    ensures
        is_digit(digit_char(d)),
        digit_char(d) as int - '0' as int == d,
{
}

proof fn lemma_decimal_digits_parse(n: nat)
    ensures
        decimal_digits(n).len() > 0,
        all_digits(decimal_digits(n)),
        digits_value(decimal_digits(n)) == n,
        decimal_digits(n)[0] != '-' && decimal_digits(n)[0] != '+',
    decreases n,
{
    lemma_digit_char_value(n % 10);
    if n >= 10 {
        lemma_decimal_digits_parse(n / 10);
        let s = decimal_digits((n / 10) as nat);
        assert(decimal_digits(n) == s.push(digit_char(n % 10)));
        assert(decimal_digits(n).drop_last() == s);
        assert(decimal_digits(n).last() == digit_char(n % 10));
        assert(digits_value(decimal_digits(n)) == digits_value(s) * 10 + (digit_char(n % 10) as int
            - '0' as int));
        assert((n / 10) * 10 + n % 10 == n);
        assert forall|i: int| 0 <= i < decimal_digits(n).len() implies is_digit(
            #[trigger] decimal_digits(n)[i],
        ) by {
            if i < s.len() {
                assert(decimal_digits(n)[i] == s[i]);
            }
        }
    } else {
        assert(decimal_digits(n).drop_last() == Seq::<char>::empty());
        assert(decimal_digits(n).last() == digit_char(n));
        assert(digits_value(decimal_digits(n)) == digits_value(Seq::<char>::empty()) * 10 + (
        digit_char(n) as int - '0' as int));
    }
}

/// Reading back the decimal text of an integer gives the integer.
pub proof fn lemma_decimal_parses_back(n: i64)
    ensures
        parsed_i64(decimal_text(n as int)) == Some(n as int),
{
    if n < 0 {
        let m = (-(n as int)) as nat;
        lemma_decimal_digits_parse(m);
        let s = decimal_text(n as int);
        assert(s.drop_first() == decimal_digits(m));
    } else {
        lemma_decimal_digits_parse(n as nat);
    }
}

/// A split count that is accepted is read back unchanged from the text
/// stored for it; a count below 1 is refused.
pub proof fn lemma_split_count_round_trip(count: i64)
    ensures
        count < 1 ==> split_count_value_spec(count) is Err,
        count >= 1 ==> (split_count_value_spec(count) matches Ok(v) && split_count_of(v) == Ok::<
            int,
            ErrorModel,
        >(count as int)),
{
    lemma_decimal_parses_back(count);
}

} // verus!
