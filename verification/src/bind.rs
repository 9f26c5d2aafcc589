//! The capture binder: the captures of a match are handed to typed slots,
//! and the text of each capture is converted into a value of its slot's type.

use vstd::prelude::*;
use crate::error::MatchError;
use crate::matcher::{split_line, split_result};
use crate::text::{chars_of, texts};

verus! {

/// The type that a slot declares for the capture bound to it.
#[derive(Clone, Copy, Debug, PartialEq, Eq, Structural)]
pub enum SlotType {
    /// A whole number written in decimal, no less than `min` and no more than `max`.
    Integer { min: i128, max: i128 },
    /// Either `true` or `false`.
    Boolean,
    /// A single character.
    Character,
    /// Any text, taken as it is.
    Text,
}

/// The value that a capture was converted into.
#[derive(Debug, PartialEq, Eq)]
pub enum Value {
    Integer(i128),
    Boolean(bool),
    Character(char),
    Text(String),
}

/// A value as contracts speak of it: the number as a mathematical integer,
/// the text as a sequence of characters.
pub enum ValueModel {
    Integer(int),
    Boolean(bool),
    Character(char),
    Text(Seq<char>),
}

impl View for Value {
    type V = ValueModel;

    open spec fn view(&self) -> ValueModel {
        match self {
            Value::Integer(n) => ValueModel::Integer(*n as int),
            Value::Boolean(b) => ValueModel::Boolean(*b),
            Value::Character(c) => ValueModel::Character(*c),
            Value::Text(s) => ValueModel::Text(s@),
        }
    }
}

impl Value {
    /// The number, where this value is one.
    pub fn as_integer(&self) -> (number: Option<i128>)
        ensures
            match *self {
                Value::Integer(n) => number == Some(n),
                _ => number is None,
            },
    {
        match self {
            Value::Integer(n) => Some(*n),
            _ => None,
        }
    }

    /// The truth value, where this value is one.
    pub fn as_boolean(&self) -> (truth: Option<bool>)
        ensures
            match *self {
                Value::Boolean(b) => truth == Some(b),
                _ => truth is None,
            },
    {
        match self {
            Value::Boolean(b) => Some(*b),
            _ => None,
        }
    }

    /// The character, where this value is one.
    pub fn as_character(&self) -> (character: Option<char>)
        ensures
            match *self {
                Value::Character(c) => character == Some(c),
                _ => character is None,
            },
    {
        match self {
            Value::Character(c) => Some(*c),
            _ => None,
        }
    }

    /// The text, where this value is one.
    pub fn as_text(&self) -> (text: Option<&str>)
        ensures
            match *self {
                Value::Text(s) => text is Some && text->0@ == s@,
                _ => text is None,
            },
    {
        match self {
            Value::Text(s) => Some(s.as_str()),
            _ => None,
        }
    }
}

/// `c` is one of the ten decimal digits.
pub open spec fn is_digit(c: char) -> bool {
    '0' as u32 <= c as u32 <= '9' as u32
}

/// The number that the digit `c` stands for.
pub open spec fn digit_value(c: char) -> nat {
    (c as u32 - '0' as u32) as nat
}

/// Every character of `text` is a decimal digit.
pub open spec fn all_digits(text: Seq<char>) -> bool {
    forall|i: int| 0 <= i < text.len() ==> is_digit(#[trigger] text[i])
}

/// The number that a run of decimal digits writes.
pub open spec fn digits_value(digits: Seq<char>) -> nat
    decreases digits.len(),
{
    if digits.len() == 0 {
        0
    } else {
        digits_value(digits.drop_last()) * 10 + digit_value(digits.last())
    }
}

/// `text` begins with a minus sign, and a minus sign is accepted.
pub open spec fn is_negative(text: Seq<char>, signed: bool) -> bool {
    signed && text.len() > 0 && text[0] == '-'
}

/// What is left of `text` behind its sign: a plus sign is always accepted,
/// a minus sign where `signed` says so.
pub open spec fn unsigned_part(text: Seq<char>, signed: bool) -> Seq<char> {
    if text.len() > 0 && (text[0] == '+' || is_negative(text, signed)) {
        text.drop_first()
    } else {
        text
    }
}

/// The whole number that `text` writes: an optional sign followed by one
/// or more decimal digits and nothing else.
pub open spec fn integer_value(text: Seq<char>, signed: bool) -> Option<int> {
    let digits = unsigned_part(text, signed);
    if digits.len() > 0 && all_digits(digits) {
        if is_negative(text, signed) {
            Some(-(digits_value(digits) as int))
        } else {
            Some(digits_value(digits) as int)
        }
    } else {
        None
    }
}

/// The number that `text` writes, where it lies between `min` and `max`.
/// A minus sign is accepted only where the range holds a negative number.
pub open spec fn integer_in_range(text: Seq<char>, min: int, max: int) -> Option<int> {
    match integer_value(text, min < 0) {
        Some(n) => if min <= n <= max {
            Some(n)
        } else {
            None
        },
        None => None,
    }
}

/// The value that `text` converts into for a slot of type `slot`, where it
/// is a value of that type.
pub open spec fn conversion(slot: SlotType, text: Seq<char>) -> Option<ValueModel> {
    match slot {
        SlotType::Integer { min, max } => match integer_in_range(text, min as int, max as int) {
            Some(n) => Some(ValueModel::Integer(n)),
            None => None,
        },
        SlotType::Boolean => if text == "true"@ {
            Some(ValueModel::Boolean(true))
        } else if text == "false"@ {
            Some(ValueModel::Boolean(false))
        } else {
            None
        },
        SlotType::Character => if text.len() == 1 {
            Some(ValueModel::Character(text[0]))
        } else {
            None
        },
        SlotType::Text => Some(ValueModel::Text(text)),
    }
}

/// A converted value, if there is one, as contracts speak of it.
pub open spec fn value_model(value: Option<Value>) -> Option<ValueModel> {
    match value {
        Some(v) => Some(v@),
        None => None,
    }
}

/// The values of a sequence, each as contracts speak of it.
pub open spec fn value_models(values: Seq<Value>) -> Seq<ValueModel> {
    Seq::new(values.len(), |i: int| values[i]@)
}

/// An outcome of binding with each value as contracts speak of it.
pub open spec fn outcome_models(outcome: Result<Vec<Value>, MatchError>) -> Result<
    Seq<ValueModel>,
    MatchError,
> {
    match outcome {
        Ok(values) => Ok(value_models(values@)),
        Err(e) => Err(e),
    }
}

/// Some capture among the first `count` is not a value of the type of its slot.
pub open spec fn some_conversion_fails(caps: Seq<Seq<char>>, slots: Seq<SlotType>, count: int) -> bool {
    exists|i: int| 0 <= i < count && (#[trigger] conversion(slots[i], caps[i])) is None
}

/// The outcome of binding the captures `caps` to `slots`, the first capture
/// to the first slot and so on. Too many slots fail before any conversion
/// is looked at; captures beyond the last slot are dropped.
pub open spec fn bind_result(caps: Seq<Seq<char>>, slots: Seq<SlotType>) -> Result<
    Seq<ValueModel>,
    MatchError,
> {
    if slots.len() > caps.len() {
        Err(MatchError::TooManyVariables)
    } else if some_conversion_fails(caps, slots, slots.len() as int) {
        Err(MatchError::ConversionError)
    } else {
        Ok(Seq::new(slots.len(), |i: int| conversion(slots[i], caps[i])->0))
    }
}

/// The outcome of matching `input` against `template` and binding the
/// captures to `slots`.
pub open spec fn parse_result(input: Seq<char>, template: Seq<char>, slots: Seq<SlotType>) -> Result<
    Seq<ValueModel>,
    MatchError,
> {
    match split_result(input, template) {
        Ok(caps) => bind_result(caps, slots),
        Err(e) => Err(e),
    }
}

/// A longer run of digits writes no smaller a number than its beginning.
pub proof fn lemma_digits_value_grows(digits: Seq<char>, k: int)
    requires
        0 <= k <= digits.len(),
    ensures
        digits_value(digits.subrange(0, k)) <= digits_value(digits),
    decreases digits.len(),
{
    if k == digits.len() {
        assert(digits.subrange(0, k) =~= digits);
    } else {
        lemma_digits_value_grows(digits.drop_last(), k);
        assert(digits.drop_last().subrange(0, k) =~= digits.subrange(0, k));
    }
}

/// Whether two texts hold the same characters.
pub fn same_text(left: &[char], right: &[char]) -> (same: bool)
    ensures
        same == (left@ == right@),
{
    if left.len() != right.len() {
        return false;
    }
    let mut k: usize = 0;
    while k < left.len()
        invariant
            left@.len() == right@.len(),
            k <= left@.len(),
            forall|j: int| 0 <= j < k ==> left@[j] == right@[j],
        decreases left@.len() - k,
    {
        if left[k] != right[k] {
            return false;
        }
        k += 1;
    }
    assert(left@ =~= right@);
    true
}

/// Reads `text` as a whole number between `min` and `max`.
///
/// The number is written in decimal, as one or more digits behind an
/// optional sign. A plus sign is always accepted, a minus sign only where
/// `min` is negative. Anything else in `text`, or a number outside the
/// range, gives `None`.
pub fn convert_integer(text: &str, min: i128, max: i128) -> (number: Option<i128>)
    ensures
        match number {
            Some(n) => integer_in_range(text@, min as int, max as int) == Some(n as int),
            None => integer_in_range(text@, min as int, max as int) is None,
        },
{
    let chars = chars_of(text);
    let size: usize = chars.len();
    if size == 0 {
        return None;
    }
    let negative: bool = min < 0 && chars[0] == '-';
    let start: usize = if chars[0] == '+' || negative {
        1
    } else {
        0
    };
    let ghost digits = unsigned_part(text@, min < 0);
    assert(digits =~= chars@.subrange(start as int, size as int));
    if start == size {
        return None;
    }
    let mut total: i128 = 0;
    let mut k: usize = start;
    assert(chars@.subrange(start as int, k as int) =~= Seq::<char>::empty());
    while k < size
        invariant
            start <= k <= size,
            size == chars@.len(),
            chars@ == text@,
            negative == is_negative(text@, min < 0),
            digits == unsigned_part(text@, min < 0),
            digits == chars@.subrange(start as int, size as int),
            all_digits(chars@.subrange(start as int, k as int)),
            negative ==> total == -(digits_value(chars@.subrange(start as int, k as int)) as int),
            !negative ==> total == digits_value(chars@.subrange(start as int, k as int)),
        decreases size - k,
    {
        let code: u32 = chars[k] as u32;
        let ghost seen = chars@.subrange(start as int, k as int);
        let ghost next = chars@.subrange(start as int, k + 1);
        assert(next.drop_last() =~= seen);
        assert(next.last() == chars@[k as int]);
        if code < 48 || code > 57 {
            assert(!is_digit(digits[k - start]));
            return None;
        }
        proof {
            assert forall|j: int| 0 <= j < next.len() implies is_digit(#[trigger] next[j]) by {
                if j < seen.len() {
                    assert(next[j] == seen[j]);
                }
            }
            lemma_digits_value_grows(digits, k + 1 - start);
            assert(digits.subrange(0, k + 1 - start) =~= next);
        }
        let digit: i128 = (code - 48) as i128;
        let tens: i128 = match total.checked_mul(10) {
            Some(t) => t,
            None => {
                return None;
            },
        };
        let sum: Option<i128> = if negative {
            tens.checked_sub(digit)
        } else {
            tens.checked_add(digit)
        };
        match sum {
            Some(s) => {
                total = s;
            },
            None => {
                return None;
            },
        }
        k += 1;
    }
    if min <= total && total <= max {
        Some(total)
    } else {
        None
    }
}

/// Converts `text` into a value of the type that `slot` declares, or gives
/// `None` where `text` is no value of that type.
///
/// An integer slot takes what `convert_integer` reads. A boolean slot takes
/// the words `true` and `false` and nothing else. A character slot takes a
/// text of exactly one character. A text slot takes any text unchanged.
pub fn convert(slot: SlotType, text: &str) -> (value: Option<Value>)
    ensures
        value_model(value) == conversion(slot, text@),
{
    match slot {
        SlotType::Integer { min, max } => match convert_integer(text, min, max) {
            Some(n) => Some(Value::Integer(n)),
            None => None,
        },
        SlotType::Boolean => {
            let chars = chars_of(text);
            if same_text(chars.as_slice(), chars_of("true").as_slice()) {
                Some(Value::Boolean(true))
            } else if same_text(chars.as_slice(), chars_of("false").as_slice()) {
                Some(Value::Boolean(false))
            } else {
                None
            }
        },
        SlotType::Character => {
            let chars = chars_of(text);
            if chars.len() == 1 {
                Some(Value::Character(chars[0]))
            } else {
                None
            }
        },
        SlotType::Text => Some(Value::Text(text.to_owned())),
    }
}

/// Binds the captures of a match to `slots`: the first capture to the first
/// slot, and so on, each converted into the type of its slot.
///
/// More slots than captures fail with `TooManyVariables`, before any capture
/// is converted. Captures beyond the last slot are dropped. Where a capture
/// is no value of the type of its slot, binding fails with
/// `ConversionError` and no value is handed out.
pub fn bind(captured: &Vec<&str>, slots: &Vec<SlotType>) -> (outcome: Result<
    Vec<Value>,
    MatchError,
>)
    ensures
        outcome_models(outcome) == bind_result(texts(captured@), slots@),
{
    if slots.len() > captured.len() {
        return Err(MatchError::TooManyVariables);
    }
    let ghost caps = texts(captured@);
    let mut values: Vec<Value> = Vec::new();
    let mut i: usize = 0;
    while i < slots.len()
        invariant
            i <= slots@.len() <= captured@.len(),
            caps == texts(captured@),
            !some_conversion_fails(caps, slots@, i as int),
            values@.len() == i,
            forall|j: int| 0 <= j < i ==> Some((#[trigger] values@[j])@) == conversion(slots@[j], caps[j]),
        decreases slots@.len() - i,
    {
        match convert(slots[i], captured[i]) {
            None => {
                assert(conversion(slots@[i as int], caps[i as int]) is None);
                assert(some_conversion_fails(caps, slots@, slots@.len() as int));
                return Err(MatchError::ConversionError);
            },
            Some(value) => {
                values.push(value);
            },
        }
        i += 1;
    }
    assert(value_models(values@) =~= Seq::new(
        slots@.len(),
        |j: int| conversion(slots@[j], caps[j])->0,
    ));
    Ok(values)
}

/// Matches `input` against `template` and binds the captures to `slots`.
///
/// A line that does not match fails as `split_line` does; a line that
/// matches is bound as `bind` does.
pub fn match_and_parse(input: &str, template: &str, slots: &Vec<SlotType>) -> (outcome: Result<
    Vec<Value>,
    MatchError,
>)
    ensures
        outcome_models(outcome) == parse_result(input@, template@, slots@),
{
    match split_line(input, template) {
        Ok(found) => bind(&found, slots),
        Err(e) => Err(e),
    }
}

} // verus!
