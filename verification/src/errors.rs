//! Recoverable errors with `Option`, `Result` and custom error types.

use vstd::prelude::*;

use crate::text::{decimal, decimal_value, parse_i32, push_decimal};

verus! {

#[derive(Debug, Clone, PartialEq, Eq)]
pub enum PositiveNumberError {
    EmptyInput,
    NotANumber(String),
    NotPositive(i32),
}

/// The decimal text of an `i32`, with a leading `-` when negative.
pub open spec fn signed_decimal(value: i32) -> Seq<char> {
    if value < 0 {
        "-"@ + decimal((0 - value) as nat)
    } else {
        decimal(value as nat)
    }
}

impl PositiveNumberError {
    /// The human-readable text of the error.
    pub open spec fn message_text(&self) -> Seq<char> {
        match self {
            PositiveNumberError::EmptyInput => "at least one value is required"@,
            PositiveNumberError::NotANumber(value) => "`"@ + value@ + "` is not a whole number"@,
            PositiveNumberError::NotPositive(value) => "expected a positive number, got "@
                + signed_decimal(*value),
        }
    }

    pub fn message(&self) -> (text: String)
        ensures
            text@ == self.message_text(),
    {
        match self {
            PositiveNumberError::EmptyInput => "at least one value is required".to_owned(),
            PositiveNumberError::NotANumber(value) => {
                let mut text = "`".to_owned();
                text.append(value.as_str());
                text.append("` is not a whole number");
                text
            },
            PositiveNumberError::NotPositive(value) => {
                let mut text = "expected a positive number, got ".to_owned();
                if *value < 0 {
                    text.append("-");
                    push_decimal(&mut text, (0 - (*value as i64)) as u64);
                } else {
                    push_decimal(&mut text, *value as u64);
                }
                text
            },
        }
    }
}

/// Reads a positive whole number.
pub fn parse_positive(input: &str) -> (result: Result<i32, PositiveNumberError>)
    ensures
        match decimal_value(input@, true) {
            Some(v) => if i32::MIN <= v <= i32::MAX {
                if v <= 0 {
                    result == Err::<i32, _>(PositiveNumberError::NotPositive(v as i32))
                } else {
                    result == Ok::<i32, PositiveNumberError>(v as i32)
                }
            } else {
                result matches Err(PositiveNumberError::NotANumber(text)) && text@ == input@
            },
            None => result matches Err(PositiveNumberError::NotANumber(text)) && text@ == input@,
        },
{
    let value = match parse_i32(input) {
        Some(value) => value,
        None => {
            return Err(PositiveNumberError::NotANumber(input.to_owned()));
        },
    };
    if value <= 0 {
        Err(PositiveNumberError::NotPositive(value))
    } else {
        Ok(value)
    }
}

/// The number `input` spells when it is a positive `i32`.
pub open spec fn positive_value(input: Seq<char>) -> Option<int> {
    match decimal_value(input, true) {
        Some(v) => if 0 < v <= i32::MAX {
            Some(v)
        } else {
            None
        },
        None => None,
    }
}

/// `error` is what `parse_positive` refuses `input` with.
pub open spec fn refusal(input: Seq<char>, error: PositiveNumberError) -> bool {
    match decimal_value(input, true) {
        Some(v) => if i32::MIN <= v <= i32::MAX {
            v <= 0 && error == PositiveNumberError::NotPositive(v as i32)
        } else {
            error matches PositiveNumberError::NotANumber(text) && text@ == input
        },
        None => error matches PositiveNumberError::NotANumber(text) && text@ == input,
    }
}

/// The sum of the positive numbers that `inputs` spell.
pub open spec fn positive_sum(inputs: Seq<&str>) -> int
    decreases inputs.len(),
{
    if inputs.len() == 0 {
        0
    } else {
        positive_sum(inputs.drop_last()) + match positive_value(inputs.last()@) {
            Some(v) => v,
            None => 0,
        }
    }
}

/// Adds up the positive numbers that `inputs` spell, reading each with
/// `parse_positive`: no inputs is `EmptyInput`, and the first input that is
/// not a positive number stops the sum with its own error.
pub fn positive_total(inputs: &[&str]) -> (result: Result<i64, PositiveNumberError>)
    requires
        inputs@.len() <= u32::MAX,
    ensures
        inputs@.len() == 0 ==> result == Err::<i64, _>(PositiveNumberError::EmptyInput),
        inputs@.len() > 0 && (forall|i: int|
            0 <= i < inputs@.len() ==> positive_value(#[trigger] inputs@[i]@) is Some) ==> result
            == Ok::<i64, PositiveNumberError>(positive_sum(inputs@) as i64),
        inputs@.len() > 0 && !(forall|i: int|
            0 <= i < inputs@.len() ==> positive_value(#[trigger] inputs@[i]@) is Some) ==> (exists|
            i: int,
        |
            0 <= i < inputs@.len() && positive_value(#[trigger] inputs@[i]@) is None && (forall|
                j: int,
            | 0 <= j < i ==> positive_value(#[trigger] inputs@[j]@) is Some) && (result matches Err(
                error,
            ) && refusal(inputs@[i]@, error))),
{
    if inputs.len() == 0 {
        return Err(PositiveNumberError::EmptyInput);
    }
    let mut total: i64 = 0;
    let mut index: usize = 0;
    while index < inputs.len()
        invariant
            index <= inputs@.len() <= u32::MAX,
            forall|j: int| 0 <= j < index ==> positive_value(#[trigger] inputs@[j]@) is Some,
            total == positive_sum(inputs@.take(index as int)),
            0 <= total <= index * 2147483647,
        decreases inputs@.len() - index,
    {
        let input = inputs[index];
        match parse_positive(input) {
            Ok(value) => {
                proof {
                    assert(inputs@.take(index + 1).drop_last() =~= inputs@.take(index as int));
                    assert(positive_value(input@) == Some(value as int));
                    assert((index + 1) * 2147483647 == index * 2147483647 + 2147483647)
                        by (nonlinear_arith);
                    assert(index * 2147483647 <= 4294967295 * 2147483647) by (nonlinear_arith)
                        requires
                            index <= 4294967295,
                    ;
                }
                total = total + value as i64;
                index = index + 1;
            },
            Err(error) => {
                proof {
                    assert(refusal(inputs@[index as int]@, error));
                    assert(positive_value(inputs@[index as int]@) is None);
                }
                return Err(error);
            },
        }
    }
    proof {
        assert(inputs@.take(inputs@.len() as int) =~= inputs@);
    }
    Ok(total)
}

} // verus!
