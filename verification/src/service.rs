//! The rules of the programs around the engine: the port of the service, the
//! status of its answers, and the files that preparation reads and writes.
use crate::decision::FraudResponse;
use crate::engine::decimal;
use crate::timestamp::VectorizeError;
use vstd::prelude::*;

verus! {

/// The port where none is set.
pub const DEFAULT_PORT: u16 = 8080;

/// The status of the service once its references are loaded.
pub const READY_STATUS: u16 = 204;

/// The number that decimal digits stand for.
pub open spec fn digits_value(digits: Seq<char>) -> nat
    decreases digits.len(),
{
    if digits.len() == 0 {
        0
    } else {
        10 * digits_value(digits.drop_last()) + (digits.last() as nat - '0' as nat) as nat
    }
}

/// Whether a text has decimal digits only.
pub open spec fn all_digits(text: Seq<char>) -> bool {
    forall|i: int| 0 <= i < text.len() ==> '0' <= #[trigger] text[i] <= '9'
}

/// The number of sixteen bits that a text stands for: decimal digits only, at
/// least one of them, after a plus sign or none.
pub open spec fn decimal_u16(text: Seq<char>) -> Option<u16> {
    let digits = if text.len() > 0 && text[0] == '+' {
        text.skip(1)
    } else {
        text
    };
    if digits.len() > 0 && all_digits(digits) && digits_value(digits) <= u16::MAX {
        Some(digits_value(digits) as u16)
    } else {
        None
    }
}

/// Calls `str::parse` for a number of sixteen bits. It accepts decimal digits
/// after a plus sign or none, and rejects everything else and what is too large.
#[verifier::external_body]
fn parse_u16(text: &str) -> (number: Option<u16>)
    ensures
        number == decimal_u16(text@),
{
    text.parse::<u16>().ok()
}

/// The port to listen on: the one that is set, if it is a port.
pub fn listen_port(setting: Option<&str>) -> (port: u16)
    ensures
        port == match setting {
            Some(text) => match decimal_u16(text@) {
                Some(number) => number,
                None => DEFAULT_PORT,
            },
            None => DEFAULT_PORT,
        },
{
    match setting {
        Some(text) => match parse_u16(text) {
            Some(number) => number,
            None => DEFAULT_PORT,
        },
        None => DEFAULT_PORT,
    }
}

/// The status of an answer: success for a score, a bad request for a timestamp
/// that is wrong, and an internal error where scoring did not come to an end.
pub fn response_status(outcome: &Option<Result<FraudResponse, VectorizeError>>) -> (status: u16)
    ensures
        status == match outcome {
            Some(Ok(_)) => 200u16,
            Some(Err(_)) => 400u16,
            None => 500u16,
        },
{
    match outcome {
        Some(Ok(_)) => 200,
        Some(Err(_)) => 400,
        None => 500,
    }
}

/// The argument behind the first occurrence of a flag.
pub open spec fn flag_argument(args: Seq<String>, flag: Seq<char>) -> Option<Seq<char>>
    decreases args.len(),
{
    if args.len() < 2 {
        None
    } else if args[0]@ == flag {
        Some(args[1]@)
    } else {
        flag_argument(args.skip(1), flag)
    }
}

/// The argument behind the first occurrence of a flag.
pub fn flag_value<'a>(args: &'a [String], flag: &str) -> (value: Option<&'a String>)
    ensures
        flag_argument(args@, flag@) == (match value {
            Some(text) => Some(text@),
            None => None,
        }),
{
    let wanted: String = flag.to_owned();
    let mut next: usize = 0;
    assert(args@.skip(0) =~= args@);
    while next < args.len() && next + 1 < args.len()
        invariant
            next <= args@.len(),
            wanted@ == flag@,
            flag_argument(args@, flag@) == flag_argument(args@.skip(next as int), flag@),
        decreases args@.len() - next,
    {
        assert(args@.skip(next as int).skip(1) =~= args@.skip(next + 1));
        if args[next] == wanted {
            return Some(&args[next + 1]);
        }
        next = next + 1;
    }
    None
}

/// The argument behind the first occurrence of a flag, or else a default.
fn flag_or(args: &[String], flag: &str, default: &str) -> (value: String)
    ensures
        value@ == match flag_argument(args@, flag@) {
            Some(text) => text,
            None => default@,
        },
{
    match flag_value(args, flag) {
        Some(text) => text.clone(),
        None => default.to_owned(),
    }
}

/// The file that preparation reads.
pub fn preprocess_input(args: &[String]) -> (path: String)
    ensures
        path@ == match flag_argument(args@, "--input"@) {
            Some(text) => text,
            None => "data/references.json.gz"@,
        },
{
    flag_or(args, "--input", "data/references.json.gz")
}

/// The file that preparation writes.
pub fn preprocess_output(args: &[String]) -> (path: String)
    ensures
        path@ == match flag_argument(args@, "--output"@) {
            Some(text) => text,
            None => "data/references.bin"@,
        },
{
    flag_or(args, "--output", "data/references.bin")
}

/// A flag has the argument behind its first occurrence, and none where it does not
/// occur before the last argument.
pub proof fn lemma_flag_takes_the_next_argument(args: Seq<String>, flag: Seq<char>, at: int)
    ensures
        0 <= at < args.len() - 1 && args[at]@ == flag && (forall|k: int|
            0 <= k < at ==> #[trigger] args[k]@ != flag) ==> flag_argument(args, flag) == Some(
            args[at + 1]@,
        ),
        (forall|k: int| 0 <= k < args.len() - 1 ==> #[trigger] args[k]@ != flag) ==> flag_argument(
            args,
            flag,
        ) is None,
    decreases args.len(),
{
    if args.len() >= 2 {
        let rest = args.skip(1);
        assert(forall|k: int| 0 <= k < rest.len() ==> #[trigger] rest[k] == args[k + 1]);
        lemma_flag_takes_the_next_argument(rest, flag, at - 1);
        if args[0]@ != flag {
            if 0 <= at < args.len() - 1 && args[at]@ == flag && (forall|k: int|
                0 <= k < at ==> #[trigger] args[k]@ != flag) {
                assert(rest[at - 1]@ == flag);
                assert(forall|k: int|
                    0 <= k < at - 1 ==> #[trigger] rest[k]@ == args[k + 1]@);
                assert(rest[at] == args[at + 1]);
            }
            if forall|k: int| 0 <= k < args.len() - 1 ==> #[trigger] args[k]@ != flag {
                assert forall|k: int| 0 <= k < rest.len() - 1 implies #[trigger] rest[k]@
                    != flag by {
                    assert(args[k + 1]@ != flag);
                }
            }
        } else {
            assert(0 <= 0 < args.len() - 1);
        }
    }
}

/// A digit that is appended counts one, and what stands before it counts ten times.
pub proof fn lemma_appended_digit(digits: Seq<char>, digit: char)
    requires
        '0' <= digit <= '9',
    ensures
        digits_value(Seq::empty()) == 0,
        digits_value(digits.push(digit)) == 10 * digits_value(digits) + (digit as nat - '0' as nat),
{
    assert(digits.push(digit).drop_last() =~= digits);
}

/// A number written in decimal has digits only, no zero before the first of
/// several, and reads as that number.
pub proof fn lemma_decimal_reads_back(number: nat)
    ensures
        decimal(number).len() > 0,
        forall|i: int| 0 <= i < decimal(number).len() ==> '0' <= #[trigger] decimal(number)[i]
            <= '9',
        digits_value(decimal(number)) == number,
        number > 0 ==> decimal(number)[0] != '0',
        number < 10 ==> decimal(number).len() == 1,
    decreases number,
{
    let text = decimal(number);
    if number >= 10 {
        lemma_decimal_reads_back(number / 10);
        assert(text.drop_last() =~= decimal(number / 10));
    } else {
        assert(text.drop_last() =~= Seq::empty());
        assert(digits_value(text.drop_last()) == 0);
    }
}

/// A number of sixteen bits in decimal reads as itself, with a plus sign or
/// without; a larger one is none.
pub proof fn lemma_port_reads_back(number: nat)
    ensures
        decimal_u16(decimal(number)) == if number <= 65_535 {
            Some(number as u16)
        } else {
            None
        },
        decimal_u16(seq!['+'] + decimal(number)) == decimal_u16(decimal(number)),
{
    lemma_decimal_reads_back(number);
    let text = decimal(number);
    assert((seq!['+'] + text).skip(1) =~= text);
    assert('0' <= text[0] <= '9');
}

/// A text with anything but digits behind its first character, or anything but a
/// digit or a plus sign there, is no number; nor is a text without digits.
pub proof fn lemma_other_texts_are_no_number(text: Seq<char>, at: int)
    requires
        0 <= at < text.len(),
        !('0' <= text[at] <= '9'),
        at == 0 ==> text[at] != '+' || text.len() == 1,
    ensures
        decimal_u16(text) is None,
        decimal_u16(Seq::empty()) is None,
{
    if text[0] == '+' {
        let digits = text.skip(1);
        if at > 0 {
            assert(digits[at - 1] == text[at]);
        }
    }
}

} // verus!
