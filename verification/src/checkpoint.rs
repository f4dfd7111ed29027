//! The checkpoint file: the id of the last transaction that a checkpoint covers, in decimal.
use crate::error::WalError;
use vstd::prelude::*;
use vstd::string::{StrSliceExecFns, StringExecFns};

verus! {

/// The character for a digit.
pub open spec fn digit_char(digit: nat) -> char {
    (0x30 + digit) as char
}

/// A number in decimal, without leading zeros.
pub open spec fn decimal(n: nat) -> Seq<char>
    decreases n,
{
    if n < 10 {
        seq![digit_char(n)]
    } else {
        decimal(n / 10).push(digit_char(n % 10))
    }
}

/// Whether a character is a decimal digit.
pub open spec fn is_digit(c: char) -> bool {
    0x30 <= c as u32 <= 0x39
}

/// The number that decimal digits stand for.
pub open spec fn digits_value(text: Seq<char>) -> nat
    decreases text.len(),
{
    if text.len() == 0 {
        0
    } else {
        10 * digits_value(text.drop_last()) + (text.last() as u32 - 0x30) as nat
    }
}

/// The number that `text` stands for: digits, with or without a `+` in front, if they fit.
pub open spec fn parsed(text: Seq<char>) -> Option<u64> {
    let digits = if text.len() > 0 && text[0] == '+' {
        text.skip(1)
    } else {
        text
    };
    if digits.len() > 0 && (forall|i: int| 0 <= i < digits.len() ==> is_digit(#[trigger] digits[i]))
        && digits_value(digits) <= u64::MAX {
        Some(digits_value(digits) as u64)
    } else {
        None
    }
}

/// What the error of `str::parse::<u64>` says of a text that it refuses.
pub uninterp spec fn parse_error_text(text: Seq<char>) -> Seq<char>;

/// `str::parse::<u64>`: the number that an optional `+` and digits stand for. Anything else, and a
/// number that does not fit, is refused with an error that depends on the text alone.
#[verifier::external_body]
pub(crate) fn parse_u64(text: &str) -> (r: Result<u64, String>)
    ensures
        match r {
            Ok(n) => parsed(text@) == Some(n),
            Err(error) => parsed(text@) is None && error@ == parse_error_text(text@),
        },
{
    text.parse::<u64>().map_err(|e| e.to_string())
}

/// Whether a character is white space (the Unicode property `White_Space`).
pub open spec fn is_white(c: char) -> bool {
    let code = c as u32;
    ||| 0x09 <= code <= 0x0d
    ||| code == 0x20
    ||| code == 0x85
    ||| code == 0xa0
    ||| code == 0x1680
    ||| 0x2000 <= code <= 0x200a
    ||| code == 0x2028
    ||| code == 0x2029
    ||| code == 0x202f
    ||| code == 0x205f
    ||| code == 0x3000
}

/// A text without the white space in front.
pub open spec fn trimmed_start(text: Seq<char>) -> Seq<char>
    decreases text.len(),
{
    if text.len() > 0 && is_white(text[0]) {
        trimmed_start(text.skip(1))
    } else {
        text
    }
}

/// A text without the white space at the end.
pub open spec fn trimmed_end(text: Seq<char>) -> Seq<char>
    decreases text.len(),
{
    if text.len() > 0 && is_white(text.last()) {
        trimmed_end(text.drop_last())
    } else {
        text
    }
}

/// A text without the white space at both ends.
pub open spec fn trimmed(text: Seq<char>) -> Seq<char> {
    trimmed_end(trimmed_start(text))
}

fn is_white_space(c: char) -> (white: bool)
    ensures
        white == is_white(c),
{
    let code: u32 = c as u32;
    (0x09 <= code && code <= 0x0d) || code == 0x20 || code == 0x85 || code == 0xa0 || code == 0x1680
        || (0x2000 <= code && code <= 0x200a) || code == 0x2028 || code == 0x2029 || code == 0x202f
        || code == 0x205f || code == 0x3000
}

/// A text without the white space at both ends.
pub fn trim(text: &str) -> (r: &str)
    ensures
        r@ == trimmed(text@),
{
    let len: usize = text.unicode_len();
    let mut start: usize = 0;
    proof {
        assert(text@.skip(0) =~= text@);
    }
    while start < len && is_white_space(text.get_char(start))
        invariant
            start <= len == text@.len(),
            trimmed_start(text@.skip(start as int)) == trimmed_start(text@),
        decreases len - start,
    {
        proof {
            assert(text@.skip(start as int)[0] == text@[start as int]);
            assert(text@.skip(start as int).skip(1) =~= text@.skip(start + 1));
        }
        start = start + 1;
    }
    let ghost front = text@.skip(start as int);
    proof {
        if front.len() > 0 {
            assert(front[0] == text@[start as int]);
        }
        assert(trimmed_start(text@) == front);
        assert(text@.subrange(start as int, len as int) =~= front);
    }
    let mut end: usize = len;
    while end > start && is_white_space(text.get_char(end - 1))
        invariant
            start <= end <= len == text@.len(),
            front == text@.skip(start as int),
            trimmed_end(text@.subrange(start as int, end as int)) == trimmed_end(front),
        decreases end,
    {
        proof {
            let rest = text@.subrange(start as int, end as int);
            assert(rest.last() == text@[end - 1]);
            assert(rest.drop_last() =~= text@.subrange(start as int, end - 1));
        }
        end = end - 1;
    }
    proof {
        let rest = text@.subrange(start as int, end as int);
        if rest.len() > 0 {
            assert(rest.last() == text@[end - 1]);
        }
    }
    text.substring_char(start, end)
}

/// The digit `digit` as a text.
fn digit_text(digit: u64) -> (text: &'static str)
    requires
        digit < 10,
    ensures
        text@ == seq![digit_char(digit as nat)],
{
    proof {
        reveal_strlit("0");
        reveal_strlit("1");
        reveal_strlit("2");
        reveal_strlit("3");
        reveal_strlit("4");
        reveal_strlit("5");
        reveal_strlit("6");
        reveal_strlit("7");
        reveal_strlit("8");
        reveal_strlit("9");
    }
    let text = if digit == 0 {
        "0"
    } else if digit == 1 {
        "1"
    } else if digit == 2 {
        "2"
    } else if digit == 3 {
        "3"
    } else if digit == 4 {
        "4"
    } else if digit == 5 {
        "5"
    } else if digit == 6 {
        "6"
    } else if digit == 7 {
        "7"
    } else if digit == 8 {
        "8"
    } else {
        "9"
    };
    assert(text@ =~= seq![digit_char(digit as nat)]);
    text
}

fn append_decimal(out: &mut String, n: u64)
    ensures
        final(out)@ == old(out)@ + decimal(n as nat),
    decreases n,
{
    if n < 10 {
        out.append(digit_text(n));
    } else {
        append_decimal(out, n / 10);
        out.append(digit_text(n % 10));
        assert(out@ =~= old(out)@ + decimal(n as nat));
    }
}

/// What the checkpoint file holds for the transaction id `tx_id`.
pub fn checkpoint_text(tx_id: u64) -> (text: String)
    ensures
        text@ == decimal(tx_id as nat),
{
    let mut text = String::new();
    append_decimal(&mut text, tx_id);
    assert(text@ =~= decimal(tx_id as nat));
    text
}

/// The checkpoint for what was parsed from the checkpoint file.
pub fn parsed_checkpoint(parsed: Result<u64, String>) -> (r: Result<u64, WalError>)
    ensures
        match parsed {
            Ok(n) => r == Ok::<u64, WalError>(n),
            Err(error) => r matches Err(WalError::Checkpoint(text)) && text@
                == "Invalid checkpoint TxID: "@ + error@,
        },
{
    match parsed {
        Ok(n) => Ok(n),
        Err(error) => {
            let mut text = "Invalid checkpoint TxID: ".to_string();
            text.append(error.as_str());
            Err(WalError::Checkpoint(text))
        },
    }
}

pub proof fn lemma_decimal(n: nat)
    ensures
        decimal(n).len() > 0,
        forall|i: int| 0 <= i < decimal(n).len() ==> is_digit(#[trigger] decimal(n)[i]),
        digits_value(decimal(n)) == n,
    decreases n,
{
    if n < 10 {
        reveal_with_fuel(digits_value, 2);
    } else {
        lemma_decimal(n / 10);
        assert(decimal(n).drop_last() =~= decimal(n / 10));
    }
}

/// Reading the checkpoint file gives back the transaction id that was written to it.
pub proof fn law_checkpoint_reads_back(tx_id: u64)
    ensures
        parsed(trimmed(decimal(tx_id as nat))) == Some(tx_id),
{
    let text = decimal(tx_id as nat);
    lemma_decimal(tx_id as nat);
    assert(is_digit(text[0]) && is_digit(text[text.len() - 1]));
    assert(trimmed(text) == text);
}

} // verus!
