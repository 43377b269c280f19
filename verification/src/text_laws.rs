//! What holds of numbers in text.

use vstd::arithmetic::power::pow;
use vstd::prelude::*;

use crate::asn1_laws::lemma_sum_scales;
use crate::cli::{all_digits, command_line, jobs, unsigned, ArgumentView};
use crate::digest::upper_hex;
use crate::text::{decimal_text, decimal_value, is_digit, law_decimal_reads_back};

verus! {

/// The sum of what each of `digits` is worth: the character `0` is worth nothing, each of the next
/// nine one more, and all of them ten times as much for each digit behind them.
pub open spec fn worth(digits: Seq<char>) -> int {
    Seq::new(
        digits.len(),
        |i: int| (digits[i] as int - 48) * pow(10, (digits.len() - 1 - i) as nat),
    ).fold_left(0int, |sum: int, term: int| sum + term)
}

/// Each character is one of the ten from `0` to `9`.
pub open spec fn only_digits(text: Seq<char>) -> bool {
    forall|i: int| 0 <= i < text.len() ==> 48 <= #[trigger] text[i] as int <= 57
}

/// Decimal digits stand for the sum of what each is worth.
pub proof fn law_decimal_digits_add_up(digits: Seq<char>)
    requires
        only_digits(digits),
    ensures
        decimal_value(digits) == worth(digits),
    decreases digits.len(),
{
    let terms = Seq::new(
        digits.len(),
        |i: int| (digits[i] as int - 48) * pow(10, (digits.len() - 1 - i) as nat),
    );
    if digits.len() > 0 {
        let less = digits.drop_last();
        let lower = Seq::new(
            less.len(),
            |i: int| (less[i] as int - 48) * pow(10, (less.len() - 1 - i) as nat),
        );
        assert(forall|i: int| 0 <= i < less.len() ==> #[trigger] less[i] == digits[i]);
        law_decimal_digits_add_up(less);
        reveal(pow);
        assert(pow(10, 0) == 1);
        assert forall|i: int| 0 <= i < less.len() implies #[trigger] terms[i] == 10 * lower[i] by {
            let p = pow(10, (less.len() - 1 - i) as nat);
            let digit = digits[i] as int - 48;
            assert(less[i] == digits[i]);
            assert(pow(10, (digits.len() - 1 - i) as nat) == 10 * p);
            assert(digit * (10 * p) == 10 * (digit * p)) by (nonlinear_arith);
        }
        lemma_sum_scales(terms.drop_last(), lower, 10);
        assert(digits[digits.len() - 1] == digits.last());
        assert(terms.last() == digits.last() as int - 48);
    }
}

/// A number is written in digits that are worth as much as it is, and with none too many: only zero
/// begins with the digit zero.
pub proof fn law_numbers_are_written_in_decimal(n: nat)
    ensures
        only_digits(decimal_text(n)),
        worth(decimal_text(n)) == n,
        decimal_text(n).len() > 0,
        n == 0 ==> decimal_text(n).len() == 1,
        n > 0 ==> decimal_text(n)[0] as int != 48,
{
    law_decimal_reads_back(n);
    assert(forall|i: int|
        0 <= i < decimal_text(n).len() ==> is_digit(#[trigger] decimal_text(n)[i]));
    law_decimal_digits_add_up(decimal_text(n));
    lemma_first_digit(n);
}

proof fn lemma_first_digit(n: nat)
    ensures
        decimal_text(n).len() > 0,
        n > 0 ==> decimal_text(n)[0] as int != 48,
    decreases n,
{
    if n >= 10 {
        lemma_first_digit(n / 10);
    }
}

/// A number of threads is read from at least one digit, perhaps behind a plus sign, and from nothing
/// else. It is what the digits are worth, and it is refused where that is nothing, or too much.
pub proof fn law_what_is_read_as_jobs(text: Seq<char>, parsed: Result<usize, String>)
    requires
        match parsed {
            Ok(n) => jobs(text) == Ok::<nat, Seq<char>>(n as nat),
            Err(message) => jobs(text) == Err::<nat, Seq<char>>(message@),
        },
    ensures
        ({
            let digits = if text.len() > 0 && text[0] as int == 43 {
                text.skip(1)
            } else {
                text
            };
            let readable = digits.len() > 0 && only_digits(digits);
            &&& parsed is Ok <==> readable && 0 < worth(digits) <= usize::MAX
            &&& parsed matches Ok(n) ==> n == worth(digits)
            &&& parsed matches Err(message) ==> if readable && worth(digits) == 0 {
                message@ == "jobs must be greater than zero"@
            } else {
                message@ == "jobs must be a positive integer"@
            }
        }),
{
    let digits = unsigned(text);
    assert('+' as int == 43);
    assert(only_digits(digits) <==> all_digits(digits)) by {
        if all_digits(digits) {
            assert(forall|i: int| 0 <= i < digits.len() ==> is_digit(#[trigger] digits[i]));
        }
    }
    if only_digits(digits) {
        law_decimal_digits_add_up(digits);
    }
}

/// A digest in text is two characters for each byte, the high half before the low half, each the
/// upper-case hexadecimal digit of its half.
pub proof fn law_digests_are_shown_in_hexadecimal(bytes: Seq<u8>)
    ensures
        upper_hex(bytes).len() == 2 * bytes.len(),
        forall|i: int|
            0 <= i < bytes.len() ==> {
                &&& upper_hex(bytes)[2 * i] == "0123456789ABCDEF"@[#[trigger] bytes[i] as int / 16]
                &&& upper_hex(bytes)[2 * i + 1] == "0123456789ABCDEF"@[bytes[i] as int % 16]
            },
{
    reveal_strlit("0123456789ABCDEF");
    assert forall|i: int| 0 <= i < bytes.len() implies {
        &&& upper_hex(bytes)[2 * i] == "0123456789ABCDEF"@[#[trigger] bytes[i] as int / 16]
        &&& upper_hex(bytes)[2 * i + 1] == "0123456789ABCDEF"@[bytes[i] as int % 16]
    } by {
        assert((2 * i) / 2 == i && (2 * i) % 2 == 0);
        assert((2 * i + 1) / 2 == i && (2 * i + 1) % 2 == 1);
    }
}

/// The default of the number of threads is read back as that number, whatever command it is of.
pub proof fn law_the_default_is_read_back(default_jobs: usize, command: int, argument: int)
    requires
        default_jobs > 0,
        0 <= command < command_line(default_jobs as nat).commands.len(),
        0 <= argument < command_line(default_jobs as nat).commands[command].arguments.len(),
    ensures
        command_line(default_jobs as nat).commands[command].arguments[argument]
            matches ArgumentView::Jobs { id, default, .. } ==> id == "jobs"@ && jobs(default)
            == Ok::<nat, Seq<char>>(default_jobs as nat),
{
    law_decimal_reads_back(default_jobs as nat);
}

/// There are three commands, and each takes an image and a number of threads. Only `move` takes a
/// destination, only `scan` a log, and only `move` and `delete` can be forced. The image and the
/// destination are told by their places and must be given, in this order; the log is told by its name
/// and need not be.
pub proof fn law_what_the_commands_take(default_jobs: nat, i: int)
    requires
        0 <= i < command_line(default_jobs).commands.len(),
    ensures
        command_line(default_jobs).commands.len() == 3,
        command_line(default_jobs).command_required,
        command_line(default_jobs).arguments.len() == 0,
        ({
            let command = command_line(default_jobs).commands[i];
            let takes = |id: Seq<char>|
                exists|j: int|
                    0 <= j < command.arguments.len() && argument_id(#[trigger] command.arguments[j])
                        == id;
            &&& command.name == "scan"@ || command.name == "move"@ || command.name == "delete"@
            &&& takes("image_root"@) && takes("jobs"@)
            &&& command.name == "move"@ ==> takes("destination"@) && takes("force"@)
            &&& command.name == "delete"@ ==> takes("force"@)
            &&& command.name == "scan"@ ==> takes("log"@)
            &&& forall|j: int|
                0 <= j < command.arguments.len() ==> match #[trigger] command.arguments[j] {
                    ArgumentView::Path { id, long, required, .. } => {
                        ||| id == "image_root"@ && long is None && required && j == 0
                        ||| id == "destination"@ && long is None && required && j == 1
                            && command.name == "move"@
                        ||| id == "log"@ && long == Some("log"@) && !required && command.name
                            == "scan"@
                    },
                    ArgumentView::Jobs { id, .. } => id == "jobs"@,
                    ArgumentView::Flag { id } => id == "force"@ && command.name != "scan"@,
                }
        }),
{
    reveal_strlit("scan");
    reveal_strlit("move");
    reveal_strlit("delete");
    assert("scan"@[0] != "move"@[0]);
    assert("scan"@.len() != "delete"@.len());
    assert("move"@.len() != "delete"@.len());
    let command = command_line(default_jobs).commands[i];
    assert(argument_id(command.arguments[0]) == "image_root"@);
    assert(argument_id(command.arguments[1]) == if i == 1 {
        "destination"@
    } else {
        "jobs"@
    });
    assert(argument_id(command.arguments[2]) == if i == 0 {
        "log"@
    } else if i == 1 {
        "jobs"@
    } else {
        "force"@
    });
    if i == 1 {
        assert(argument_id(command.arguments[3]) == "force"@);
    }
}

/// The name under which the value of an argument is found.
pub open spec fn argument_id(argument: ArgumentView) -> Seq<char> {
    match argument {
        ArgumentView::Path { id, .. } => id,
        ArgumentView::Jobs { id, .. } => id,
        ArgumentView::Flag { id } => id,
    }
}

} // verus!
