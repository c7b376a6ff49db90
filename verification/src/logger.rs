//! What goes into the log: the lines, not the files.

use vstd::prelude::*;
use vstd::string::StringExecFns;
use crate::communication::{ABORT, COMMIT, FINISH, PREPARE};

verus! {

/// The levels of the log.
#[derive(Debug, Clone, Copy, PartialEq, Eq, Structural)]
pub enum LogLevel {
    /// How the system starts up and runs; nothing about payments.
    TRACE,
    /// What happens to payments; these lines also go to the console.
    INFO,
    /// The program is shutting down.
    FINISH,
}

/// The name of a component and the file that its lines go to.
#[derive(Debug)]
pub struct Logger {
    /// The name that the console lines start with.
    pub name: String,
    /// The path of the log file.
    pub filename: String,
}

/// A message and the level to log it at.
#[derive(Debug)]
pub struct LogLine {
    /// The level.
    pub level: LogLevel,
    /// The message.
    pub text: String,
}

/// One message, ready to be written.
#[derive(Debug)]
pub struct LogRecord {
    /// The line for the log file, with its line break.
    pub line: String,
    /// The line for the console, without a line break, where there is one.
    pub console: Option<String>,
}

/// The path of the log file of the component called `name`.
pub open spec fn log_path(name: Seq<char>) -> Seq<char> {
    "logs/"@ + name + ".log"@
}

/// The name of a level, filled with blanks to six characters.
pub open spec fn level_field(level: LogLevel) -> Seq<char> {
    match level {
        LogLevel::TRACE => "TRACE "@,
        LogLevel::INFO => "INFO  "@,
        LogLevel::FINISH => "FINISH"@,
    }
}

/// The line that a message makes in the log file.
pub open spec fn file_line(now: Seq<char>, level: LogLevel, msg: Seq<char>) -> Seq<char> {
    now + " | "@ + level_field(level) + " | "@ + msg + " \n"@
}

/// The line that a message makes on the console.
pub open spec fn console_line(name: Seq<char>, msg: Seq<char>) -> Seq<char> {
    name + ": "@ + msg
}

impl Clone for Logger {
    fn clone(&self) -> (copy: Self)
        ensures
            copy.name@ == self.name@,
            copy.filename@ == self.filename@,
    {
        Logger { name: self.name.clone(), filename: self.filename.clone() }
    }
}

impl Logger {
    /// The logger of the component called `name`; its file lies under
    /// `logs/` and has the component's name.
    pub fn new(name: String) -> (logger: Logger)
        ensures
            logger.name@ == name@,
            logger.filename@ == log_path(name@),
    {
        let mut filename_path: String = String::from_str("logs/");
        filename_path.append(name.as_str());
        filename_path.append(".log");
        Logger { name, filename: filename_path }
    }

    /// What logging `msg` at `loglevel` writes, at the time that `now`
    /// spells out: a line for the file, and for `INFO` one for the console.
    pub fn log(&self, msg: &str, loglevel: LogLevel, now: &str) -> (record: LogRecord)
        ensures
            record.line@ == file_line(now@, loglevel, msg@),
            loglevel == LogLevel::INFO ==> (record.console matches Some(text) && text@
                == console_line(self.name@, msg@)),
            loglevel != LogLevel::INFO ==> record.console is None,
    {
        let console: Option<String> = match loglevel {
            LogLevel::INFO => {
                let mut text: String = self.name.clone();
                text.append(": ");
                text.append(msg);
                Some(text)
            },
            _ => None,
        };
        let mut line: String = String::from_str(now);
        line.append(" | ");
        line.append(
            match loglevel {
                LogLevel::TRACE => "TRACE ",
                LogLevel::INFO => "INFO  ",
                LogLevel::FINISH => "FINISH",
            },
        );
        line.append(" | ");
        line.append(msg);
        line.append(" \n");
        LogRecord { line, console }
    }
}

/// A decimal digit as text.
pub open spec fn digit_text(digit: nat) -> Seq<char> {
    if digit == 0 {
        "0"@
    } else if digit == 1 {
        "1"@
    } else if digit == 2 {
        "2"@
    } else if digit == 3 {
        "3"@
    } else if digit == 4 {
        "4"@
    } else if digit == 5 {
        "5"@
    } else if digit == 6 {
        "6"@
    } else if digit == 7 {
        "7"@
    } else if digit == 8 {
        "8"@
    } else {
        "9"@
    }
}

/// A number in decimal digits, without leading zeros.
pub open spec fn decimal_text(n: nat) -> Seq<char>
    decreases n,
{
    if n < 10 {
        digit_text(n)
    } else {
        decimal_text(n / 10) + digit_text(n % 10)
    }
}

/// Amounts in decimal digits, with commas after all but the last.
pub open spec fn listed(amounts: Seq<u32>) -> Seq<char>
    decreases amounts.len(),
{
    if amounts.len() == 0 {
        Seq::empty()
    } else if amounts.len() == 1 {
        decimal_text(amounts[0] as nat)
    } else {
        decimal_text(amounts[0] as nat) + ","@ + listed(amounts.skip(1))
    }
}

/// The amounts of a record as the log shows them: in square brackets, with
/// commas between them.
pub open spec fn amounts_text(amounts: Seq<u32>) -> Seq<char> {
    "["@ + listed(amounts) + "]"@
}

/// The name of a phase in the log.
pub open spec fn phase_text(status: u8) -> Seq<char> {
    if status == PREPARE {
        "PREPARE"@
    } else if status == COMMIT {
        "COMMIT"@
    } else if status == ABORT {
        "ABORT"@
    } else if status == FINISH {
        "FINISH"@
    } else {
        "?"@
    }
}

/// What the log says of a transaction that enters a phase: its id, the
/// phase, and the amounts of its record.
pub open spec fn transaction_text(id: usize, status: u8, amounts: Seq<u32>) -> Seq<char> {
    "Transaction "@ + decimal_text(id as nat) + " | "@ + phase_text(status) + " | "@
        + amounts_text(amounts)
}

/// What the log says of a payment that was decided: the amounts, and `OK`
/// for one that is committed or `ERR` for any other.
pub open spec fn payment_text(amounts: Seq<u32>, operation: u8) -> Seq<char> {
    "Payment of "@ + amounts_text(amounts) + " | "@ + (if operation == COMMIT {
        "OK"@
    } else {
        "ERR"@
    })
}

fn digit_str(digit: usize) -> (text: &'static str)
    requires
        digit < 10,
    ensures
        text@ == digit_text(digit as nat),
{
    if digit == 0 {
        "0"
    } else if digit == 1 {
        "1"
    } else if digit == 2 {
        "2"
    } else if digit == 3 {
        "3"
    } else if digit == 4 {
        "4"
    } else if digit == 5 {
        "5"
    } else if digit == 6 {
        "6"
    } else if digit == 7 {
        "7"
    } else if digit == 8 {
        "8"
    } else {
        "9"
    }
}

/// Appends a number in decimal digits.
pub fn append_decimal(out: &mut String, n: usize)
    ensures
        final(out)@ == old(out)@ + decimal_text(n as nat),
{
    let mut low_first: Vec<usize> = Vec::new();
    let mut rest: usize = n;
    let ghost mut tail: Seq<char> = Seq::empty();
    proof {
        assert(decimal_text(rest as nat) + tail =~= decimal_text(n as nat));
    }
    while rest >= 10
        invariant
            decimal_text(n as nat) == decimal_text(rest as nat) + tail,
            forall|k: int| 0 <= k < low_first@.len() ==> low_first@[k] < 10,
            tail == digits_from(low_first@, low_first@.len() as int),
        decreases rest,
    {
        let digit: usize = rest % 10;
        proof {
            assert(decimal_text((rest / 10) as nat) + digit_text(digit as nat) + tail
                =~= decimal_text((rest / 10) as nat) + (digit_text(digit as nat) + tail));
            lemma_digits_from_push(low_first@, digit);
            tail = digit_text(digit as nat) + tail;
        }
        low_first.push(digit);
        rest = rest / 10;
    }
    proof {
        lemma_digits_from_push(low_first@, rest);
        tail = digit_text(rest as nat) + tail;
    }
    low_first.push(rest);
    let ghost start = out@;
    let mut i: usize = low_first.len();
    proof {
        assert(start + digits_from(low_first@, i as int) =~= start + decimal_text(n as nat));
    }
    while i > 0
        invariant
            i <= low_first@.len(),
            forall|k: int| 0 <= k < low_first@.len() ==> low_first@[k] < 10,
            out@ + digits_from(low_first@, i as int) == start + decimal_text(n as nat),
        decreases i,
    {
        let ghost before = out@;
        i = i - 1;
        out.append(digit_str(low_first[i]));
        proof {
            assert(before + (digit_text(low_first@[i as int] as nat) + digits_from(
                low_first@,
                i as int,
            )) =~= out@ + digits_from(low_first@, i as int));
        }
    }
    proof {
        assert(out@ + digits_from(low_first@, 0) =~= out@);
    }
}

/// The digits at the places below `upto`, the highest place first; the
/// digits are given lowest place first.
pub open spec fn digits_from(low_first: Seq<usize>, upto: int) -> Seq<char>
    decreases upto,
{
    if upto <= 0 {
        Seq::empty()
    } else {
        digit_text(low_first[upto - 1] as nat) + digits_from(low_first, upto - 1)
    }
}

/// The digits below a place do not depend on the places above.
pub proof fn lemma_digits_from_same(a: Seq<usize>, b: Seq<usize>, upto: int)
    requires
        0 <= upto <= a.len(),
        upto <= b.len(),
        forall|k: int| 0 <= k < upto ==> a[k] == b[k],
    ensures
        digits_from(a, upto) == digits_from(b, upto),
    decreases upto,
{
    if upto > 0 {
        lemma_digits_from_same(a, b, upto - 1);
    }
}

/// One more digit at the top comes first.
pub proof fn lemma_digits_from_push(low_first: Seq<usize>, digit: usize)
    ensures
        digits_from(low_first.push(digit), low_first.len() as int + 1) == digit_text(digit as nat)
            + digits_from(low_first, low_first.len() as int),
{
    lemma_digits_from_same(low_first.push(digit), low_first, low_first.len() as int);
}

/// Appends the amounts of a record as the log shows them.
pub fn append_amounts(out: &mut String, amounts: &[u32])
    ensures
        final(out)@ == old(out)@ + amounts_text(amounts@),
{
    let ghost start = out@;
    out.append("[");
    let ghost opened = out@;
    let mut i: usize = 0;
    proof {
        assert(amounts@.skip(0) =~= amounts@);
        assert(opened + listed(amounts@) =~= start + "["@ + listed(amounts@));
    }
    while i < amounts.len()
        invariant
            i <= amounts@.len(),
            out@ + listed(amounts@.skip(i as int)) == start + "["@ + listed(amounts@),
        decreases amounts@.len() - i,
    {
        let ghost before = out@;
        let ghost rest = amounts@.skip(i as int);
        proof {
            assert(rest[0] == amounts@[i as int]);
            assert(rest.skip(1) =~= amounts@.skip(i + 1));
        }
        append_decimal(out, amounts[i] as usize);
        if i + 1 < amounts.len() {
            out.append(",");
            proof {
                assert(before + (decimal_text(rest[0] as nat) + ","@ + listed(rest.skip(1)))
                    =~= out@ + listed(rest.skip(1)));
            }
        } else {
            proof {
                assert(listed(rest.skip(1)) =~= Seq::<char>::empty());
                assert(before + decimal_text(rest[0] as nat) =~= out@ + listed(rest.skip(1)));
            }
        }
        i = i + 1;
    }
    proof {
        assert(listed(amounts@.skip(amounts@.len() as int)) =~= Seq::<char>::empty());
        assert(out@ + Seq::<char>::empty() =~= out@);
    }
    out.append("]");
    proof {
        assert(out@ =~= start + amounts_text(amounts@));
    }
}

/// What the log says of a transaction that enters a phase.
pub fn transaction_message(id: usize, status: u8, amounts: &[u32]) -> (msg: String)
    ensures
        msg@ == transaction_text(id, status, amounts@),
{
    let mut msg: String = String::from_str("Transaction ");
    append_decimal(&mut msg, id);
    msg.append(" | ");
    msg.append(
        if status == PREPARE {
            "PREPARE"
        } else if status == COMMIT {
            "COMMIT"
        } else if status == ABORT {
            "ABORT"
        } else if status == FINISH {
            "FINISH"
        } else {
            "?"
        },
    );
    msg.append(" | ");
    append_amounts(&mut msg, amounts);
    msg
}

/// What the log says of a payment that was decided.
pub fn payment_message(amounts: &[u32], operation: u8) -> (msg: String)
    ensures
        msg@ == payment_text(amounts@, operation),
{
    let mut msg: String = String::from_str("Payment of ");
    append_amounts(&mut msg, amounts);
    msg.append(" | ");
    msg.append(
        if operation == COMMIT {
            "OK"
        } else {
            "ERR"
        },
    );
    msg
}

} // verus!
