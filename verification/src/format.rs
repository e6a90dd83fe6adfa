//! Text around the answers: decimal numbers, numbered case lines, and the
//! colour codes of a terminal.

use vstd::prelude::*;
use vstd::string::*;

verus! {

/// The ten digits, in order.
pub open spec fn digits() -> Seq<char> {
    seq!['0', '1', '2', '3', '4', '5', '6', '7', '8', '9']
}

/// The number `n` written in decimal, without leading zeros.
pub open spec fn decimal(n: nat) -> Seq<char>
    decreases n,
{
    if n < 10 {
        seq![digits()[n as int]]
    } else {
        decimal(n / 10).push(digits()[(n % 10) as int])
    }
}

/// The line of case number `i + 1`, whose answer is `answer`.
pub open spec fn case_line(i: nat, answer: Seq<char>) -> Seq<char> {
    "Case #"@ + decimal(i + 1) + ": "@ + answer
}

/// The lines of the first `n` answers, with a line feed between two lines
/// and none at the end.
pub open spec fn cases_text(answers: Seq<Seq<char>>, n: nat) -> Seq<char>
    decreases n,
{
    if n == 0 {
        Seq::empty()
    } else if n == 1 {
        case_line(0, answers[0])
    } else {
        cases_text(answers, (n - 1) as nat) + "\n"@ + case_line(
            (n - 1) as nat,
            answers[n - 1],
        )
    }
}

/// The escape sequence that sets the foreground colour of a terminal to
/// the given red, green and blue.
pub open spec fn rgb_code(r: u8, g: u8, b: u8) -> Seq<char> {
    "\x1b[38;2;"@ + decimal(r as nat) + ";"@ + decimal(g as nat) + ";"@ + decimal(b as nat)
        + "m"@
}

/// Writes `n` in decimal.
pub fn decimal_string(n: u64) -> (r: String)
    ensures
        r@ == decimal(n as nat),
    decreases n,
{
    proof {
        reveal_strlit("0123456789");
        assert("0123456789"@ =~= digits());
    }
    if n < 10 {
        let d = n as usize;
        let r = String::from_str("0123456789".substring_char(d, d + 1));
        assert(r@ =~= decimal(n as nat));
        r
    } else {
        let mut r = decimal_string(n / 10);
        let d = (n % 10) as usize;
        r.append("0123456789".substring_char(d, d + 1));
        assert(r@ =~= decimal(n as nat));
        r
    }
}

/// Numbers the answers from one and writes one line for each: `Case #`, the
/// number, a colon, a space and the answer. A line feed stands between two
/// lines.
pub fn cases(answers: &Vec<String>) -> (r: String)
    ensures
        r@ == cases_text(answers.deep_view(), answers.len() as nat),
{
    let mut r = String::new();
    let mut i: usize = 0;
    let ghost texts = answers.deep_view();
    while i < answers.len()
        invariant
            i <= answers.len(),
            texts == answers.deep_view(),
            r@ == cases_text(texts, i as nat),
        decreases answers.len() - i,
    {
        let ghost before = r@;
        if i > 0 {
            r.append("\n");
        }
        r.append("Case #");
        let number = decimal_string((i as u64) + 1);
        r.append(number.as_str());
        r.append(": ");
        r.append(answers[i].as_str());
        proof {
            assert(texts[i as int] == answers[i as int]@);
            let line = case_line(i as nat, texts[i as int]);
            if i > 0 {
                assert(r@ =~= before + "\n"@ + line);
            } else {
                assert(r@ =~= line);
            }
        }
        i += 1;
    }
    r
}

/// The escape sequence that sets the foreground colour of a terminal.
pub fn rgb_ansi(r: u8, g: u8, b: u8) -> (code: String)
    ensures
        code@ == rgb_code(r, g, b),
{
    let mut code = String::from_str("\x1b[38;2;");
    code.append(decimal_string(r as u64).as_str());
    code.append(";");
    code.append(decimal_string(g as u64).as_str());
    code.append(";");
    code.append(decimal_string(b as u64).as_str());
    code.append("m");
    code
}

} // verus!
