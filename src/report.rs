use vstd::prelude::*;

use crate::config::Config;
use crate::lines::lines_of;
use crate::search::{matches_view, search, search_result};

verus! {

/// The character of the decimal digit `d`.
pub open spec fn digit_char(d: nat) -> char {
    ((d + 48) as u32) as char
}

/// The decimal digits of `n`, most significant first, without leading zeros.
pub open spec fn decimal(n: nat) -> Seq<char>
    decreases n,
{
    if n < 10 {
        seq![digit_char(n)]
    } else {
        decimal(n / 10).push(digit_char(n % 10))
    }
}

/// The output line for a match: `L`, the line number, `": "`, the line.
pub open spec fn match_line(number: nat, line: Seq<char>) -> Seq<char> {
    seq!['L'] + decimal(number) + seq![':', ' '] + line
}

fn digit_str(d: usize) -> (r: &'static str)
    requires
        d < 10,
    ensures
        r@ == seq![digit_char(d as nat)],
{
    proof {
        reveal_strlit("0");
        reveal_strlit("1");
        reveal_strlit("2");
        reveal_strlit("3");
        reveal_strlit("4");
        reveal_strlit("5");
        reveal_strlit("6");
        reveal_strlit("7");
        reveal_strlit("8");
        reveal_strlit("9");
    }
    let r = match d {
        0 => "0",
        1 => "1",
        2 => "2",
        3 => "3",
        4 => "4",
        5 => "5",
        6 => "6",
        7 => "7",
        8 => "8",
        _ => "9",
    };
    assert(r@ =~= seq![digit_char(d as nat)]);
    r
}

fn append_decimal(out: &mut String, n: usize)
    ensures
        final(out)@ == old(out)@ + decimal(n as nat),
    decreases n,
{
    if n >= 10 {
        append_decimal(out, n / 10);
    }
    out.append(digit_str(n % 10));
    assert(final(out)@ =~= old(out)@ + decimal(n as nat));
}

/// The output line for line `number` with the text `line`.
pub fn format_match(number: usize, line: &str) -> (r: String)
    ensures
        r@ == match_line(number as nat, line@),
{
    let mut r = String::from_str("L");
    proof {
        reveal_strlit("L");
        reveal_strlit(": ");
    }
    append_decimal(&mut r, number);
    r.append(": ");
    r.append(line);
    assert(r@ =~= match_line(number as nat, line@));
    r
}

/// The output lines for the numbered lines `found`, in order.
pub open spec fn report_lines(found: Seq<(int, Seq<char>)>) -> Seq<Seq<char>> {
    found.map_values(|m: (int, Seq<char>)| match_line(m.0 as nat, m.1))
}

/// Runs the search that `config` describes on the text that reading its file
/// gave, and returns one output line per match, in the order of the text. A
/// failed read is handed back as it is, and no search takes place.
pub fn run_on_text<E>(config: &Config, contents: Result<String, E>) -> (r: Result<Vec<String>, E>)
    ensures
        contents is Err ==> r == Err::<Vec<String>, E>(contents->Err_0),
        contents is Ok ==> r is Ok && r->Ok_0@.map_values(|s: String| s@) == report_lines(
            search_result(config.query@, contents->Ok_0@, config.ignore_case),
        ),
{
    match contents {
        Err(e) => Err(e),
        Ok(text) => {
            let found = search(config.query.as_str(), text.as_str(), &config.ignore_case);
            let ghost expected = report_lines(matches_view(found@));
            let mut out: Vec<String> = Vec::new();
            let mut k: usize = 0;
            while k < found.len()
                invariant
                    k <= found.len(),
                    expected == report_lines(matches_view(found@)),
                    out@.map_values(|s: String| s@) == expected.take(k as int),
                decreases found.len() - k,
            {
                let (number, line) = found[k];
                let formatted = format_match(number, line);
                assert(matches_view(found@)[k as int] == (number as int, line@));
                assert(expected[k as int] == formatted@);
                let ghost before = out@;
                out.push(formatted);
                assert(out@.map_values(|s: String| s@) =~= before.map_values(|s: String| s@).push(
                    formatted@,
                ));
                assert(out@.map_values(|s: String| s@) =~= expected.take(k + 1));
                k += 1;
            }
            assert(expected.take(found.len() as int) =~= expected);
            Ok(out)
        },
    }
}

} // verus!
