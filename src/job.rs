//! The text exchanged with the scheduler's commands: the job selector,
//! the table title, the list of fields to ask for, and the directives of a
//! batch script.
use vstd::prelude::*;

use crate::layout::concat_all;
use crate::table::{line_ranges, lines_of};
use crate::text::{chars_of, token_ranges, tokens};

verus! {

/// The decimal digit of `d`.
pub open spec fn digit(d: nat) -> char {
    seq!['0', '1', '2', '3', '4', '5', '6', '7', '8', '9'][d as int]
}

/// The decimal numeral of `n`, without sign or leading zeros.
pub open spec fn decimal(n: nat) -> Seq<char>
    decreases n,
{
    if n < 10 {
        seq![digit(n)]
    } else {
        decimal(n / 10).push(digit(n % 10))
    }
}

/// The one-character text of decimal digit `d`.
fn digit_str(d: u32) -> (r: &'static str)
    requires
        d < 10,
    ensures
        r@ == seq![digit(d as nat)],
{
    if d == 0 {
        proof {
            reveal_strlit("0");
        }
        "0"
    } else if d == 1 {
        proof {
            reveal_strlit("1");
        }
        "1"
    } else if d == 2 {
        proof {
            reveal_strlit("2");
        }
        "2"
    } else if d == 3 {
        proof {
            reveal_strlit("3");
        }
        "3"
    } else if d == 4 {
        proof {
            reveal_strlit("4");
        }
        "4"
    } else if d == 5 {
        proof {
            reveal_strlit("5");
        }
        "5"
    } else if d == 6 {
        proof {
            reveal_strlit("6");
        }
        "6"
    } else if d == 7 {
        proof {
            reveal_strlit("7");
        }
        "7"
    } else if d == 8 {
        proof {
            reveal_strlit("8");
        }
        "8"
    } else {
        proof {
            reveal_strlit("9");
        }
        "9"
    }
}

/// The decimal numeral of `n`.
fn decimal_string(n: u32) -> (r: String)
    ensures
        r@ == decimal(n as nat),
    decreases n,
{
    if n < 10 {
        String::from_str(digit_str(n))
    } else {
        let mut r = decimal_string(n / 10);
        r.append(digit_str(n % 10));
        r
    }
}

/// The job and step that the accounting command is asked about:
/// `<jobid>.<step>`.
pub fn job_selector(jobid: u32, step: &str) -> (r: String)
    ensures
        r@ == decimal(jobid as nat) + "."@ + step@,
{
    let mut r = decimal_string(jobid);
    r.append(".");
    r.append(step);
    r
}

/// The label of the title row: `JOBID=<jobid> STEP=<step>`.
pub fn job_title(jobid: u32, step: &str) -> (r: String)
    ensures
        r@ == "JOBID="@ + decimal(jobid as nat) + " STEP="@ + step@,
{
    let mut r = String::from_str("JOBID=");
    let n = decimal_string(jobid);
    r.append(n.as_str());
    r.append(" STEP=");
    r.append(step);
    r
}

/// Words joined by `sep`.
pub open spec fn join_with(ws: Seq<Seq<char>>, sep: char) -> Seq<char>
    decreases ws.len(),
{
    if ws.len() == 0 {
        Seq::empty()
    } else if ws.len() == 1 {
        ws[0]
    } else {
        join_with(ws.drop_last(), sep) + seq![sep] + ws.last()
    }
}

/// The argument that asks the accounting command for every field it lists:
/// the words of its listing joined by commas.
pub fn field_list(listing: &str) -> (r: String)
    ensures
        r@ == join_with(tokens(listing@), ','),
{
    let cs = chars_of(listing);
    let n = cs.len();
    let rs = token_ranges(&cs, 0, n);
    let ghost words = tokens(listing@);
    proof {
        assert(cs@.subrange(0, n as int) == listing@);
        reveal_strlit(",");
    }
    let mut r = String::new();
    let mut k: usize = 0;
    while k < rs.len()
        invariant
            cs@ == listing@,
            n == cs@.len(),
            words == tokens(listing@),
            rs@.len() == words.len(),
            forall|j: int| 0 <= j < rs@.len() ==> {
                &&& 0 <= #[trigger] rs@[j].0 <= rs@[j].1 <= n
                &&& cs@.subrange(rs@[j].0 as int, rs@[j].1 as int) == words[j]
            },
            k <= rs@.len(),
            r@ == join_with(words.take(k as int), ','),
            ",".view() == seq![','],
        decreases rs@.len() - k,
    {
        let (a, b) = rs[k];
        assert(words.take(k as int + 1).drop_last() == words.take(k as int));
        assert(words.take(k as int + 1).last() == words[k as int]);
        if k > 0 {
            r.append(",");
        } else {
            assert(r@ == Seq::<char>::empty());
        }
        r.append(listing.substring_char(a, b));
        k = k + 1;
    }
    assert(words.take(rs@.len() as int) == words);
    r
}

/// The word that opens a scheduler directive in a batch script.
pub open spec fn directive_marker() -> Seq<char> {
    seq!['#', 'S', 'B', 'A', 'T', 'C', 'H']
}

/// The arguments a line of a batch script gives: where its first word
/// begins with the directive marker, the words after it; else none.
pub open spec fn directive_args(line: Seq<char>) -> Seq<Seq<char>> {
    let t = tokens(line);
    if t.len() > 0 && t[0].len() >= 7 && t[0].take(7) == directive_marker() {
        t.skip(1)
    } else {
        Seq::empty()
    }
}

/// The arguments of all directives of a batch script, in order.
pub open spec fn script_args(content: Seq<char>) -> Seq<Seq<char>> {
    concat_all(lines_of(content).map_values(|l: Seq<char>| directive_args(l)))
}

/// Whether `cs[a..b]` begins with the directive marker.
fn starts_with_marker(cs: &Vec<char>, a: usize, b: usize) -> (r: bool)
    requires
        a <= b <= cs@.len(),
    ensures
        r == (b - a >= 7 && cs@.subrange(a as int, b as int).take(7) == directive_marker()),
{
    let marker: Vec<char> = vec!['#', 'S', 'B', 'A', 'T', 'C', 'H'];
    assert(marker@ == directive_marker());
    if b - a < 7 {
        return false;
    }
    let mut i: usize = 0;
    while i < 7
        invariant
            a + 7 <= b <= cs@.len(),
            marker@ == directive_marker(),
            i <= 7,
            forall|j: int| 0 <= j < i ==> cs@[a + j] == marker@[j],
        decreases 7 - i,
    {
        if cs[a + i] != marker[i] {
            assert(cs@.subrange(a as int, b as int).take(7)[i as int] != directive_marker()[i as int]);
            return false;
        }
        i = i + 1;
    }
    assert(cs@.subrange(a as int, b as int).take(7) =~= directive_marker());
    true
}

/// The arguments of the scheduler directives in the text of a batch
/// script: on each line whose first word begins with `#SBATCH`, the words
/// after that one.
pub fn parse_script_text(content: &str) -> (r: Vec<String>)
    ensures
        r@.map_values(|s: String| s@) == script_args(content@),
{
    let cs = chars_of(content);
    let lines = line_ranges(&cs);
    let ghost parts = lines_of(content@).map_values(|l: Seq<char>| directive_args(l));
    let mut r: Vec<String> = Vec::new();
    let mut k: usize = 0;
    while k < lines.len()
        invariant
            cs@ == content@,
            lines@.len() == lines_of(cs@).len(),
            forall|j: int|
                #![trigger lines@[j]]
                0 <= j < lines@.len() ==> lines@[j].0 <= lines@[j].1 <= cs@.len() && cs@.subrange(
                    lines@[j].0 as int,
                    lines@[j].1 as int,
                ) == lines_of(cs@)[j],
            parts == lines_of(content@).map_values(|l: Seq<char>| directive_args(l)),
            k <= lines@.len(),
            r@.map_values(|s: String| s@) == concat_all(parts.take(k as int)),
        decreases lines@.len() - k,
    {
        let (a, b) = lines[k];
        let ghost line = cs@.subrange(a as int, b as int);
        assert(parts.take(k as int + 1).drop_last() == parts.take(k as int));
        assert(parts.take(k as int + 1).last() == parts[k as int]);
        assert(parts[k as int] == directive_args(line));
        let toks = token_ranges(&cs, a, b);
        let ghost t = tokens(line);
        let ghost before = r@.map_values(|s: String| s@);
        if toks.len() > 0 && starts_with_marker(&cs, toks[0].0, toks[0].1) {
            assert(cs@.subrange(toks@[0].0 as int, toks@[0].1 as int) == t[0]);
            let mut i: usize = 1;
            while i < toks.len()
                invariant
                    cs@ == content@,
                    toks@.len() == t.len(),
                    t.len() > 0,
                    forall|j: int| 0 <= j < toks@.len() ==> {
                        &&& 0 <= #[trigger] toks@[j].0 <= toks@[j].1 <= cs@.len()
                        &&& cs@.subrange(toks@[j].0 as int, toks@[j].1 as int) == t[j]
                    },
                    1 <= i <= toks@.len(),
                    r@.map_values(|s: String| s@) == before + t.subrange(1, i as int),
                decreases toks@.len() - i,
            {
                let (ta, tb) = toks[i];
                let piece = String::from_str(content.substring_char(ta, tb));
                assert(piece@ == t[i as int]);
                let ghost prev = r@;
                r.push(piece);
                assert(r@ == prev.push(piece));
                assert(r@.map_values(|s: String| s@) =~= prev.map_values(|s: String| s@).push(piece@));
                assert(t.subrange(1, i as int + 1) == t.subrange(1, i as int).push(t[i as int]));
                assert(r@.map_values(|s: String| s@) =~= before + t.subrange(1, i as int + 1));
                i = i + 1;
            }
            assert(t.subrange(1, t.len() as int) == t.skip(1));
        } else {
            if toks.len() > 0 {
                assert(cs@.subrange(toks@[0].0 as int, toks@[0].1 as int) == t[0]);
            }
            assert(before + directive_args(line) =~= before);
        }
        k = k + 1;
    }
    assert(parts.take(lines@.len() as int) == parts);
    r
}

/// The arguments of the start-time estimate: the script's directives,
/// then a dry run of a trivial command.
pub fn estimate_args(content: &str) -> (r: Vec<String>)
    ensures
        r@.map_values(|s: String| s@) == script_args(content@) + seq![
            "--test-only"@,
            "--wrap"@,
            "\"hostname\""@,
        ],
{
    let mut r = parse_script_text(content);
    let ghost before = r@.map_values(|s: String| s@);
    r.push(String::from_str("--test-only"));
    r.push(String::from_str("--wrap"));
    r.push(String::from_str("\"hostname\""));
    assert(r@.map_values(|s: String| s@) =~= before + seq!["--test-only"@, "--wrap"@, "\"hostname\""@]);
    r
}

} // verus!
