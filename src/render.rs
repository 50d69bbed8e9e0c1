//! Sizing the columns, highlighting the labels and drawing the table.
use vstd::prelude::*;

use crate::layout::{layout, layout_spec};
use crate::pivot::{is_pivot_of, lemma_pivot_unique, pivot, PivotRow};
use crate::table::{key_column, parse_spec, parse_table, record_view, records_view};
use crate::RsiError;

verus! {

/// The delimiter between the fields of the accounting text.
pub const DELIMITER: char = '|';

/// The header of the column that identifies a job.
pub const KEY_FIELD: &'static str = "JobID";

/// The narrowest the label column is counted.
pub const MIN_LABEL_WIDTH: usize = 10;

/// The narrowest a value column is made.
pub const MIN_VALUE_WIDTH: usize = 10;

/// The widest label of the rows.
pub open spec fn max_label(rows: Seq<(Seq<char>, Seq<Seq<char>>)>) -> nat
    decreases rows.len(),
{
    if rows.len() == 0 {
        0
    } else {
        let m = max_label(rows.drop_last());
        if rows.last().0.len() > m {
            rows.last().0.len()
        } else {
            m
        }
    }
}

/// The width of each of `m` value columns on a terminal `tw` wide, with a
/// label column `lw` wide: what is left once the label column and the
/// separators (two outer spaces, and a bar between two spaces before each
/// value column) are taken, shared evenly, and never under the minimum.
pub open spec fn value_width(tw: nat, lw: nat, m: nat) -> nat {
    if m > 0 && tw >= lw + 2 + (3 + MIN_VALUE_WIDTH) * m {
        ((tw - lw - 2 - 3 * m) / m as int) as nat
    } else {
        MIN_VALUE_WIDTH as nat
    }
}

/// The width of the label column.
pub fn label_width(rows: &Vec<PivotRow>) -> (r: usize)
    ensures
        r as nat == max_label(rows@.map_values(|p: PivotRow| p@)),
{
    let ghost rv = rows@.map_values(|p: PivotRow| p@);
    let mut r: usize = 0;
    let mut i: usize = 0;
    while i < rows.len()
        invariant
            rv == rows@.map_values(|p: PivotRow| p@),
            i <= rows@.len(),
            r as nat == max_label(rv.take(i as int)),
        decreases rows@.len() - i,
    {
        assert(rv.take(i as int + 1).drop_last() == rv.take(i as int));
        assert(rv.take(i as int + 1).last() == rv[i as int]);
        let l = rows[i].label.unicode_len();
        if l > r {
            r = l;
        }
        i = i + 1;
    }
    assert(rv.take(rows@.len() as int) == rv);
    r
}

/// The width of each value column: see `value_width`.
pub fn value_width_of(tw: usize, lw: usize, m: usize) -> (r: usize)
    ensures
        r as nat == value_width(tw as nat, lw as nat, m as nat),
{
    if m > 0 && tw >= lw && tw - lw >= 2 && (tw - lw - 2) / (3 + MIN_VALUE_WIDTH) >= m {
        let x = tw - lw - 2;
        assert((3 + MIN_VALUE_WIDTH) * m <= x) by (nonlinear_arith)
            requires
                x / 13 >= m,
                MIN_VALUE_WIDTH == 10,
        ;
        (x - 3 * m) / m
    } else {
        proof {
            if m > 0 && tw >= lw + 2 + (3 + MIN_VALUE_WIDTH) * m {
                let x = tw - lw - 2;
                assert(x / 13 >= m) by (nonlinear_arith)
                    requires
                        x >= 13 * m,
                ;
            }
        }
        MIN_VALUE_WIDTH
    }
}

/// `s` in the yellow foreground of an ANSI terminal.
pub open spec fn yellow(s: Seq<char>) -> Seq<char> {
    seq!['\x1b', '[', '3', '3', 'm'] + s + seq!['\x1b', '[', '0', 'm']
}

/// Relies on console's `style(..).yellow().force_styling(true)` written
/// out with `to_string`: with styling forced, the text always comes between
/// the yellow foreground code and the reset code.
#[verifier::external_body]
fn highlight(s: &str) -> (r: String)
    ensures
        r@ == yellow(s@),
{
    console::style(s).yellow().force_styling(true).to_string()
}

/// A display line with its first cell in yellow.
pub open spec fn highlight_line(l: Seq<Seq<char>>) -> Seq<Seq<char>> {
    if l.len() > 0 {
        l.update(0, yellow(l[0]))
    } else {
        l
    }
}

/// The display lines `d` with their label cells in yellow where `colors`
/// is set, and unchanged where it is not.
pub open spec fn highlight_grid(d: Seq<Seq<Seq<char>>>, colors: bool) -> Seq<Seq<Seq<char>>> {
    if colors {
        d.map_values(|l: Seq<Seq<char>>| highlight_line(l))
    } else {
        d
    }
}

/// Highlights the label column of the display lines where `colors` is set.
/// The widths were measured before, on the plain text.
pub fn highlight_labels(lines: Vec<Vec<String>>, colors: bool) -> (r: Vec<Vec<String>>)
    ensures
        records_view(r@) == highlight_grid(records_view(lines@), colors),
{
    if !colors {
        return lines;
    }
    let ghost d = records_view(lines@);
    let mut r: Vec<Vec<String>> = Vec::new();
    let n = lines.len();
    let mut i: usize = 0;
    while i < n
        invariant
            n == lines@.len(),
            d == records_view(lines@),
            i <= n,
            r@.len() == i,
            forall|k: int| 0 <= k < i ==> #[trigger] records_view(r@)[k] == highlight_line(d[k]),
        decreases n - i,
    {
        let src = &lines[i];
        assert(record_view(*src) == d[i as int]);
        let mut line: Vec<String> = Vec::new();
        let mut j: usize = 0;
        while j < src.len()
            invariant
                record_view(*src) == d[i as int],
                i < d.len(),
                j <= src@.len(),
                line@.len() == j,
                forall|q: int| 0 <= q < j ==> #[trigger] line@[q]@ == highlight_line(d[i as int])[q],
            decreases src@.len() - j,
        {
            if j == 0 {
                line.push(highlight(src[0].as_str()));
            } else {
                line.push(src[j].clone());
            }
            j = j + 1;
        }
        assert(record_view(line) =~= highlight_line(d[i as int]));
        let ghost old_r = r@;
        r.push(line);
        assert forall|k: int| 0 <= k < i + 1 implies #[trigger] records_view(r@)[k] == highlight_line(d[k]) by {
            if k < i {
                assert(records_view(r@)[k] == records_view(old_r)[k]);
            } else {
                assert(records_view(r@)[k] == record_view(line));
            }
        }
        i = i + 1;
    }
    assert(records_view(r@) =~= highlight_grid(d, colors));
    r
}

/// The drawing of a table whose first row is its header.
pub uninterp spec fn psql_table_of(rows: Seq<Seq<Seq<char>>>) -> Seq<char>;

/// Relies on tabled's `Builder::from` (the first row is the header),
/// `Style::psql` and its `Display`: the drawing depends on the rows alone.
#[verifier::external_body]
fn draw_psql(rows: Vec<Vec<String>>) -> (r: String)
    ensures
        r@ == psql_table_of(records_view(rows@)),
{
    tabled::builder::Builder::from(rows).build().with(tabled::style::Style::psql()).to_string()
}

/// The width of the label column: the widest label, and never under the
/// minimum.
pub open spec fn label_column_width(rows: Seq<(Seq<char>, Seq<Seq<char>>)>) -> nat {
    if max_label(rows) < MIN_LABEL_WIDTH {
        MIN_LABEL_WIDTH as nat
    } else {
        max_label(rows)
    }
}

/// The display lines of pivot rows `rows`, with `m` values each, on a
/// terminal `tw` wide, before highlighting.
pub open spec fn plain_display(rows: Seq<(Seq<char>, Seq<Seq<char>>)>, tw: nat, m: nat) -> Seq<Seq<Seq<char>>> {
    layout_spec(rows, value_width(tw, label_column_width(rows), m))
}

/// Some header field is `name`.
pub open spec fn has_column(header: Seq<Seq<char>>, name: Seq<char>) -> bool {
    exists|i: int| 0 <= i < header.len() && header[i] == name
}

/// `out` is a drawing of table `t` pivoted around the first column named
/// `key_name`, titled `title`, laid out for a terminal `tw` wide, with the
/// labels highlighted where `colors` is set.
pub open spec fn shows(out: Seq<char>, t: Seq<Seq<Seq<char>>>, key_name: Seq<char>, title: Seq<char>, tw: nat, colors: bool) -> bool {
    exists|key: int, rows: Seq<(Seq<char>, Seq<Seq<char>>)>|
        {
            &&& 0 <= key < t[0].len()
            &&& t[0][key] == key_name
            &&& (forall|i: int| 0 <= i < key ==> t[0][i] != key_name)
            &&& #[trigger] is_pivot_of(rows, t, key, title)
            &&& psql_table_of(highlight_grid(plain_display(rows, tw, (t.len() - 1) as nat), colors)) == out
        }
}

/// Rendering holds no state: two drawings of the same table, key name,
/// title, width and colour setting are the same text.
pub proof fn lemma_render_deterministic(
    a: Seq<char>,
    b: Seq<char>,
    t: Seq<Seq<Seq<char>>>,
    key_name: Seq<char>,
    title: Seq<char>,
    tw: nat,
    colors: bool,
)
    requires
        shows(a, t, key_name, title, tw, colors),
        shows(b, t, key_name, title, tw, colors),
    ensures
        a == b,
{
    let (ka, ra) = choose|key: int, rows: Seq<(Seq<char>, Seq<Seq<char>>)>|
        {
            &&& 0 <= key < t[0].len()
            &&& t[0][key] == key_name
            &&& (forall|i: int| 0 <= i < key ==> t[0][i] != key_name)
            &&& #[trigger] is_pivot_of(rows, t, key, title)
            &&& psql_table_of(highlight_grid(plain_display(rows, tw, (t.len() - 1) as nat), colors)) == a
        };
    let (kb, rb) = choose|key: int, rows: Seq<(Seq<char>, Seq<Seq<char>>)>|
        {
            &&& 0 <= key < t[0].len()
            &&& t[0][key] == key_name
            &&& (forall|i: int| 0 <= i < key ==> t[0][i] != key_name)
            &&& #[trigger] is_pivot_of(rows, t, key, title)
            &&& psql_table_of(highlight_grid(plain_display(rows, tw, (t.len() - 1) as nat), colors)) == b
        };
    if ka < kb {
        assert(t[0][ka] != key_name);
    } else if kb < ka {
        assert(t[0][kb] != key_name);
    }
    lemma_pivot_unique(ra, rb, t, ka, title);
}

/// Parses accounting text, pivots it around the column named `key_name`
/// with `title` as the first row's label, lays it out for a terminal
/// `term_width` wide and draws it. Fails as parsing does, then with
/// `KeyColumnNotFound` where no header is `key_name`, then with
/// `TerminalSizeUnavailable` where no width is known. The labels are
/// highlighted where `colors` is set.
pub fn render_table(
    text: &str,
    key_name: &str,
    title: &str,
    term_width: Option<usize>,
    colors: bool,
) -> (r: Result<String, RsiError>)
    ensures
        parse_spec(text@, DELIMITER) is Err ==> r == Err::<String, RsiError>(
            parse_spec(text@, DELIMITER)->Err_0,
        ),
        parse_spec(text@, DELIMITER) is Ok && !has_column(parse_spec(text@, DELIMITER)->Ok_0[0], key_name@)
            ==> r == Err::<String, RsiError>(RsiError::KeyColumnNotFound),
        parse_spec(text@, DELIMITER) is Ok && has_column(parse_spec(text@, DELIMITER)->Ok_0[0], key_name@)
            && term_width is None ==> r == Err::<String, RsiError>(RsiError::TerminalSizeUnavailable),
        parse_spec(text@, DELIMITER) is Ok && has_column(parse_spec(text@, DELIMITER)->Ok_0[0], key_name@)
            && term_width is Some ==> r is Ok && shows(
            r->Ok_0@,
            parse_spec(text@, DELIMITER)->Ok_0,
            key_name@,
            title@,
            term_width->Some_0 as nat,
            colors,
        ),
{
    let table = match parse_table(text, DELIMITER) {
        Ok(t) => t,
        Err(e) => return Err(e),
    };
    let key = match key_column(&table, key_name) {
        Ok(k) => k,
        Err(e) => return Err(e),
    };
    assert(table@[0][key as int] == key_name@);
    assert(parse_spec(text@, DELIMITER) == Ok::<_, RsiError>(table@));
    assert(has_column(table@[0], key_name@));
    let tw = match term_width {
        Some(w) => w,
        None => return Err(RsiError::TerminalSizeUnavailable),
    };
    let rows = pivot(&table, key, title);
    let widest = label_width(&rows);
    let lw = if widest < MIN_LABEL_WIDTH { MIN_LABEL_WIDTH } else { widest };
    let m = table.records().len() - 1;
    let vw = value_width_of(tw, lw, m);
    let plain = layout(&rows, vw);
    let marked = highlight_labels(plain, colors);
    let drawn = draw_psql(marked);
    let ghost rv = rows@.map_values(|p: PivotRow| p@);
    assert(is_pivot_of(rv, table@, key as int, title@));
    assert(records_view(marked@) == highlight_grid(plain_display(rv, tw as nat, (table@.len() - 1) as nat), colors));
    Ok(drawn)
}

} // verus!
