//! The delimited table parser and the key column resolver.
use vstd::prelude::*;

use crate::text::{chars_of, lemma_split_fields_nonempty, split_fields, split_ranges};
use crate::RsiError;

verus! {

/// A line break in the text.
pub const LINE_BREAK: char = '\n';

/// A carriage return, dropped when it ends a line.
pub const CARRIAGE_RETURN: char = '\r';

/// `line` without one carriage return at its end.
pub open spec fn strip_cr(line: Seq<char>) -> Seq<char> {
    if line.len() > 0 && line.last() == CARRIAGE_RETURN {
        line.drop_last()
    } else {
        line
    }
}

/// The lines of `s`: split at line breaks, with no line after a final
/// line break, and a carriage return at the end of a line removed.
pub open spec fn lines_of(s: Seq<char>) -> Seq<Seq<char>> {
    let p = split_fields(s, LINE_BREAK);
    let q = if p.last().len() == 0 {
        p.drop_last()
    } else {
        p
    };
    q.map_values(|l: Seq<char>| strip_cr(l))
}

/// The trailing-field rule: the text that is parsed ends every line with
/// a delimiter, so the last field of each line is an empty artifact and
/// is dropped.
pub open spec fn record_of(line: Seq<char>, d: char) -> Seq<Seq<char>> {
    split_fields(line, d).drop_last()
}

/// The records of `s`, one per line.
pub open spec fn records_of(s: Seq<char>, d: char) -> Seq<Seq<Seq<char>>> {
    lines_of(s).map_values(|l: Seq<char>| record_of(l, d))
}

/// All records are as long as the first one, which is not empty.
pub open spec fn well_formed(recs: Seq<Seq<Seq<char>>>) -> bool {
    &&& recs.len() > 0
    &&& recs[0].len() > 0
    &&& forall|i: int| 0 <= i < recs.len() ==> #[trigger] recs[i].len() == recs[0].len()
}

/// What parsing `s` with delimiter `d` yields.
pub open spec fn parse_spec(s: Seq<char>, d: char) -> Result<Seq<Seq<Seq<char>>>, RsiError> {
    let recs = records_of(s, d);
    if well_formed(recs) {
        Ok(recs)
    } else {
        Err(RsiError::MalformedInput)
    }
}

/// The fields of one record, as character sequences.
pub open spec fn record_view(r: Vec<String>) -> Seq<Seq<char>> {
    r@.map_values(|f: String| f@)
}

/// The records of a table as character sequences.
pub open spec fn records_view(rs: Seq<Vec<String>>) -> Seq<Seq<Seq<char>>> {
    rs.map_values(|r: Vec<String>| record_view(r))
}

/// A parsed table: a header record followed by data records, all of the
/// same length.
pub struct Table {
    records: Vec<Vec<String>>,
}

impl View for Table {
    type V = Seq<Seq<Seq<char>>>;

    closed spec fn view(&self) -> Seq<Seq<Seq<char>>> {
        records_view(self.records@)
    }
}

impl Table {
    /// A table holds a non-empty header and records of its length.
    pub open spec fn wf(&self) -> bool {
        well_formed(self@)
    }

    /// The records, header first.
    pub fn records(&self) -> (r: &Vec<Vec<String>>)
        ensures
            records_view(r@) == self@,
    {
        &self.records
    }

    /// The number of columns.
    pub fn width(&self) -> (r: usize)
        requires
            self.wf(),
        ensures
            r == self@[0].len(),
    {
        self.records[0].len()
    }
}

/// Finds the column whose header equals `key` exactly; the first one where
/// several do. Fails with `KeyColumnNotFound` where none does.
pub fn key_column(table: &Table, key: &str) -> (r: Result<usize, RsiError>)
    requires
        table.wf(),
    ensures
        match r {
            Ok(j) => {
                &&& j < table@[0].len()
                &&& table@[0][j as int] == key@
                &&& forall|i: int| 0 <= i < j ==> table@[0][i] != key@
            },
            Err(e) => {
                &&& e == RsiError::KeyColumnNotFound
                &&& forall|i: int| 0 <= i < table@[0].len() ==> table@[0][i] != key@
            },
        },
{
    let header = &table.records[0];
    assert(record_view(*header) == table@[0]);
    let wanted = String::from_str(key);
    let mut j: usize = 0;
    while j < header.len()
        invariant
            record_view(*header) == table@[0],
            wanted@ == key@,
            j <= header@.len(),
            forall|i: int| 0 <= i < j ==> table@[0][i] != key@,
        decreases header@.len() - j,
    {
        if header[j] == wanted {
            return Ok(j);
        }
        j = j + 1;
    }
    Err(RsiError::KeyColumnNotFound)
}

/// The character ranges of the lines of `cs`: see `lines_of`.
pub fn line_ranges(cs: &Vec<char>) -> (r: Vec<(usize, usize)>)
    ensures
        r@.len() == lines_of(cs@).len(),
        forall|k: int|
            #![trigger r@[k]]
            0 <= k < r@.len() ==> r@[k].0 <= r@[k].1 <= cs@.len() && cs@.subrange(
                r@[k].0 as int,
                r@[k].1 as int,
            ) == lines_of(cs@)[k],
{
    let n = cs.len();
    let parts = split_ranges(cs, 0, n, LINE_BREAK);
    let ghost p = split_fields(cs@, LINE_BREAK);
    proof {
        lemma_split_fields_nonempty(cs@, LINE_BREAK);
        assert(cs@.subrange(0, n as int) == cs@);
    }
    let mut nl = parts.len();
    let (la, lb) = parts[nl - 1];
    if la == lb {
        nl = nl - 1;
    }
    let ghost q = if p.last().len() == 0 { p.drop_last() } else { p };
    assert(q.len() == nl);
    let mut r: Vec<(usize, usize)> = Vec::new();
    let mut k: usize = 0;
    while k < nl
        invariant
            n == cs@.len(),
            nl == q.len(),
            q.len() <= p.len(),
            forall|j: int| 0 <= j < q.len() ==> #[trigger] q[j] == p[j],
            parts@.len() == p.len(),
            forall|j: int| 0 <= j < parts@.len() ==> {
                &&& 0 <= #[trigger] parts@[j].0 <= parts@[j].1 <= n
                &&& cs@.subrange(parts@[j].0 as int, parts@[j].1 as int) == p[j]
            },
            lines_of(cs@) == q.map_values(|l: Seq<char>| strip_cr(l)),
            k <= nl,
            r@.len() == k,
            forall|j: int| 0 <= j < k ==> {
                &&& 0 <= #[trigger] r@[j].0 <= r@[j].1 <= cs@.len()
                &&& cs@.subrange(r@[j].0 as int, r@[j].1 as int) == lines_of(cs@)[j]
            },
        decreases nl - k,
    {
        let (a, b0) = parts[k];
        let mut b = b0;
        if b > a && cs[b - 1] == CARRIAGE_RETURN {
            b = b - 1;
        }
        assert(cs@.subrange(a as int, b as int) == strip_cr(q[k as int]));
        let ghost old_r = r@;
        r.push((a, b));
        assert forall|j: int| 0 <= j < k + 1 implies 0 <= #[trigger] r@[j].0 <= r@[j].1 <= cs@.len()
            && cs@.subrange(r@[j].0 as int, r@[j].1 as int) == lines_of(cs@)[j] by {
            if j < k {
                assert(r@[j] == old_r[j]);
            }
        }
        k = k + 1;
    }
    r
}

/// The strings of `text` at the given character ranges.
fn fields_at(text: &str, cs: &Vec<char>, ranges: &Vec<(usize, usize)>, count: usize) -> (r: Vec<String>)
    requires
        cs@ == text@,
        count <= ranges@.len(),
        forall|k: int| 0 <= k < ranges@.len() ==> 0 <= #[trigger] ranges@[k].0 <= ranges@[k].1 <= cs@.len(),
    ensures
        r@.len() == count,
        forall|k: int| 0 <= k < count ==> #[trigger] r@[k]@ == cs@.subrange(ranges@[k].0 as int, ranges@[k].1 as int),
{
    let mut r: Vec<String> = Vec::new();
    let mut k: usize = 0;
    while k < count
        invariant
            cs@ == text@,
            k <= count <= ranges@.len(),
            forall|j: int| 0 <= j < ranges@.len() ==> 0 <= #[trigger] ranges@[j].0 <= ranges@[j].1 <= cs@.len(),
            r@.len() == k,
            forall|j: int| 0 <= j < k ==> #[trigger] r@[j]@ == cs@.subrange(ranges@[j].0 as int, ranges@[j].1 as int),
        decreases count - k,
    {
        let (a, b) = ranges[k];
        let piece = text.substring_char(a, b);
        r.push(String::from_str(piece));
        k = k + 1;
    }
    r
}

/// `r` is what parsing `s` with delimiter `d` gives.
pub open spec fn parsed_as(r: Result<Table, RsiError>, s: Seq<char>, d: char) -> bool {
    match r {
        Ok(t) => parse_spec(s, d) == Ok::<_, RsiError>(t@) && t.wf(),
        Err(e) => parse_spec(s, d) == Err::<Seq<Seq<Seq<char>>>, _>(e),
    }
}

/// The records of a parse result, or the error.
pub open spec fn result_view(r: Result<Table, RsiError>) -> Result<Seq<Seq<Seq<char>>>, RsiError> {
    match r {
        Ok(t) => Ok(t@),
        Err(e) => Err(e),
    }
}

/// Parsing holds no state: two parses of the same text with the same
/// delimiter give the same records, or the same error.
pub proof fn lemma_parse_idempotent(s: Seq<char>, d: char, a: Result<Table, RsiError>, b: Result<Table, RsiError>)
    requires
        parsed_as(a, s, d),
        parsed_as(b, s, d),
    ensures
        result_view(a) == result_view(b),
{
}

/// Every parsed record is as long as the header, and text whose records
/// differ in length is rejected as malformed.
pub proof fn lemma_field_count(s: Seq<char>, d: char)
    ensures
        parse_spec(s, d) is Ok ==> forall|i: int|
            0 <= i < parse_spec(s, d)->Ok_0.len() ==> #[trigger] parse_spec(s, d)->Ok_0[i].len()
                == parse_spec(s, d)->Ok_0[0].len(),
        (exists|i: int| 0 <= i < records_of(s, d).len() && #[trigger] records_of(s, d)[i].len() != records_of(s, d)[0].len())
            ==> parse_spec(s, d) == Err::<Seq<Seq<Seq<char>>>, RsiError>(RsiError::MalformedInput),
{
}

/// Parses delimited text into a table: one record per line, fields split
/// at `delimiter`, the trailing empty field of each line dropped. Fails
/// with `MalformedInput` when there is no record, the header is empty, or
/// two records differ in length.
pub fn parse_table(text: &str, delimiter: char) -> (r: Result<Table, RsiError>)
    ensures
        parsed_as(r, text@, delimiter),
{
    let cs = chars_of(text);
    let lines = line_ranges(&cs);
    let nl = lines.len();
    let ghost want = records_of(text@, delimiter);
    let mut recs: Vec<Vec<String>> = Vec::new();
    let mut k: usize = 0;
    while k < nl
        invariant
            cs@ == text@,
            nl == lines@.len() == lines_of(text@).len(),
            forall|j: int| 0 <= j < nl ==> {
                &&& 0 <= #[trigger] lines@[j].0 <= lines@[j].1 <= cs@.len()
                &&& cs@.subrange(lines@[j].0 as int, lines@[j].1 as int) == lines_of(text@)[j]
            },
            want == records_of(text@, delimiter),
            k <= nl,
            recs@.len() == k,
            forall|j: int| 0 <= j < k ==> #[trigger] record_view(recs@[j]) == want[j],
        decreases nl - k,
    {
        let (a, b) = lines[k];
        let ghost line = cs@.subrange(a as int, b as int);
        let fields = split_ranges(&cs, a, b, delimiter);
        proof {
            lemma_split_fields_nonempty(line, delimiter);
        }
        let rec = fields_at(text, &cs, &fields, fields.len() - 1);
        assert(record_view(rec) == record_of(line, delimiter));
        recs.push(rec);
        k = k + 1;
    }
    assert(records_view(recs@) == want);
    assert(want.len() == recs@.len());
    if recs.len() == 0 {
        return Err(RsiError::MalformedInput);
    }
    let w = recs[0].len();
    assert(record_view(recs@[0]).len() == recs@[0]@.len());
    if w == 0 {
        return Err(RsiError::MalformedInput);
    }
    let mut i: usize = 0;
    while i < recs.len()
        invariant
            records_view(recs@) == want,
            want == records_of(text@, delimiter),
            recs@.len() > 0,
            w == want[0].len(),
            i <= recs@.len(),
            forall|j: int| 0 <= j < i ==> #[trigger] want[j].len() == w,
        decreases recs@.len() - i,
    {
        if recs[i].len() != w {
            assert(record_view(recs@[i as int]).len() == recs@[i as int]@.len());
            assert(want[i as int].len() != want[0].len());
            assert(!well_formed(want));
            return Err(RsiError::MalformedInput);
        }
        i = i + 1;
    }
    Ok(Table { records: recs })
}

} // verus!
