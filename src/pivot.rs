//! Transposing a table into labelled rows, key row first, the others
//! ordered by label.
use vstd::prelude::*;

use crate::table::{record_view, records_view, well_formed, Table};
use crate::text::{
    chars_of, lemma_seq_lt_irreflexive, lemma_seq_lt_total, lemma_seq_lt_transitive, seq_less,
    seq_lt,
};

verus! {

/// Where column `c` stands once the key column has been swapped to the
/// front: the key takes position zero and the first column takes the key's.
pub open spec fn swapped_pos(key: int, c: int) -> int {
    if c == key {
        0
    } else if c == 0 {
        key
    } else {
        c
    }
}

/// Column `a` is rendered before column `b`: its label is smaller, or the
/// labels are equal and `a` stood first after the swap (a stable sort).
pub open spec fn precedes(h: Seq<Seq<char>>, key: int, a: int, b: int) -> bool {
    seq_lt(h[a], h[b]) || (h[a] == h[b] && swapped_pos(key, a) < swapped_pos(key, b))
}

/// `o` lists every column but the key once, in rendering order.
pub open spec fn is_label_order(h: Seq<Seq<char>>, key: int, o: Seq<usize>) -> bool {
    &&& o.len() + 1 == h.len()
    &&& forall|i: int| 0 <= i < o.len() ==> #[trigger] o[i] < h.len() && o[i] != key
    &&& forall|i: int, j: int| 0 <= i < j < o.len() ==> precedes(h, key, #[trigger] o[i] as int, #[trigger] o[j] as int)
    &&& forall|c: int| 0 <= c < h.len() && c != key ==> #[trigger] listed(o, c)
}

/// Column `c` is in `o`.
pub open spec fn listed(o: Seq<usize>, c: int) -> bool {
    exists|i: int| 0 <= i < o.len() && o[i] == c
}

/// There is one label order only: two orders of the same header around the
/// same key are equal.
pub proof fn lemma_label_order_unique(h: Seq<Seq<char>>, key: int, o1: Seq<usize>, o2: Seq<usize>)
    requires
        is_label_order(h, key, o1),
        is_label_order(h, key, o2),
    ensures
        o1 == o2,
{
    assert forall|i: int| 0 <= i < o1.len() implies o1[i] == o2[i] by {
        lemma_label_order_prefix(h, key, o1, o2, i);
    }
    assert(o1 =~= o2);
}

proof fn lemma_label_order_prefix(h: Seq<Seq<char>>, key: int, o1: Seq<usize>, o2: Seq<usize>, i: int)
    requires
        is_label_order(h, key, o1),
        is_label_order(h, key, o2),
        0 <= i < o1.len(),
    ensures
        o1[i] == o2[i],
    decreases i,
{
    let a = o1[i] as int;
    let b = o2[i] as int;
    if a != b {
        assert(o1[i] < h.len() && o1[i] != key);
        assert(o2[i] < h.len() && o2[i] != key);
        lemma_precedes_total(h, key, a, b);
        if precedes(h, key, a, b) {
            assert(listed(o2, a));
            let j = choose|j: int| 0 <= j < o2.len() && o2[j] == a;
            if j < i {
                lemma_label_order_prefix(h, key, o1, o2, j);
                assert(precedes(h, key, o1[j] as int, o1[i] as int));
                lemma_precedes_asymmetric(h, key, a, a);
            } else if j > i {
                assert(precedes(h, key, o2[i] as int, o2[j] as int));
                lemma_precedes_asymmetric(h, key, a, b);
            }
        } else {
            assert(listed(o1, b));
            let j = choose|j: int| 0 <= j < o1.len() && o1[j] == b;
            if j < i {
                lemma_label_order_prefix(h, key, o1, o2, j);
                assert(precedes(h, key, o2[j] as int, o2[i] as int));
                lemma_precedes_asymmetric(h, key, b, b);
            } else if j > i {
                assert(precedes(h, key, o1[i] as int, o1[j] as int));
                lemma_precedes_asymmetric(h, key, b, a);
            }
        }
    }
}

proof fn lemma_precedes_transitive(h: Seq<Seq<char>>, key: int, a: int, b: int, c: int)
    requires
        precedes(h, key, a, b),
        precedes(h, key, b, c),
    ensures
        precedes(h, key, a, c),
{
    if seq_lt(h[a], h[b]) && seq_lt(h[b], h[c]) {
        lemma_seq_lt_transitive(h[a], h[b], h[c]);
    }
}

proof fn lemma_precedes_total(h: Seq<Seq<char>>, key: int, a: int, b: int)
    requires
        swapped_pos(key, a) != swapped_pos(key, b),
    ensures
        precedes(h, key, a, b) || precedes(h, key, b, a),
{
    if h[a] != h[b] {
        lemma_seq_lt_total(h[a], h[b]);
    }
}

proof fn lemma_precedes_asymmetric(h: Seq<Seq<char>>, key: int, a: int, b: int)
    requires
        precedes(h, key, a, b),
    ensures
        !precedes(h, key, b, a),
{
    if seq_lt(h[b], h[a]) {
        if seq_lt(h[a], h[b]) {
            lemma_seq_lt_transitive(h[a], h[b], h[a]);
            lemma_seq_lt_irreflexive(h[a]);
        } else {
            lemma_seq_lt_irreflexive(h[a]);
        }
    }
    if seq_lt(h[a], h[b]) && h[a] == h[b] {
        lemma_seq_lt_irreflexive(h[a]);
    }
}

/// Whether column `a` is rendered before column `b`.
fn precedes_exec(labels: &Vec<Vec<char>>, key: usize, a: usize, b: usize) -> (r: bool)
    requires
        a < labels@.len(),
        b < labels@.len(),
    ensures
        r == precedes(labels@.map_values(|l: Vec<char>| l@), key as int, a as int, b as int),
{
    let ghost h = labels@.map_values(|l: Vec<char>| l@);
    let less = seq_less(&labels[a], &labels[b]);
    if less {
        return true;
    }
    let more = seq_less(&labels[b], &labels[a]);
    if more {
        return false;
    }
    proof {
        if h[a as int] != h[b as int] {
            lemma_seq_lt_total(h[a as int], h[b as int]);
        }
    }
    let pa: usize = if a == key { 0 } else if a == 0 { key } else { a };
    let pb: usize = if b == key { 0 } else if b == 0 { key } else { b };
    pa < pb
}

/// Every column but the key, ordered by label, ties kept in the order
/// they had once the key column was swapped to the front.
pub fn label_order(header: &Vec<String>, key: usize) -> (o: Vec<usize>)
    requires
        key < header@.len(),
    ensures
        is_label_order(record_view(*header), key as int, o@),
{
    let n = header.len();
    let mut labels: Vec<Vec<char>> = Vec::new();
    let mut c: usize = 0;
    while c < n
        invariant
            n == header@.len(),
            c <= n,
            labels@.len() == c,
            forall|i: int| 0 <= i < c ==> #[trigger] labels@[i]@ == header@[i]@,
        decreases n - c,
    {
        labels.push(chars_of(header[c].as_str()));
        c = c + 1;
    }
    let ghost h = labels@.map_values(|l: Vec<char>| l@);
    assert(h == record_view(*header));
    let mut o: Vec<usize> = Vec::new();
    let mut p: usize = 1;
    while p < n
        invariant
            n == header@.len() == labels@.len(),
            h == labels@.map_values(|l: Vec<char>| l@),
            key < n,
            1 <= p <= n,
            o@.len() + 1 == p,
            forall|i: int| 0 <= i < o@.len() ==> #[trigger] o@[i] < n && o@[i] != key
                && 1 <= swapped_pos(key as int, o@[i] as int) < p,
            forall|i: int, j: int| 0 <= i < j < o@.len() ==> precedes(h, key as int, #[trigger] o@[i] as int, #[trigger] o@[j] as int),
            forall|c: int| 0 <= c < n && c != key && swapped_pos(key as int, c) < p ==> #[trigger] listed(o@, c),
        decreases n - p,
    {
        let col: usize = if p == key { 0 } else { p };
        assert(swapped_pos(key as int, col as int) == p);
        let mut at: usize = 0;
        while at < o.len() && !precedes_exec(&labels, key, col, o[at])
            invariant
                n == labels@.len(),
                h == labels@.map_values(|l: Vec<char>| l@),
                at <= o@.len(),
                col < n,
                forall|i: int| 0 <= i < o@.len() ==> #[trigger] o@[i] < n,
                forall|i: int| 0 <= i < at ==> !precedes(h, key as int, col as int, #[trigger] o@[i] as int),
            decreases o@.len() - at,
        {
            at = at + 1;
        }
        let ghost before = o@;
        proof {
            assert forall|i: int| 0 <= i < at implies precedes(h, key as int, #[trigger] before[i] as int, col as int) by {
                lemma_precedes_total(h, key as int, col as int, before[i] as int);
            }
            assert forall|j: int| at <= j < before.len() implies precedes(h, key as int, col as int, #[trigger] before[j] as int) by {
                if j > at {
                    lemma_precedes_transitive(h, key as int, col as int, before[at as int] as int, before[j] as int);
                }
            }
        }
        o.insert(at, col);
        assert forall|i: int, j: int| 0 <= i < j < o@.len() implies precedes(h, key as int, #[trigger] o@[i] as int, #[trigger] o@[j] as int) by {
            if j < at {
                assert(o@[i] == before[i] && o@[j] == before[j]);
            } else if j == at {
                assert(o@[i] == before[i]);
            } else if i < at {
                assert(o@[i] == before[i] && o@[j] == before[j - 1]);
                lemma_precedes_transitive(h, key as int, before[i] as int, col as int, before[j - 1] as int);
            } else if i == at {
                assert(o@[j] == before[j - 1]);
            } else {
                assert(o@[i] == before[i - 1] && o@[j] == before[j - 1]);
            }
        }
        assert forall|i: int| 0 <= i < o@.len() implies #[trigger] o@[i] < n && o@[i] != key
            && 1 <= swapped_pos(key as int, o@[i] as int) < p + 1 by {
            if i < at {
                assert(o@[i] == before[i]);
            } else if i > at {
                assert(o@[i] == before[i - 1]);
            }
        }
        assert forall|c: int| 0 <= c < n && c != key && swapped_pos(key as int, c) < p + 1 implies #[trigger] listed(o@, c) by {
            if c == col {
                assert(o@[at as int] == col);
            } else {
                assert(swapped_pos(key as int, c) < p);
                assert(listed(before, c));
                let i = choose|i: int| 0 <= i < before.len() && before[i] == c;
                if i < at {
                    assert(o@[i] == c);
                } else {
                    assert(o@[i + 1] == c);
                }
            }
        }
        p = p + 1;
    }
    assert forall|c: int| 0 <= c < n && c != key implies #[trigger] listed(o@, c) by {
        assert(swapped_pos(key as int, c) < n);
    }
    o
}

/// The values of column `c` in the data records (all records but the header).
pub open spec fn column_values(t: Seq<Seq<Seq<char>>>, c: int) -> Seq<Seq<char>> {
    t.skip(1).map_values(|r: Seq<Seq<char>>| r[c])
}

/// One row of the pivoted table: a label and one value per data record.
pub struct PivotRow {
    pub label: String,
    pub values: Vec<String>,
}

impl View for PivotRow {
    type V = (Seq<char>, Seq<Seq<char>>);

    open spec fn view(&self) -> (Seq<char>, Seq<Seq<char>>) {
        (self.label@, self.values@.map_values(|v: String| v@))
    }
}

/// `r` is the pivot of table `t` around column `key`: the key column's
/// row first, labelled `title`, then every other column's row under its
/// header name, in label order.
pub open spec fn is_pivot_of(
    r: Seq<(Seq<char>, Seq<Seq<char>>)>,
    t: Seq<Seq<Seq<char>>>,
    key: int,
    title: Seq<char>,
) -> bool {
    &&& r.len() == t[0].len()
    &&& r[0] == (title, column_values(t, key))
    &&& exists|o: Seq<usize>|
        {
            &&& is_label_order(t[0], key, o)
            &&& forall|k: int|
                0 <= k < o.len() ==> #[trigger] r[k + 1] == (t[0][o[k] as int], column_values(t, o[k] as int))
        }
    &&& forall|i: int, j: int| 1 <= i < j < r.len() ==> !seq_lt(#[trigger] r[j].0, #[trigger] r[i].0)
}

/// The pivot is determined by the table, the key and the title: pivoting
/// the same table again gives the same rows in the same order.
pub proof fn lemma_pivot_unique(
    r1: Seq<(Seq<char>, Seq<Seq<char>>)>,
    r2: Seq<(Seq<char>, Seq<Seq<char>>)>,
    t: Seq<Seq<Seq<char>>>,
    key: int,
    title: Seq<char>,
)
    requires
        is_pivot_of(r1, t, key, title),
        is_pivot_of(r2, t, key, title),
    ensures
        r1 == r2,
{
    let o1 = choose|o: Seq<usize>| {
        &&& is_label_order(t[0], key, o)
        &&& forall|k: int| 0 <= k < o.len() ==> #[trigger] r1[k + 1] == (t[0][o[k] as int], column_values(t, o[k] as int))
    };
    let o2 = choose|o: Seq<usize>| {
        &&& is_label_order(t[0], key, o)
        &&& forall|k: int| 0 <= k < o.len() ==> #[trigger] r2[k + 1] == (t[0][o[k] as int], column_values(t, o[k] as int))
    };
    lemma_label_order_unique(t[0], key, o1, o2);
    assert forall|i: int| 0 <= i < r1.len() implies r1[i] == r2[i] by {
        if i > 0 {
            let k = i - 1;
            assert(r1[k + 1] == r2[k + 1]);
        }
    }
    assert(r1 =~= r2);
}

/// The values of column `c` in every record after the header.
fn column_of(recs: &Vec<Vec<String>>, c: usize) -> (r: Vec<String>)
    requires
        well_formed(records_view(recs@)),
        c < records_view(recs@)[0].len(),
    ensures
        r@.map_values(|v: String| v@) == column_values(records_view(recs@), c as int),
{
    let ghost t = records_view(recs@);
    let mut r: Vec<String> = Vec::new();
    let mut i: usize = 1;
    while i < recs.len()
        invariant
            t == records_view(recs@),
            well_formed(t),
            c < t[0].len(),
            1 <= i <= recs@.len(),
            r@.len() + 1 == i,
            forall|k: int| 0 <= k < r@.len() ==> #[trigger] r@[k]@ == t[k + 1][c as int],
        decreases recs@.len() - i,
    {
        assert(t[i as int].len() == t[0].len());
        assert(record_view(recs@[i as int]) == t[i as int]);
        let v = recs[i][c].clone();
        r.push(v);
        i = i + 1;
    }
    assert(r@.map_values(|v: String| v@) == column_values(t, c as int));
    r
}

/// Pivots a table: one row per column. The key column comes first,
/// labelled `title`; every other column follows under its header name,
/// ordered by label (byte-wise, ties kept in their order once the key was
/// swapped to the front).
pub fn pivot(table: &Table, key: usize, title: &str) -> (r: Vec<PivotRow>)
    requires
        table.wf(),
        key < table@[0].len(),
    ensures
        is_pivot_of(r@.map_values(|p: PivotRow| p@), table@, key as int, title@),
{
    let recs = table.records();
    let header = &recs[0];
    assert(record_view(*header) == table@[0]);
    let o = label_order(header, key);
    let ghost h = table@[0];
    let mut r: Vec<PivotRow> = Vec::new();
    r.push(PivotRow { label: String::from_str(title), values: column_of(recs, key) });
    let mut k: usize = 0;
    while k < o.len()
        invariant
            records_view(recs@) == table@,
            table.wf(),
            h == table@[0],
            record_view(*header) == h,
            header == recs@[0],
            is_label_order(h, key as int, o@),
            k <= o@.len(),
            r@.len() == k + 1,
            r@[0]@ == (title@, column_values(table@, key as int)),
            forall|i: int| 0 <= i < k ==> #[trigger] r@[i + 1]@ == (h[o@[i] as int], column_values(table@, o@[i] as int)),
        decreases o@.len() - k,
    {
        let c = o[k];
        assert(c < h.len());
        let label = header[c].clone();
        r.push(PivotRow { label, values: column_of(recs, c) });
        k = k + 1;
    }
    assert forall|i: int, j: int| 1 <= i < j < r@.len() implies !seq_lt(#[trigger] r@[j].label@, #[trigger] r@[i].label@) by {
        let a = i - 1;
        let b = j - 1;
        assert(r@[a + 1]@ == (h[o@[a] as int], column_values(table@, o@[a] as int)));
        assert(r@[b + 1]@ == (h[o@[b] as int], column_values(table@, o@[b] as int)));
        assert(precedes(h, key as int, o@[i - 1] as int, o@[j - 1] as int));
        lemma_precedes_asymmetric(h, key as int, o@[i - 1] as int, o@[j - 1] as int);
    }
    let ghost rv = r@.map_values(|p: PivotRow| p@);
    assert forall|k: int| 0 <= k < o@.len() implies #[trigger] rv[k + 1] == (h[o@[k] as int], column_values(table@, o@[k] as int)) by {
        assert(r@[k + 1]@ == (h[o@[k] as int], column_values(table@, o@[k] as int)));
    }
    assert forall|i: int, j: int| 1 <= i < j < rv.len() implies !seq_lt(#[trigger] rv[j].0, #[trigger] rv[i].0) by {
        assert(!seq_lt(r@[j].label@, r@[i].label@));
    }
    r
}

} // verus!
