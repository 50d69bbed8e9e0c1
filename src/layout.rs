//! Word wrapping and the layout of pivot rows into display lines.
use vstd::prelude::*;

use crate::pivot::PivotRow;
use crate::table::{record_view, records_view};
use crate::text::{
    chars_of, is_space, lemma_tokens_fold_word, lemma_tokens_nonempty, lemma_tokens_spaceless,
    spaceless, token_ranges, tokens, tokens_fold,
};

verus! {

/// Words joined by single spaces.
pub open spec fn join_words(ws: Seq<Seq<char>>) -> Seq<char>
    decreases ws.len(),
{
    if ws.len() == 0 {
        Seq::empty()
    } else if ws.len() == 1 {
        ws[0]
    } else {
        join_words(ws.drop_last()) + seq![' '] + ws.last()
    }
}

/// The words of each display line, filled greedily: a word joins the
/// current line when the line, a space and the word fit in `w`, and
/// starts a new line otherwise. A word is never split; one longer than
/// `w` stands on a line of its own.
pub open spec fn group_fold(words: Seq<Seq<char>>, w: nat) -> Seq<Seq<Seq<char>>>
    decreases words.len(),
{
    if words.len() == 0 {
        seq![Seq::<Seq<char>>::empty()]
    } else {
        let g = group_fold(words.drop_last(), w);
        let cur = g.last();
        let x = words.last();
        if cur.len() == 0 {
            g.update(g.len() - 1, seq![x])
        } else if join_words(cur).len() + 1 + x.len() <= w {
            g.update(g.len() - 1, cur.push(x))
        } else {
            g.push(seq![x])
        }
    }
}

/// The display lines of `words` wrapped to width `w`.
pub open spec fn wrap_lines(words: Seq<Seq<char>>, w: nat) -> Seq<Seq<char>> {
    group_fold(words, w).map_values(|g: Seq<Seq<char>>| join_words(g))
}

/// The parts of `s` one after another.
pub open spec fn concat_all<A>(s: Seq<Seq<A>>) -> Seq<A>
    decreases s.len(),
{
    if s.len() == 0 {
        Seq::empty()
    } else {
        concat_all(s.drop_last()) + s.last()
    }
}

proof fn lemma_group_fold_nonempty(words: Seq<Seq<char>>, w: nat)
    ensures
        group_fold(words, w).len() >= 1,
        words.len() > 0 ==> group_fold(words, w).last().len() > 0,
    decreases words.len(),
{
    if words.len() > 0 {
        lemma_group_fold_nonempty(words.drop_last(), w);
    }
}

/// Wrapping keeps every word whole and in order: the words of the display
/// lines, read line after line, are the words that were wrapped.
pub proof fn lemma_wrap_keeps_words(words: Seq<Seq<char>>, w: nat)
    ensures
        concat_all(group_fold(words, w)) == words,
    decreases words.len(),
{
    if words.len() > 0 {
        let pre = words.drop_last();
        lemma_wrap_keeps_words(pre, w);
        lemma_group_fold_nonempty(pre, w);
        let g = group_fold(pre, w);
        let cur = g.last();
        let x = words.last();
        let rest = g.drop_last();
        assert(concat_all(g) == concat_all(rest) + cur) by {
            assert(g.drop_last() == rest);
        }
        if cur.len() == 0 {
            let h = g.update(g.len() - 1, seq![x]);
            assert(h.drop_last() == rest);
            assert(h.last() == seq![x]);
            assert(concat_all(h) == concat_all(rest) + seq![x]);
            assert(cur =~= Seq::<Seq<char>>::empty());
            assert(concat_all(rest) + cur =~= concat_all(rest));
            assert(words =~= pre.push(x));
            assert(concat_all(h) =~= words);
            assert(group_fold(words, w) == h);
        } else if join_words(cur).len() + 1 + x.len() <= w {
            let h = g.update(g.len() - 1, cur.push(x));
            assert(h.drop_last() == rest);
            assert(h.last() == cur.push(x));
            assert(concat_all(h) == concat_all(rest) + cur.push(x));
            assert(concat_all(rest) + cur.push(x) =~= (concat_all(rest) + cur).push(x));
            assert(words =~= pre.push(x));
            assert(group_fold(words, w) == h);
        } else {
            let h = g.push(seq![x]);
            assert(h.drop_last() == g);
            assert(h.last() == seq![x]);
            assert(concat_all(h) == concat_all(g) + seq![x]);
            assert(concat_all(g) + seq![x] =~= concat_all(g).push(x));
            assert(words =~= pre.push(x));
            assert(group_fold(words, w) == h);
        }
    } else {
        let g = group_fold(words, w);
        assert(g.drop_last() =~= Seq::<Seq<Seq<char>>>::empty());
        assert(concat_all(g.drop_last()) =~= Seq::<Seq<char>>::empty());
        assert(g.last() =~= Seq::<Seq<char>>::empty());
        assert(concat_all(g) =~= Seq::<Seq<char>>::empty());
        assert(words =~= Seq::<Seq<char>>::empty());
    }
}

/// A display line is no wider than `w` unless it holds a single word
/// longer than `w`; so where no word is longer than `w`, no line is.
pub proof fn lemma_wrap_fits(words: Seq<Seq<char>>, w: nat)
    ensures
        forall|i: int| 0 <= i < group_fold(words, w).len() ==>
            join_words(#[trigger] group_fold(words, w)[i]).len() <= w
            || group_fold(words, w)[i].len() == 1,
        (forall|k: int| 0 <= k < words.len() ==> #[trigger] words[k].len() <= w) ==>
            forall|i: int| 0 <= i < wrap_lines(words, w).len() ==>
                #[trigger] wrap_lines(words, w)[i].len() <= w,
    decreases words.len(),
{
    if words.len() > 0 {
        let pre = words.drop_last();
        lemma_wrap_fits(pre, w);
        lemma_group_fold_nonempty(pre, w);
        let g = group_fold(pre, w);
        let x = words.last();
        let cur = g.last();
        let h = group_fold(words, w);
        assert forall|i: int| 0 <= i < h.len() implies join_words(#[trigger] h[i]).len() <= w || h[i].len() == 1 by {
            if i < g.len() - 1 {
                assert(h[i] == g[i]);
            } else if i == g.len() - 1 && cur.len() > 0 && join_words(cur).len() + 1 + x.len() <= w {
                assert(h[i] == cur.push(x));
                assert(cur.push(x).drop_last() == cur);
            } else if i == g.len() - 1 && !(cur.len() > 0) {
                assert(h[i] == seq![x]);
            } else if i == g.len() - 1 {
                assert(h[i] == g[i]);
            }
        }
        if forall|k: int| 0 <= k < words.len() ==> #[trigger] words[k].len() <= w {
            assert forall|i: int| 0 <= i < wrap_lines(words, w).len() implies #[trigger] wrap_lines(words, w)[i].len() <= w by {
                assert(wrap_lines(words, w)[i] == join_words(h[i]));
                if h[i].len() == 1 && join_words(h[i]).len() > w {
                    assert(join_words(h[i]) == h[i][0]);
                    assert(concat_all(h) == words) by {
                        lemma_wrap_keeps_words(words, w);
                    }
                    lemma_member_of_concat(h, i, 0);
                }
            }
        }
    } else {
        assert(group_fold(words, w)[0] == Seq::<Seq<char>>::empty());
    }
}

proof fn lemma_member_of_concat(h: Seq<Seq<Seq<char>>>, i: int, j: int)
    requires
        0 <= i < h.len(),
        0 <= j < h[i].len(),
    ensures
        exists|k: int| 0 <= k < concat_all(h).len() && #[trigger] concat_all(h)[k] == h[i][j],
    decreases h.len(),
{
    if i < h.len() - 1 {
        lemma_member_of_concat(h.drop_last(), i, j);
        let k = choose|k: int| 0 <= k < concat_all(h.drop_last()).len() && #[trigger] concat_all(h.drop_last())[k] == h[i][j];
        assert(concat_all(h)[k] == concat_all(h.drop_last())[k]);
    } else {
        let k = concat_all(h.drop_last()).len() + j;
        assert(concat_all(h)[k] == h[i][j]);
    }
}

/// The words of `value` wrapped to `width`: see `group_fold`. A value with
/// no words gives one empty line.
pub fn wrap_text(value: &str, width: usize) -> (r: Vec<String>)
    ensures
        r@.map_values(|l: String| l@) == wrap_lines(tokens(value@), width as nat),
{
    let cs = chars_of(value);
    let n = cs.len();
    let rs = token_ranges(&cs, 0, n);
    let ghost words = tokens(value@);
    proof {
        assert(cs@.subrange(0, n as int) == value@);
        lemma_tokens_nonempty(value@);
    }
    let mut lines: Vec<String> = Vec::new();
    let mut cur = String::new();
    let mut has_cur = false;
    let mut cur_len: usize = 0;
    let mut k: usize = 0;
    while k < rs.len()
        invariant
            cs@ == value@,
            n == cs@.len(),
            words == tokens(value@),
            rs@.len() == words.len(),
            forall|j: int| 0 <= j < rs@.len() ==> {
                &&& 0 <= #[trigger] rs@[j].0 <= rs@[j].1 <= n
                &&& cs@.subrange(rs@[j].0 as int, rs@[j].1 as int) == words[j]
            },
            forall|j: int| 0 <= j < words.len() ==> #[trigger] words[j].len() > 0,
            k <= rs@.len(),
            group_fold(words.take(k as int), width as nat).len() == lines@.len() + 1,
            forall|j: int| 0 <= j < lines@.len() ==> #[trigger] lines@[j]@ == join_words(group_fold(words.take(k as int), width as nat)[j]),
            cur@ == join_words(group_fold(words.take(k as int), width as nat).last()),
            has_cur == (group_fold(words.take(k as int), width as nat).last().len() > 0),
            cur_len == cur@.len(),
        decreases rs@.len() - k,
    {
        let ghost pre = words.take(k as int);
        let ghost g = group_fold(pre, width as nat);
        let ghost x = words[k as int];
        assert(words.take(k as int + 1).drop_last() == pre);
        assert(words.take(k as int + 1).last() == x);
        let (a, b) = rs[k];
        let word = String::from_str(value.substring_char(a, b));
        let wl = b - a;
        let ghost old_lines = lines@;
        if !has_cur {
            cur = word;
            has_cur = true;
            cur_len = wl;
        } else if width >= 1 && wl <= width - 1 && cur_len <= width - 1 - wl {
            proof {
                reveal_strlit(" ");
            }
            cur.append(" ");
            cur.append(word.as_str());
            cur_len = cur_len + 1 + wl;
            assert(g.last().push(x).drop_last() == g.last());
        } else {
            lines.push(cur);
            cur = word;
            has_cur = true;
            cur_len = wl;
            assert forall|j: int| 0 <= j < lines@.len() implies #[trigger] lines@[j]@ == join_words(group_fold(words.take(k as int + 1), width as nat)[j]) by {
                if j < old_lines.len() {
                    assert(lines@[j] == old_lines[j]);
                }
            }
        }
        k = k + 1;
    }
    assert(words.take(k as int) == words);
    lines.push(cur);
    assert(lines@.map_values(|l: String| l@) =~= wrap_lines(words, width as nat));
    lines
}

/// The words of words joined by single spaces are those words again.
pub proof fn lemma_tokens_of_join(g: Seq<Seq<char>>)
    requires
        forall|k: int| 0 <= k < g.len() ==> #[trigger] g[k].len() > 0 && spaceless(g[k]),
    ensures
        tokens(join_words(g)) == g,
    decreases g.len(),
{
    if g.len() == 0 {
        assert(tokens(join_words(g)) =~= g);
    } else if g.len() == 1 {
        lemma_tokens_fold_word(Seq::empty(), g[0]);
        assert(Seq::<char>::empty() + g[0] =~= g[0]);
        assert(tokens(join_words(g)) =~= g);
    } else {
        let pre = g.drop_last();
        let x = g.last();
        assert(g[g.len() - 1] == x);
        assert forall|k: int| 0 <= k < pre.len() implies #[trigger] pre[k].len() > 0 && spaceless(pre[k]) by {
            assert(pre[k] == g[k]);
        }
        lemma_tokens_of_join(pre);
        let p = join_words(pre);
        let q = p + seq![' '];
        assert(q.drop_last() =~= p);
        assert(is_space(q.last()));
        assert(tokens_fold(q) == (pre, Seq::<char>::empty()));
        lemma_tokens_fold_word(q, x);
        assert(join_words(g) == q + x);
        assert(Seq::<char>::empty() + x =~= x);
        assert(tokens(join_words(g)) =~= g);
    }
}

/// Each display line of a wrapped value holds, as its words, exactly its
/// group of the value's words, and the groups read in order are the
/// value's words: no word is split across lines.
pub proof fn lemma_wrap_lines_words(v: Seq<char>, w: nat)
    ensures
        concat_all(group_fold(tokens(v), w)) == tokens(v),
        wrap_lines(tokens(v), w).len() == group_fold(tokens(v), w).len(),
        forall|i: int|
            0 <= i < wrap_lines(tokens(v), w).len() ==> tokens(#[trigger] wrap_lines(tokens(v), w)[i])
                == group_fold(tokens(v), w)[i],
{
    let words = tokens(v);
    let h = group_fold(words, w);
    lemma_wrap_keeps_words(words, w);
    lemma_tokens_nonempty(v);
    lemma_tokens_spaceless(v);
    assert forall|i: int| 0 <= i < wrap_lines(words, w).len() implies tokens(#[trigger] wrap_lines(words, w)[i]) == h[i] by {
        assert forall|k: int| 0 <= k < h[i].len() implies #[trigger] h[i][k].len() > 0 && spaceless(h[i][k]) by {
            lemma_member_of_concat(h, i, k);
            let q = choose|q: int| 0 <= q < concat_all(h).len() && #[trigger] concat_all(h)[q] == h[i][k];
            assert(words[q] == h[i][k]);
        }
        lemma_tokens_of_join(h[i]);
    }
}

/// The display lines of one value.
pub open spec fn value_lines(v: Seq<char>, w: nat) -> Seq<Seq<char>> {
    wrap_lines(tokens(v), w)
}

/// How many display lines a pivot row takes: those of its tallest value,
/// and at least one.
pub open spec fn height_of(vals: Seq<Seq<char>>, w: nat) -> nat
    decreases vals.len(),
{
    if vals.len() == 0 {
        1
    } else {
        let h = height_of(vals.drop_last(), w);
        let l = value_lines(vals.last(), w).len();
        if l > h {
            l
        } else {
            h
        }
    }
}

/// Line `k` of a wrapped value, empty below its last line.
pub open spec fn line_at(lines: Seq<Seq<char>>, k: int) -> Seq<char> {
    if 0 <= k < lines.len() {
        lines[k]
    } else {
        Seq::empty()
    }
}

/// Display line `k` of a pivot row: the label on the first line only,
/// blank below it, then line `k` of each value.
pub open spec fn display_row(label: Seq<char>, vals: Seq<Seq<char>>, w: nat, k: int) -> Seq<Seq<char>> {
    seq![if k == 0 { label } else { Seq::<char>::empty() }] + Seq::new(
        vals.len(),
        |j: int| line_at(value_lines(vals[j], w), k),
    )
}

/// The display lines of a pivot row.
pub open spec fn display_lines(label: Seq<char>, vals: Seq<Seq<char>>, w: nat) -> Seq<Seq<Seq<char>>> {
    Seq::new(height_of(vals, w), |k: int| display_row(label, vals, w, k))
}

/// The display lines of all pivot rows, in order.
pub open spec fn layout_spec(rows: Seq<(Seq<char>, Seq<Seq<char>>)>, w: nat) -> Seq<Seq<Seq<char>>> {
    concat_all(rows.map_values(|r: (Seq<char>, Seq<Seq<char>>)| display_lines(r.0, r.1, w)))
}

proof fn lemma_concat_member<A>(parts: Seq<Seq<A>>, q: int)
    requires
        0 <= q < concat_all(parts).len(),
    ensures
        exists|i: int, k: int| 0 <= i < parts.len() && 0 <= k < parts[i].len() && #[trigger] parts[i][k] == concat_all(parts)[q],
    decreases parts.len(),
{
    if parts.len() > 0 {
        let pre = parts.drop_last();
        let c = concat_all(pre);
        assert(concat_all(parts) == c + parts.last());
        if q < c.len() {
            lemma_concat_member(pre, q);
            let (i, k) = choose|i: int, k: int| 0 <= i < pre.len() && 0 <= k < pre[i].len() && #[trigger] pre[i][k] == concat_all(pre)[q];
            assert(parts[i][k] == concat_all(parts)[q]);
        } else {
            let i = parts.len() - 1;
            let k = q - c.len();
            assert(parts[i][k] == concat_all(parts)[q]);
        }
    }
}

/// No word of any value is wider than `w`.
pub open spec fn words_fit(rows: Seq<(Seq<char>, Seq<Seq<char>>)>, w: nat) -> bool {
    forall|i: int, j: int, k: int|
        0 <= i < rows.len() && 0 <= j < rows[i].1.len() && 0 <= k < tokens(rows[i].1[j]).len()
            ==> #[trigger] tokens(rows[i].1[j])[k].len() <= w
}

/// Where no word is wider than `w`, no value cell of any display line is.
pub proof fn lemma_layout_fits(rows: Seq<(Seq<char>, Seq<Seq<char>>)>, w: nat)
    requires
        words_fit(rows, w),
    ensures
        forall|q: int, c: int|
            0 <= q < layout_spec(rows, w).len() && 1 <= c < layout_spec(rows, w)[q].len()
                ==> #[trigger] layout_spec(rows, w)[q][c].len() <= w,
{
    let parts = rows.map_values(|r: (Seq<char>, Seq<Seq<char>>)| display_lines(r.0, r.1, w));
    assert forall|q: int, c: int|
        0 <= q < layout_spec(rows, w).len() && 1 <= c < layout_spec(rows, w)[q].len()
            implies #[trigger] layout_spec(rows, w)[q][c].len() <= w by {
        lemma_concat_member(parts, q);
        let (i, k) = choose|i: int, k: int| 0 <= i < parts.len() && 0 <= k < parts[i].len() && #[trigger] parts[i][k] == concat_all(parts)[q];
        let vals = rows[i].1;
        let j = c - 1;
        assert(parts[i] == display_lines(rows[i].0, vals, w));
        assert(parts[i][k] == display_row(rows[i].0, vals, w, k));
        assert(layout_spec(rows, w)[q][c] == line_at(value_lines(vals[j], w), k));
        let words = tokens(vals[j]);
        assert forall|m: int| 0 <= m < words.len() implies #[trigger] words[m].len() <= w by {
            assert(tokens(rows[i].1[j])[m].len() <= w);
        }
        lemma_wrap_fits(words, w);
        if 0 <= k < value_lines(vals[j], w).len() {
            assert(wrap_lines(words, w)[k].len() <= w);
        }
    }
}

/// The display lines of one pivot row, its values wrapped to `width`.
pub fn display_rows_of(row: &PivotRow, width: usize) -> (r: Vec<Vec<String>>)
    ensures
        records_view(r@) == display_lines(row@.0, row@.1, width as nat),
{
    let ghost vals = row@.1;
    let ghost w = width as nat;
    let m = row.values.len();
    let mut wrapped: Vec<Vec<String>> = Vec::new();
    let mut height: usize = 1;
    let mut j: usize = 0;
    while j < m
        invariant
            m == row.values@.len(),
            vals == row@.1,
            w == width as nat,
            j <= m,
            wrapped@.len() == j,
            forall|i: int| 0 <= i < j ==> #[trigger] record_view(wrapped@[i]) == value_lines(vals[i], w),
            height as nat == height_of(vals.take(j as int), w),
        decreases m - j,
    {
        let lines = wrap_text(row.values[j].as_str(), width);
        assert(vals.take(j as int + 1).drop_last() == vals.take(j as int));
        assert(vals.take(j as int + 1).last() == vals[j as int]);
        assert(record_view(lines) == value_lines(vals[j as int], w));
        if lines.len() > height {
            height = lines.len();
        }
        wrapped.push(lines);
        j = j + 1;
    }
    assert(vals.take(m as int) == vals);
    let mut r: Vec<Vec<String>> = Vec::new();
    let mut k: usize = 0;
    while k < height
        invariant
            m == row.values@.len() == vals.len(),
            vals == row@.1,
            w == width as nat,
            wrapped@.len() == m,
            forall|i: int| 0 <= i < m ==> #[trigger] record_view(wrapped@[i]) == value_lines(vals[i], w),
            height as nat == height_of(vals, w),
            k <= height,
            r@.len() == k,
            forall|i: int| 0 <= i < k ==> #[trigger] record_view(r@[i]) == display_row(row@.0, vals, w, i),
        decreases height - k,
    {
        let mut line: Vec<String> = Vec::new();
        if k == 0 {
            line.push(row.label.clone());
        } else {
            line.push(String::new());
        }
        let mut i: usize = 0;
        while i < m
            invariant
                m == vals.len(),
                wrapped@.len() == m,
                forall|q: int| 0 <= q < m ==> #[trigger] record_view(wrapped@[q]) == value_lines(vals[q], w),
                i <= m,
                line@.len() == i + 1,
                line@[0]@ == (if k == 0 { row@.0 } else { Seq::<char>::empty() }),
                forall|q: int| 0 <= q < i ==> #[trigger] line@[q + 1]@ == line_at(value_lines(vals[q], w), k as int),
            decreases m - i,
        {
            let ghost lv = value_lines(vals[i as int], w);
            assert(record_view(wrapped@[i as int]) == lv);
            if k < wrapped[i].len() {
                assert(wrapped@[i as int]@[k as int]@ == lv[k as int]);
                line.push(wrapped[i][k].clone());
            } else {
                line.push(String::new());
            }
            i = i + 1;
        }
        assert(record_view(line) =~= display_row(row@.0, vals, w, k as int)) by {
            assert forall|q: int| 1 <= q < line@.len() implies #[trigger] line@[q]@ == display_row(row@.0, vals, w, k as int)[q] by {
                let p = q - 1;
                assert(line@[p + 1]@ == line_at(value_lines(vals[p], w), k as int));
            }
        }
        r.push(line);
        k = k + 1;
    }
    assert(records_view(r@) =~= display_lines(row@.0, vals, w));
    r
}

/// The display lines of all pivot rows, values wrapped to `width`.
pub fn layout(rows: &Vec<PivotRow>, width: usize) -> (r: Vec<Vec<String>>)
    ensures
        records_view(r@) == layout_spec(rows@.map_values(|p: PivotRow| p@), width as nat),
{
    let ghost rv = rows@.map_values(|p: PivotRow| p@);
    let ghost parts = rv.map_values(|q: (Seq<char>, Seq<Seq<char>>)| display_lines(q.0, q.1, width as nat));
    let mut r: Vec<Vec<String>> = Vec::new();
    let mut i: usize = 0;
    while i < rows.len()
        invariant
            rv == rows@.map_values(|p: PivotRow| p@),
            parts == rv.map_values(|q: (Seq<char>, Seq<Seq<char>>)| display_lines(q.0, q.1, width as nat)),
            i <= rows@.len(),
            records_view(r@) == concat_all(parts.take(i as int)),
        decreases rows@.len() - i,
    {
        let mut more = display_rows_of(&rows[i], width);
        assert(parts.take(i as int + 1).drop_last() == parts.take(i as int));
        assert(parts.take(i as int + 1).last() == parts[i as int]);
        let ghost before = r@;
        let ghost added = more@;
        r.append(&mut more);
        assert(records_view(r@) =~= records_view(before) + records_view(added));
        i = i + 1;
    }
    assert(parts.take(rows@.len() as int) == parts);
    r
}

} // verus!
