//! Character-level splitting and ordering of text.
use vstd::prelude::*;

verus! {

/// The fields of `s` separated by `d`: always at least one field, and
/// `k` occurrences of `d` give `k + 1` fields.
pub open spec fn split_fields(s: Seq<char>, d: char) -> Seq<Seq<char>>
    decreases s.len(),
{
    if s.len() == 0 {
        seq![Seq::<char>::empty()]
    } else {
        let prev = split_fields(s.drop_last(), d);
        if s.last() == d {
            prev.push(Seq::<char>::empty())
        } else {
            prev.update(prev.len() - 1, prev.last().push(s.last()))
        }
    }
}

pub proof fn lemma_split_fields_nonempty(s: Seq<char>, d: char)
    ensures
        split_fields(s, d).len() >= 1,
    decreases s.len(),
{
    if s.len() > 0 {
        lemma_split_fields_nonempty(s.drop_last(), d);
    }
}

/// Copies the characters of `s` into a vector.
pub fn chars_of(s: &str) -> (r: Vec<char>)
    ensures
        r@ == s@,
{
    let mut r: Vec<char> = Vec::new();
    for c in it: s.chars()
        invariant
            it.seq() == s@,
            r@ == it.seq().take(it.index() as int),
    {
        assert(it.seq().take(it.index() as int + 1) == r@.push(c));
        r.push(c);
    }
    assert(r@ == s@.take(s@.len() as int));
    r
}

/// The ranges of `s[lo..hi]` that hold the fields separated by `d`.
pub fn split_ranges(s: &Vec<char>, lo: usize, hi: usize, d: char) -> (r: Vec<(usize, usize)>)
    requires
        lo <= hi <= s@.len(),
    ensures
        r@.len() == split_fields(s@.subrange(lo as int, hi as int), d).len(),
        forall|k: int|
            0 <= k < r@.len() ==> {
                &&& lo <= #[trigger] r@[k].0 <= r@[k].1 <= hi
                &&& s@.subrange(r@[k].0 as int, r@[k].1 as int) == split_fields(
                    s@.subrange(lo as int, hi as int),
                    d,
                )[k]
            },
{
    let mut r: Vec<(usize, usize)> = Vec::new();
    let mut start: usize = lo;
    let mut i: usize = lo;
    while i < hi
        invariant
            lo <= start <= i <= hi <= s@.len(),
            r@.len() + 1 == split_fields(s@.subrange(lo as int, i as int), d).len(),
            s@.subrange(start as int, i as int) == split_fields(
                s@.subrange(lo as int, i as int),
                d,
            ).last(),
            forall|k: int|
                0 <= k < r@.len() ==> {
                    &&& lo <= #[trigger] r@[k].0 <= r@[k].1 <= i
                    &&& s@.subrange(r@[k].0 as int, r@[k].1 as int) == split_fields(
                        s@.subrange(lo as int, i as int),
                        d,
                    )[k]
                },
        decreases hi - i,
    {
        let ghost pre = s@.subrange(lo as int, i as int);
        let ghost cur = s@.subrange(lo as int, i as int + 1);
        let ghost sp = split_fields(pre, d);
        assert(cur.drop_last() == pre);
        assert(cur.last() == s@[i as int]);
        proof {
            lemma_split_fields_nonempty(pre, d);
        }
        if s[i] == d {
            assert(split_fields(cur, d) == sp.push(Seq::<char>::empty()));
            let ghost old_r = r@;
            let ghost sc = split_fields(cur, d);
            r.push((start, i));
            assert forall|k: int| 0 <= k < r@.len() implies lo <= r@[k].0 <= r@[k].1 <= i + 1
                && s@.subrange(r@[k].0 as int, r@[k].1 as int) == sc[k] by {
                if k < old_r.len() {
                    assert(r@[k] == old_r[k]);
                    assert(s@.subrange(old_r[k].0 as int, old_r[k].1 as int) == sp[k]);
                    assert(sc[k] == sp[k]);
                } else {
                    assert(r@[k] == (start, i));
                    assert(sc[k] == sp[k]);
                }
            }
            start = i + 1;
            assert(s@.subrange(start as int, i as int + 1) == Seq::<char>::empty());
        } else {
            assert(split_fields(cur, d) == sp.update(sp.len() - 1, sp.last().push(s@[i as int])));
            assert(s@.subrange(start as int, i as int + 1) == s@.subrange(
                start as int,
                i as int,
            ).push(s@[i as int]));
            let ghost sc = split_fields(cur, d);
            assert forall|k: int| 0 <= k < r@.len() implies lo <= r@[k].0 <= r@[k].1 <= i + 1
                && s@.subrange(r@[k].0 as int, r@[k].1 as int) == sc[k] by {
                assert(sc[k] == sp[k]);
            }
        }
        i = i + 1;
    }
    let ghost fin = split_fields(s@.subrange(lo as int, hi as int), d);
    let ghost old_r = r@;
    r.push((start, hi));
    assert forall|k: int| 0 <= k < r@.len() implies lo <= r@[k].0 <= r@[k].1 <= hi
        && s@.subrange(r@[k].0 as int, r@[k].1 as int) == fin[k] by {
        if k == r@.len() - 1 {
            assert(fin[k] == fin.last());
        } else {
            assert(r@[k] == old_r[k]);
        }
    }
    r
}

/// Lexicographic order by code point, which is the order of the UTF-8
/// bytes: a proper prefix comes first.
pub open spec fn seq_lt(a: Seq<char>, b: Seq<char>) -> bool
    decreases a.len(),
{
    if a.len() == 0 {
        b.len() > 0
    } else if b.len() == 0 {
        false
    } else if a[0] != b[0] {
        (a[0] as int) < (b[0] as int)
    } else {
        seq_lt(a.drop_first(), b.drop_first())
    }
}

pub proof fn lemma_seq_lt_irreflexive(a: Seq<char>)
    ensures
        !seq_lt(a, a),
    decreases a.len(),
{
    if a.len() > 0 {
        lemma_seq_lt_irreflexive(a.drop_first());
    }
}

pub proof fn lemma_seq_lt_transitive(a: Seq<char>, b: Seq<char>, c: Seq<char>)
    requires
        seq_lt(a, b),
        seq_lt(b, c),
    ensures
        seq_lt(a, c),
    decreases a.len(),
{
    if a.len() > 0 && b.len() > 0 && c.len() > 0 && a[0] == b[0] && b[0] == c[0] {
        lemma_seq_lt_transitive(a.drop_first(), b.drop_first(), c.drop_first());
    } else if a.len() > 0 && b.len() > 0 && c.len() > 0 {
        assert((a[0] as int) <= (b[0] as int) && (b[0] as int) <= (c[0] as int));
        if a[0] == c[0] {
            assert(a[0] == b[0]);
        }
    }
}

pub proof fn lemma_seq_lt_total(a: Seq<char>, b: Seq<char>)
    requires
        a != b,
    ensures
        seq_lt(a, b) || seq_lt(b, a),
    decreases a.len(),
{
    if a.len() > 0 && b.len() > 0 {
        if a[0] == b[0] {
            assert(a.drop_first() != b.drop_first()) by {
                if a.drop_first() == b.drop_first() {
                    assert(a == seq![a[0]] + a.drop_first());
                    assert(b == seq![b[0]] + b.drop_first());
                }
            }
            lemma_seq_lt_total(a.drop_first(), b.drop_first());
        } else {
            assert((a[0] as int) != (b[0] as int));
        }
    } else if a.len() == 0 && b.len() == 0 {
        assert(a == b);
    }
}

/// Whether `a` comes before `b` in code point order.
pub fn seq_less(a: &Vec<char>, b: &Vec<char>) -> (r: bool)
    ensures
        r == seq_lt(a@, b@),
{
    let mut i: usize = 0;
    assert(a@.skip(0) == a@ && b@.skip(0) == b@);
    while i < a.len() && i < b.len() && a[i] == b[i]
        invariant
            i <= a@.len(),
            i <= b@.len(),
            seq_lt(a@, b@) == seq_lt(a@.skip(i as int), b@.skip(i as int)),
        decreases a@.len() - i,
    {
        assert(a@.skip(i as int).drop_first() == a@.skip(i as int + 1));
        assert(b@.skip(i as int).drop_first() == b@.skip(i as int + 1));
        i = i + 1;
    }
    if i == a.len() {
        i < b.len()
    } else if i == b.len() {
        false
    } else {
        assert(a@.skip(i as int)[0] == a@[i as int]);
        assert(b@.skip(i as int)[0] == b@[i as int]);
        a[i] < b[i]
    }
}

/// Characters that separate words: those with the Unicode property
/// White_Space.
pub open spec fn is_space(c: char) -> bool {
    let n = c as int;
    ||| 0x09 <= n <= 0x0D
    ||| n == 0x20
    ||| n == 0x85
    ||| n == 0xA0
    ||| n == 0x1680
    ||| 0x2000 <= n <= 0x200A
    ||| n == 0x2028
    ||| n == 0x2029
    ||| n == 0x202F
    ||| n == 0x205F
    ||| n == 0x3000
}

/// Whether `c` separates words.
pub fn is_space_char(c: char) -> (r: bool)
    ensures
        r == is_space(c),
{
    ('\u{9}' <= c && c <= '\u{D}') || c == ' ' || c == '\u{85}' || c == '\u{A0}' || c == '\u{1680}'
        || ('\u{2000}' <= c && c <= '\u{200A}') || c == '\u{2028}' || c == '\u{2029}'
        || c == '\u{202F}' || c == '\u{205F}' || c == '\u{3000}'
}

/// The words found so far and the word being read, after reading `s`.
pub open spec fn tokens_fold(s: Seq<char>) -> (Seq<Seq<char>>, Seq<char>)
    decreases s.len(),
{
    if s.len() == 0 {
        (Seq::empty(), Seq::empty())
    } else {
        let (done, cur) = tokens_fold(s.drop_last());
        if is_space(s.last()) {
            if cur.len() > 0 {
                (done.push(cur), Seq::empty())
            } else {
                (done, cur)
            }
        } else {
            (done, cur.push(s.last()))
        }
    }
}

/// The words of `s`: the maximal runs of characters that are not spaces.
pub open spec fn tokens(s: Seq<char>) -> Seq<Seq<char>> {
    let (done, cur) = tokens_fold(s);
    if cur.len() > 0 {
        done.push(cur)
    } else {
        done
    }
}

pub proof fn lemma_tokens_fold_shape(s: Seq<char>)
    ensures
        forall|k: int| 0 <= k < tokens_fold(s).0.len() ==> #[trigger] tokens_fold(s).0[k].len() > 0,
    decreases s.len(),
{
    if s.len() > 0 {
        lemma_tokens_fold_shape(s.drop_last());
        let prev = tokens_fold(s.drop_last());
        let now = tokens_fold(s);
        assert forall|k: int| 0 <= k < now.0.len() implies #[trigger] now.0[k].len() > 0 by {
            if k < prev.0.len() {
                assert(now.0[k] == prev.0[k]);
            }
        }
    }
}

/// `w` holds no character that separates words.
pub open spec fn spaceless(w: Seq<char>) -> bool {
    forall|i: int| 0 <= i < w.len() ==> !is_space(#[trigger] w[i])
}

proof fn lemma_tokens_fold_spaceless(s: Seq<char>)
    ensures
        spaceless(tokens_fold(s).1),
        forall|k: int| 0 <= k < tokens_fold(s).0.len() ==> spaceless(#[trigger] tokens_fold(s).0[k]),
    decreases s.len(),
{
    if s.len() > 0 {
        lemma_tokens_fold_spaceless(s.drop_last());
        let prev = tokens_fold(s.drop_last());
        let now = tokens_fold(s);
        assert forall|k: int| 0 <= k < now.0.len() implies spaceless(#[trigger] now.0[k]) by {
            if k < prev.0.len() {
                assert(now.0[k] == prev.0[k]);
            }
        }
        if !is_space(s.last()) {
            assert forall|i: int| 0 <= i < now.1.len() implies !is_space(#[trigger] now.1[i]) by {
                if i < prev.1.len() {
                    assert(now.1[i] == prev.1[i]);
                }
            }
        }
    }
}

/// No word holds a character that separates words.
pub proof fn lemma_tokens_spaceless(s: Seq<char>)
    ensures
        forall|k: int| 0 <= k < tokens(s).len() ==> spaceless(#[trigger] tokens(s)[k]),
{
    lemma_tokens_fold_spaceless(s);
}

/// Reading a word after `p` extends the word being read.
pub proof fn lemma_tokens_fold_word(p: Seq<char>, x: Seq<char>)
    requires
        spaceless(x),
    ensures
        tokens_fold(p + x) == (tokens_fold(p).0, tokens_fold(p).1 + x),
    decreases x.len(),
{
    if x.len() == 0 {
        assert(p + x =~= p);
        assert(tokens_fold(p).1 + x =~= tokens_fold(p).1);
    } else {
        let y = x.drop_last();
        assert forall|i: int| 0 <= i < y.len() implies !is_space(#[trigger] y[i]) by {
            assert(y[i] == x[i]);
        }
        lemma_tokens_fold_word(p, y);
        assert((p + x).drop_last() =~= p + y);
        assert((p + x).last() == x.last());
        assert(!is_space(x[x.len() - 1]));
        assert((tokens_fold(p).1 + y).push(x.last()) =~= tokens_fold(p).1 + x);
    }
}

/// Every word is non-empty.
pub proof fn lemma_tokens_nonempty(s: Seq<char>)
    ensures
        forall|k: int| 0 <= k < tokens(s).len() ==> #[trigger] tokens(s)[k].len() > 0,
{
    lemma_tokens_fold_shape(s);
}

/// The ranges of `s[lo..hi]` that hold its words.
pub fn token_ranges(s: &Vec<char>, lo: usize, hi: usize) -> (r: Vec<(usize, usize)>)
    requires
        lo <= hi <= s@.len(),
    ensures
        r@.len() == tokens(s@.subrange(lo as int, hi as int)).len(),
        forall|k: int|
            0 <= k < r@.len() ==> {
                &&& lo <= #[trigger] r@[k].0 <= r@[k].1 <= hi
                &&& s@.subrange(r@[k].0 as int, r@[k].1 as int) == tokens(
                    s@.subrange(lo as int, hi as int),
                )[k]
            },
{
    let mut r: Vec<(usize, usize)> = Vec::new();
    let mut start: usize = lo;
    let mut i: usize = lo;
    while i < hi
        invariant
            lo <= start <= i <= hi <= s@.len(),
            r@.len() == tokens_fold(s@.subrange(lo as int, i as int)).0.len(),
            s@.subrange(start as int, i as int) == tokens_fold(s@.subrange(lo as int, i as int)).1,
            forall|k: int|
                0 <= k < r@.len() ==> {
                    &&& lo <= #[trigger] r@[k].0 <= r@[k].1 <= i
                    &&& s@.subrange(r@[k].0 as int, r@[k].1 as int) == tokens_fold(
                        s@.subrange(lo as int, i as int),
                    ).0[k]
                },
        decreases hi - i,
    {
        let ghost pre = s@.subrange(lo as int, i as int);
        let ghost cur = s@.subrange(lo as int, i as int + 1);
        let ghost f = tokens_fold(pre);
        assert(cur.drop_last() == pre);
        assert(cur.last() == s@[i as int]);
        let ghost old_r = r@;
        let c = s[i];
        if is_space_char(c) {
            if start < i {
                r.push((start, i));
                assert forall|k: int| 0 <= k < r@.len() implies lo <= #[trigger] r@[k].0 <= r@[k].1 <= i + 1
                    && s@.subrange(r@[k].0 as int, r@[k].1 as int) == tokens_fold(cur).0[k] by {
                    if k < old_r.len() {
                        assert(r@[k] == old_r[k]);
                    }
                }
            }
            start = i + 1;
            assert(s@.subrange(start as int, i as int + 1) == Seq::<char>::empty());
        } else {
            assert(s@.subrange(start as int, i as int + 1) == s@.subrange(
                start as int,
                i as int,
            ).push(s@[i as int]));
        }
        i = i + 1;
    }
    let ghost fin = s@.subrange(lo as int, hi as int);
    let ghost old_r = r@;
    if start < hi {
        r.push((start, hi));
    }
    assert forall|k: int| 0 <= k < r@.len() implies lo <= #[trigger] r@[k].0 <= r@[k].1 <= hi
        && s@.subrange(r@[k].0 as int, r@[k].1 as int) == tokens(fin)[k] by {
        if k < old_r.len() {
            assert(r@[k] == old_r[k]);
        }
    }
    r
}

} // verus!
