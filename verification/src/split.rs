//! Splitting a character sequence on a separator (the semantics of
//! `str::split` with a string pattern) and joining pieces with a separator.

use vstd::prelude::*;

verus! {

/// `p` occurs in `s` starting at position `i`.
pub open spec fn occurs_at(s: Seq<char>, p: Seq<char>, i: int) -> bool {
    0 <= i && i + p.len() <= s.len() && s.subrange(i, i + p.len()) == p
}

/// The leftmost position at or after `i` where a nonempty `p` occurs in `s`.
pub open spec fn match_from(s: Seq<char>, p: Seq<char>, i: int) -> Option<int>
    decreases s.len() - i,
{
    if i < 0 || p.len() == 0 || i + p.len() > s.len() {
        None
    } else if s.subrange(i, i + p.len()) == p {
        Some(i)
    } else {
        match_from(s, p, i + 1)
    }
}

/// A position found by `match_from` is a real occurrence at or after `i`,
/// and nothing occurs between `i` and it.
pub proof fn lemma_match_from(s: Seq<char>, p: Seq<char>, i: int)
    ensures
        match_from(s, p, i) matches Some(k) ==> {
            &&& i <= k
            &&& p.len() > 0
            &&& occurs_at(s, p, k)
            &&& forall|j: int| i <= j < k ==> !occurs_at(s, p, j)
        },
        match_from(s, p, i) is None && i >= 0 ==> forall|j: int| i <= j ==> !occurs_at(s, p, j)
            || p.len() == 0,
    decreases s.len() - i,
{
    if i < 0 || p.len() == 0 || i + p.len() > s.len() {
    } else if s.subrange(i, i + p.len()) == p {
    } else {
        lemma_match_from(s, p, i + 1);
    }
}

/// The pieces of `s` between the occurrences of a nonempty separator `p`,
/// matched leftmost first and without overlap (what `str::split` yields).
pub open spec fn split_on(s: Seq<char>, p: Seq<char>) -> Seq<Seq<char>>
    decreases s.len(),
{
    match match_from(s, p, 0) {
        Some(k) => {
            proof {
                lemma_match_from(s, p, 0);
            }
            seq![s.subrange(0, k)] + split_on(s.subrange(k + p.len(), s.len() as int), p)
        },
        None => seq![s],
    }
}

/// The pieces of `parts` with `sep` between each two neighbours (what `join` yields).
pub open spec fn join(parts: Seq<Seq<char>>, sep: Seq<char>) -> Seq<char>
    decreases parts.len(),
{
    if parts.len() == 0 {
        seq![]
    } else if parts.len() == 1 {
        parts[0]
    } else {
        join(parts.drop_last(), sep) + sep + parts.last()
    }
}

/// The characters of `s` at the index ranges in `ranges`.
pub open spec fn pieces_of(s: Seq<char>, ranges: Seq<(usize, usize)>) -> Seq<Seq<char>> {
    Seq::new(ranges.len(), |k: int| s.subrange(ranges[k].0 as int, ranges[k].1 as int))
}

/// Whether `p` occurs in `s` at position `i`.
pub fn matches_at(s: &Vec<char>, p: &Vec<char>, i: usize) -> (r: bool)
    requires
        i + p.len() <= s.len(),
    ensures
        r == occurs_at(s@, p@, i as int),
{
    let mut k: usize = 0;
    while k < p.len()
        invariant
            i + p.len() <= s.len(),
            k <= p.len(),
            forall|m: int| 0 <= m < k ==> s@[i + m] == p@[m],
        decreases p.len() - k,
    {
        if s[i + k] != p[k] {
            assert(s@.subrange(i as int, i + p.len())[k as int] != p@[k as int]);
            return false;
        }
        k = k + 1;
    }
    assert(s@.subrange(i as int, i + p.len()) =~= p@);
    true
}

/// Index ranges of the pieces of `s` between occurrences of the nonempty separator `p`.
pub fn split_ranges(s: &Vec<char>, p: &Vec<char>) -> (r: Vec<(usize, usize)>)
    requires
        p.len() > 0,
    ensures
        pieces_of(s@, r@) == split_on(s@, p@),
        forall|k: int| 0 <= k < r.len() ==> (#[trigger] r@[k]).0 <= r@[k].1 <= s.len(),
{
    let mut out: Vec<(usize, usize)> = Vec::new();
    let mut start: usize = 0;
    let mut j: usize = 0;
    assert(s@.subrange(0, s.len() as int) =~= s@);
    assert(pieces_of(s@, out@) + split_on(s@, p@) =~= split_on(s@, p@));
    while j < s.len() && p.len() <= s.len() - j
        invariant
            p.len() > 0,
            start <= j <= s.len(),
            forall|k: int| 0 <= k < out.len() ==> (#[trigger] out@[k]).0 <= out@[k].1 <= s.len(),
            pieces_of(s@, out@) + split_on(s@.subrange(start as int, s.len() as int), p@)
                == split_on(s@, p@),
            match_from(s@.subrange(start as int, s.len() as int), p@, 0) == match_from(
                s@.subrange(start as int, s.len() as int),
                p@,
                j - start,
            ),
        decreases s.len() - j,
    {
        let ghost t = s@.subrange(start as int, s.len() as int);
        assert(t.subrange(j - start, j - start + p.len()) =~= s@.subrange(
            j as int,
            j + p.len(),
        ));
        if matches_at(s, p, j) {
            let ghost rest = s@.subrange(j + p.len(), s.len() as int);
            assert(t.subrange(j - start + p.len(), t.len() as int) =~= rest);
            assert(t.subrange(0, j - start) =~= s@.subrange(start as int, j as int));
            let ghost before = pieces_of(s@, out@);
            out.push((start, j));
            assert(pieces_of(s@, out@) =~= before.push(s@.subrange(start as int, j as int)));
            assert(pieces_of(s@, out@) + split_on(rest, p@) =~= before + split_on(t, p@));
            start = j + p.len();
            j = start;
        } else {
            j = j + 1;
        }
    }
    let ghost t = s@.subrange(start as int, s.len() as int);
    assert(match_from(t, p@, j - start) is None);
    let ghost before = pieces_of(s@, out@);
    out.push((start, s.len()));
    assert(pieces_of(s@, out@) =~= before.push(t));
    assert(pieces_of(s@, out@) =~= before + split_on(t, p@));
    out
}

/// Splitting a piece that holds no occurrence of `p` gives that piece alone.
pub proof fn lemma_split_without_match(s: Seq<char>, p: Seq<char>)
    requires
        forall|j: int| !occurs_at(s, p, j),
    ensures
        split_on(s, p) == seq![s],
{
    lemma_match_from(s, p, 0);
}

/// When `p` does not occur before position `a.len()` of `a + p + rest`,
/// the first piece is `a`.
pub proof fn lemma_split_at_first(a: Seq<char>, p: Seq<char>, rest: Seq<char>)
    requires
        p.len() > 0,
        forall|j: int| 0 <= j < a.len() ==> !occurs_at(a + p + rest, p, j),
    ensures
        split_on(a + p + rest, p) == seq![a] + split_on(rest, p),
{
    let s = a + p + rest;
    assert(s.subrange(a.len() as int, (a.len() + p.len()) as int) =~= p);
    lemma_match_from(s, p, 0);
    let k = match_from(s, p, 0);
    if k is None {
        assert(occurs_at(s, p, a.len() as int));
    } else {
        let kk = k->0;
        if kk < a.len() {
        } else if kk > a.len() {
            assert(occurs_at(s, p, a.len() as int));
        }
    }
    assert(s.subrange(0, a.len() as int) =~= a);
    assert(s.subrange((a.len() + p.len()) as int, s.len() as int) =~= rest);
}

/// A piece without the character `c` holds no occurrence of `seq![c]`
/// before its end, whatever follows it.
pub proof fn lemma_char_free_prefix(a: Seq<char>, c: char, rest: Seq<char>)
    requires
        forall|i: int| 0 <= i < a.len() ==> a[i] != c,
    ensures
        forall|j: int| 0 <= j < a.len() ==> !occurs_at(a + rest, seq![c], j),
{
    assert forall|j: int| 0 <= j < a.len() implies !occurs_at(a + rest, seq![c], j) by {
        if occurs_at(a + rest, seq![c], j) {
            assert((a + rest).subrange(j, j + 1)[0] == (a + rest)[j]);
            assert((a + rest)[j] == a[j]);
        }
    }
}

/// A piece without the character `c` splits on `c` into itself alone.
pub proof fn lemma_split_char_free(a: Seq<char>, c: char)
    requires
        forall|i: int| 0 <= i < a.len() ==> a[i] != c,
    ensures
        split_on(a, seq![c]) == seq![a],
{
    lemma_char_free_prefix(a, c, Seq::empty());
    assert(a + Seq::<char>::empty() =~= a);
    assert forall|j: int| !occurs_at(a, seq![c], j) by {
        if 0 <= j < a.len() {
        }
    }
    lemma_split_without_match(a, seq![c]);
}

/// Splitting `a + [c] + rest` on `c`, where `a` has no `c`, gives `a` first.
pub proof fn lemma_split_char_first(a: Seq<char>, c: char, rest: Seq<char>)
    requires
        forall|i: int| 0 <= i < a.len() ==> a[i] != c,
    ensures
        split_on(a + seq![c] + rest, seq![c]) == seq![a] + split_on(rest, seq![c]),
{
    lemma_char_free_prefix(a, c, seq![c] + rest);
    assert(a + seq![c] + rest =~= a + (seq![c] + rest));
    lemma_split_at_first(a, seq![c], rest);
}

/// `p` occurs nowhere in `s`.
pub open spec fn free_of(s: Seq<char>, p: Seq<char>) -> bool {
    forall|j: int| !occurs_at(s, p, j)
}

/// An occurrence in `x + y` lies in `x`, lies in `y`, or straddles the joint,
/// where it holds both the last character of `x` and the first of `y`.
pub proof fn lemma_occurs_concat(x: Seq<char>, y: Seq<char>, p: Seq<char>, j: int)
    requires
        occurs_at(x + y, p, j),
    ensures
        (j + p.len() <= x.len() && occurs_at(x, p, j)) || (j >= x.len() && occurs_at(
            y,
            p,
            j - x.len(),
        )) || (j < x.len() < j + p.len() && p[x.len() - 1 - j] == x.last() && p[x.len() - j]
            == y[0]),
{
    let s = x + y;
    if j + p.len() <= x.len() {
        assert(s.subrange(j, j + p.len()) =~= x.subrange(j, j + p.len()));
    } else if j >= x.len() {
        assert(s.subrange(j, j + p.len()) =~= y.subrange(j - x.len(), j - x.len() + p.len()));
    } else {
        assert(s.subrange(j, j + p.len())[x.len() - 1 - j] == s[x.len() - 1]);
        assert(s.subrange(j, j + p.len())[x.len() - j] == s[x.len() as int]);
    }
}

/// Joining two pieces free of `p` gives a piece free of `p`, when `p` holds
/// the last character of the first or the first character of the second.
pub proof fn lemma_free_concat(x: Seq<char>, y: Seq<char>, p: Seq<char>)
    requires
        free_of(x, p),
        free_of(y, p),
        x.len() > 0 && y.len() > 0 ==> (forall|k: int| 0 <= k < p.len() ==> p[k] != x.last()) || (
        forall|k: int| 0 <= k < p.len() ==> p[k] != y[0]),
    ensures
        free_of(x + y, p),
{
    assert forall|j: int| !occurs_at(x + y, p, j) by {
        if occurs_at(x + y, p, j) {
            lemma_occurs_concat(x, y, p, j);
            assert(!occurs_at(x, p, j));
            assert(!occurs_at(y, p, j - x.len()));
        }
    }
}

/// A piece made only of characters that `p` lacks is free of a nonempty `p`.
pub proof fn lemma_free_foreign(x: Seq<char>, p: Seq<char>)
    requires
        p.len() > 0,
        forall|i: int, k: int| 0 <= i < x.len() && 0 <= k < p.len() ==> x[i] != p[k],
    ensures
        free_of(x, p),
{
    assert forall|j: int| !occurs_at(x, p, j) by {
        if occurs_at(x, p, j) {
            assert(x.subrange(j, j + p.len())[0] == x[j]);
        }
    }
}

/// Joining two or more pieces puts the first, then the separator, then the rest joined.
pub proof fn lemma_join_cons(parts: Seq<Seq<char>>, sep: Seq<char>)
    requires
        parts.len() >= 2,
    ensures
        join(parts, sep) == parts[0] + sep + join(parts.drop_first(), sep),
    decreases parts.len(),
{
    if parts.len() > 2 {
        lemma_join_cons(parts.drop_last(), sep);
        assert(parts.drop_last().drop_first() =~= parts.drop_first().drop_last());
        assert(parts.drop_first().last() == parts.last());
        assert(parts.drop_last()[0] == parts[0]);
        let a = parts[0];
        let m = join(parts.drop_first().drop_last(), sep);
        assert(join(parts.drop_first(), sep) == m + sep + parts.last());
        assert(join(parts, sep) == (a + sep + m) + sep + parts.last());
        assert((a + sep + m) + sep + parts.last() =~= a + sep + (m + sep + parts.last()));
    } else {
        assert(parts.drop_first().len() == 1);
        assert(parts.drop_last().len() == 1);
        assert(parts.drop_last()[0] == parts[0]);
        assert(parts.drop_first()[0] == parts[1]);
        assert(join(parts.drop_last(), sep) == parts[0]);
        assert(join(parts.drop_first(), sep) == parts[1]);
    }
}

/// No piece of a split on `seq![c]` holds the character `c`.
pub proof fn lemma_split_pieces_char_free(s: Seq<char>, c: char)
    ensures
        forall|i: int, j: int|
            0 <= i < split_on(s, seq![c]).len() && 0 <= j < split_on(s, seq![c])[i].len()
                ==> split_on(s, seq![c])[i][j] != c,
    decreases s.len(),
{
    let p = seq![c];
    lemma_match_from(s, p, 0);
    let sp = split_on(s, p);
    match match_from(s, p, 0) {
        Some(k) => {
            let rest = s.subrange(k + 1, s.len() as int);
            lemma_split_pieces_char_free(rest, c);
            assert forall|i: int, j: int|
                0 <= i < sp.len() && 0 <= j < sp[i].len() implies sp[i][j] != c by {
                if i == 0 {
                    assert(sp[0] == s.subrange(0, k));
                    if s[j] == c {
                        assert(s.subrange(j, j + 1) =~= p);
                        assert(occurs_at(s, p, j));
                    }
                } else {
                    assert(sp[i] == split_on(rest, p)[i - 1]);
                }
            }
        },
        None => {
            assert forall|i: int, j: int|
                0 <= i < sp.len() && 0 <= j < sp[i].len() implies sp[i][j] != c by {
                assert(sp[i] == s);
                if s[j] == c {
                    assert(s.subrange(j, j + 1) =~= p);
                    assert(occurs_at(s, p, j));
                }
            }
        },
    }
}

} // verus!
