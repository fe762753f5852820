//! Frequency tables: the distinct symbols of a sequence with their counts, and the
//! stable sort by count that fixes the order in which the code tree is built.

use vstd::prelude::*;

use crate::symbol::BinaryCodable;

verus! {

/// The symbols of a frequency table.
pub open spec fn keys<U>(f: Seq<(U, usize)>) -> Seq<U> {
    f.map_values(|p: (U, usize)| p.0)
}

/// The sum of the counts of a frequency table.
pub open spec fn total<U>(f: Seq<(U, usize)>) -> nat
    decreases f.len(),
{
    if f.len() == 0 {
        0
    } else {
        total(f.drop_last()) + f.last().1 as nat
    }
}

/// The number of occurrences of `v` in `s`.
pub open spec fn occurrences<U>(s: Seq<U>, v: U) -> nat
    decreases s.len(),
{
    if s.len() == 0 {
        0
    } else {
        occurrences(s.drop_last(), v) + if s.last() == v {
            1nat
        } else {
            0nat
        }
    }
}

/// A value that `s` does not contain occurs in it zero times.
proof fn lemma_occurrences_absent<U>(s: Seq<U>, v: U)
    requires
        !s.contains(v),
    ensures
        occurrences(s, v) == 0,
    decreases s.len(),
{
    if s.len() > 0 {
        let s0 = s.drop_last();
        if s0.contains(v) {
            let k = choose|k: int| 0 <= k < s0.len() && s0[k] == v;
            assert(s[k] == v);
        }
        assert(s[s.len() - 1] != v);
        lemma_occurrences_absent(s0, v);
    }
}

/// The distinct symbols of `s` in the order of their first occurrence, each with the
/// number of its occurrences.
pub open spec fn frequencies<U>(s: Seq<U>) -> Seq<(U, usize)>
    decreases s.len(),
{
    if s.len() == 0 {
        Seq::empty()
    } else {
        let f = frequencies(s.drop_last());
        let x = s.last();
        if exists|i: int| 0 <= i < f.len() && (#[trigger] f[i]).0 == x {
            let i = choose|i: int| 0 <= i < f.len() && (#[trigger] f[i]).0 == x;
            f.update(i, (x, (f[i].1 + 1) as usize))
        } else {
            f.push((x, 1usize))
        }
    }
}

/// `s` with `x` put after the last entry whose count is not above `x`'s.
pub open spec fn insert_by_count<U>(s: Seq<(U, usize)>, x: (U, usize)) -> Seq<(U, usize)>
    decreases s.len(),
{
    if s.len() == 0 {
        seq![x]
    } else if s.last().1 > x.1 {
        insert_by_count(s.drop_last(), x).push(s.last())
    } else {
        s.push(x)
    }
}

/// `s` sorted by ascending count; entries with equal counts keep their order.
pub open spec fn sorted_by_count<U>(s: Seq<(U, usize)>) -> Seq<(U, usize)>
    decreases s.len(),
{
    if s.len() == 0 {
        s
    } else {
        insert_by_count(sorted_by_count(s.drop_last()), s.last())
    }
}

/// Each count is ascending along `s`.
pub open spec fn counts_ascending<U>(s: Seq<(U, usize)>) -> bool {
    forall|i: int, j: int| 0 <= i < j < s.len() ==> (#[trigger] s[i]).1 <= (#[trigger] s[j]).1
}

/// What a pushed sequence contains.
proof fn lemma_push_contains<A>(s: Seq<A>, y: A)
    ensures
        forall|v: A| #[trigger] s.push(y).contains(v) <==> s.contains(v) || v == y,
{
    assert forall|v: A| #[trigger] s.push(y).contains(v) <==> s.contains(v) || v == y by {
        if s.contains(v) {
            let k = choose|k: int| 0 <= k < s.len() && s[k] == v;
            assert(s.push(y)[k] == v);
        }
        if v == y {
            assert(s.push(y)[s.len() as int] == v);
        }
        if s.push(y).contains(v) {
            let k = choose|k: int| 0 <= k < s.len() + 1 && s.push(y)[k] == v;
            if k < s.len() {
                assert(s[k] == v);
            }
        }
    }
}

/// The keys of a pushed table.
pub proof fn lemma_keys_push<U>(s: Seq<(U, usize)>, x: (U, usize))
    ensures
        keys(s.push(x)) == keys(s).push(x.0),
        forall|v: U| #[trigger] keys(s.push(x)).contains(v) <==> keys(s).contains(v) || v == x.0,
{
    assert(keys(s.push(x)) =~= keys(s).push(x.0));
    lemma_push_contains(keys(s), x.0);
}

/// Pushing a new value keeps a sequence free of duplicates.
proof fn lemma_push_no_duplicates<A>(s: Seq<A>, y: A)
    requires
        s.no_duplicates(),
        !s.contains(y),
    ensures
        s.push(y).no_duplicates(),
{
    let t = s.push(y);
    assert forall|a: int, b: int| 0 <= a < t.len() && 0 <= b < t.len() && a != b implies t[a]
        != t[b] by {
        if a == s.len() {
            assert(s[b] == t[b]);
        } else if b == s.len() {
            assert(s[a] == t[a]);
        } else {
            assert(s[a] == t[a] && s[b] == t[b]);
        }
    }
}

/// In a sequence free of duplicates, the last value is not among the others.
pub proof fn lemma_drop_last_no_duplicates<A>(s: Seq<A>)
    requires
        s.len() > 0,
        s.no_duplicates(),
    ensures
        s.drop_last().no_duplicates(),
        !s.drop_last().contains(s.last()),
{
    let t = s.drop_last();
    assert forall|a: int, b: int| 0 <= a < t.len() && 0 <= b < t.len() && a != b implies t[a]
        != t[b] by {
        assert(s[a] == t[a] && s[b] == t[b]);
    }
    if t.contains(s.last()) {
        let k = choose|k: int| 0 <= k < t.len() && t[k] == s.last();
        assert(s[k] == s[s.len() - 1]);
    }
}

/// Replacing an entry changes the total by the difference of the counts.
proof fn lemma_total_update<U>(f: Seq<(U, usize)>, i: int, x: (U, usize))
    requires
        0 <= i < f.len(),
    ensures
        total(f.update(i, x)) + f[i].1 == total(f) + x.1,
        f[i].1 <= total(f),
    decreases f.len(),
{
    let g = f.update(i, x);
    if i < f.len() - 1 {
        assert(g.drop_last() =~= f.drop_last().update(i, x));
        lemma_total_update(f.drop_last(), i, x);
    } else {
        assert(g.drop_last() =~= f.drop_last());
    }
}

/// What the frequency table of `s` holds: distinct symbols, exactly those of `s`, with
/// counts that add up to the length of `s`.
pub proof fn lemma_frequencies<U>(s: Seq<U>)
    requires
        s.len() <= usize::MAX,
    ensures
        keys(frequencies(s)).no_duplicates(),
        forall|v: U| keys(frequencies(s)).contains(v) <==> s.contains(v),
        total(frequencies(s)) == s.len(),
        frequencies(s).len() <= s.len(),
        forall|i: int|
            0 <= i < frequencies(s).len() ==> (#[trigger] frequencies(s)[i]).1 == occurrences(
                s,
                frequencies(s)[i].0,
            ),
    decreases s.len(),
{
    if s.len() > 0 {
        let s0 = s.drop_last();
        let f = frequencies(s0);
        let x = s.last();
        lemma_frequencies(s0);
        assert(s =~= s0.push(x));
        lemma_push_contains(s0, x);
        if exists|i: int| 0 <= i < f.len() && (#[trigger] f[i]).0 == x {
            let i = choose|i: int| 0 <= i < f.len() && (#[trigger] f[i]).0 == x;
            lemma_total_update(f, i, (x, (f[i].1 + 1) as usize));
            let g = f.update(i, (x, (f[i].1 + 1) as usize));
            assert(keys(g) =~= keys(f));
            assert(keys(f)[i] == x);
            assert forall|k: int| 0 <= k < g.len() implies (#[trigger] g[k]).1 == occurrences(
                s,
                g[k].0,
            ) by {
                if k != i {
                    assert(keys(f)[k] != keys(f)[i]);
                    assert(f[k].1 == occurrences(s0, f[k].0));
                }
            }
        } else {
            let g = f.push((x, 1usize));
            assert(g.drop_last() =~= f);
            lemma_keys_push(f, (x, 1usize));
            assert(!keys(f).contains(x)) by {
                if keys(f).contains(x) {
                    let k = choose|k: int| 0 <= k < keys(f).len() && keys(f)[k] == x;
                    assert(f[k].0 == x);
                }
            }
            lemma_push_no_duplicates(keys(f), x);
            lemma_occurrences_absent(s0, x);
            assert forall|k: int| 0 <= k < g.len() implies (#[trigger] g[k]).1 == occurrences(
                s,
                g[k].0,
            ) by {
                if k < f.len() {
                    assert(f[k].1 == occurrences(s0, f[k].0));
                    assert(f[k].0 != x);
                }
            }
        }
    }
}

/// Stable insertion keeps the entries and adds `x`.
proof fn lemma_insert_by_count<U>(s: Seq<(U, usize)>, x: (U, usize))
    ensures
        total(insert_by_count(s, x)) == total(s) + x.1,
        forall|v: U| keys(insert_by_count(s, x)).contains(v) <==> keys(s).contains(v) || v == x.0,
        keys(s).no_duplicates() && !keys(s).contains(x.0) ==> keys(
            insert_by_count(s, x),
        ).no_duplicates(),
        insert_by_count(s, x).len() == s.len() + 1,
        counts_ascending(s) ==> counts_ascending(insert_by_count(s, x)),
        forall|e: (U, usize)| #[trigger] insert_by_count(s, x).contains(e) <==> s.contains(e) || e
            == x,
    decreases s.len(),
{
    let r = insert_by_count(s, x);
    if s.len() == 0 {
        assert(r.drop_last() =~= Seq::<(U, usize)>::empty());
        lemma_keys_push(s, x);
        assert(r =~= s.push(x));
        lemma_push_contains(s, x);
        assert(keys(r) =~= seq![x.0]);
        assert(total(r.drop_last()) == 0);
        assert(total(r) == total(s) + x.1);
    } else if s.last().1 > x.1 {
        let s0 = s.drop_last();
        let r0 = insert_by_count(s0, x);
        let y = s.last();
        lemma_insert_by_count(s0, x);
        assert(r.drop_last() =~= r0);
        assert(s =~= s0.push(y));
        assert(r =~= r0.push(y));
        lemma_push_contains(s0, y);
        lemma_push_contains(r0, y);
        assert(total(r) == total(r0) + y.1);
        assert(total(r) == total(s) + x.1);
        lemma_keys_push(s0, y);
        lemma_keys_push(r0, y);
        if keys(s).no_duplicates() && !keys(s).contains(x.0) {
            lemma_drop_last_no_duplicates(keys(s));
            assert(keys(s).drop_last() =~= keys(s0));
            assert(keys(s).last() == y.0);
            assert(!keys(r0).contains(y.0)) by {
                if y.0 == x.0 {
                    assert(keys(s).contains(x.0));
                }
            }
            lemma_push_no_duplicates(keys(r0), y.0);
        }
        if counts_ascending(s) {
            assert(counts_ascending(s0));
            assert forall|i: int, j: int| 0 <= i < j < r.len() implies (#[trigger] r[i]).1 <= (
            #[trigger] r[j]).1 by {
                if j == r.len() - 1 {
                    lemma_entry_bound(s0, x, s.last().1, i);
                } else {
                    assert(r[i] == r0[i] && r[j] == r0[j]);
                }
            }
        }
    } else {
        assert(r =~= s.push(x));
        assert(r.drop_last() =~= s);
        lemma_push_contains(s, x);
        assert(total(r) == total(s) + x.1);
        lemma_keys_push(s, x);
        if keys(s).no_duplicates() && !keys(s).contains(x.0) {
            lemma_push_no_duplicates(keys(s), x.0);
        }
        if counts_ascending(s) {
            assert forall|i: int, j: int| 0 <= i < j < r.len() implies (#[trigger] r[i]).1 <= (
            #[trigger] r[j]).1 by {
                if j == r.len() - 1 {
                    assert(s[i].1 <= s[s.len() - 1].1 || i == s.len() - 1);
                } else {
                    assert(r[i] == s[i] && r[j] == s[j]);
                }
            }
        }
    }
}

/// Every count in `insert_by_count(s, x)` is at most `c`, where `c` bounds those of
/// `s` and `x`.
proof fn lemma_entry_bound<U>(s: Seq<(U, usize)>, x: (U, usize), c: usize, i: int)
    requires
        counts_ascending(s),
        s.len() > 0 ==> s.last().1 <= c,
        x.1 <= c,
        0 <= i < s.len() + 1,
    ensures
        insert_by_count(s, x)[i].1 <= c,
    decreases s.len(),
{
    lemma_insert_by_count_len(s, x);
    if s.len() > 0 {
        if s.last().1 > x.1 {
            if i < s.len() {
                let s0 = s.drop_last();
                assert(counts_ascending(s0));
                if s0.len() > 0 {
                    assert(s[s0.len() - 1].1 <= s[s.len() - 1].1);
                }
                lemma_entry_bound(s0, x, c, i);
                assert(insert_by_count(s, x)[i] == insert_by_count(s0, x)[i]);
            }
        } else {
            if i < s.len() {
                assert(s[i].1 <= s[s.len() - 1].1);
            }
        }
    }
}

/// Insertion adds one entry.
proof fn lemma_insert_by_count_len<U>(s: Seq<(U, usize)>, x: (U, usize))
    ensures
        insert_by_count(s, x).len() == s.len() + 1,
    decreases s.len(),
{
    if s.len() > 0 && s.last().1 > x.1 {
        lemma_insert_by_count_len(s.drop_last(), x);
    }
}

/// Sorting keeps the entries, and the result is ordered by count.
pub proof fn lemma_sorted_by_count<U>(s: Seq<(U, usize)>)
    ensures
        total(sorted_by_count(s)) == total(s),
        forall|v: U| keys(sorted_by_count(s)).contains(v) <==> keys(s).contains(v),
        keys(s).no_duplicates() ==> keys(sorted_by_count(s)).no_duplicates(),
        sorted_by_count(s).len() == s.len(),
        counts_ascending(sorted_by_count(s)),
        forall|e: (U, usize)| #[trigger] sorted_by_count(s).contains(e) <==> s.contains(e),
    decreases s.len(),
{
    if s.len() > 0 {
        let s0 = s.drop_last();
        let y = s.last();
        lemma_sorted_by_count(s0);
        lemma_insert_by_count(sorted_by_count(s0), y);
        assert(s =~= s0.push(y));
        lemma_keys_push(s0, y);
        lemma_push_contains(s0, y);
        if keys(s).no_duplicates() {
            assert(keys(s).drop_last() =~= keys(s0));
            lemma_drop_last_no_duplicates(keys(s));
        }
    }
}

/// The index of the entry for `x`, if there is one.
fn find_key<U: BinaryCodable>(f: &Vec<(U, usize)>, x: &U) -> (r: Option<usize>)
    ensures
        match r {
            Some(j) => j < f@.len() && f@[j as int].0 == *x,
            None => forall|i: int| 0 <= i < f@.len() ==> (#[trigger] f@[i]).0 != *x,
        },
{
    let mut j: usize = 0;
    while j < f.len()
        invariant
            j <= f@.len(),
            forall|i: int| 0 <= i < j ==> (#[trigger] f@[i]).0 != *x,
        decreases f@.len() - j,
    {
        if f[j].0.same(x) {
            return Some(j);
        }
        j += 1;
    }
    None
}

/// The frequency table of `data`, as `frequencies` describes.
pub fn value_frequencies<U: BinaryCodable>(data: &[U]) -> (r: Vec<(U, usize)>)
    ensures
        r@ == frequencies(data@),
{
    let mut f: Vec<(U, usize)> = Vec::new();
    let mut i: usize = 0;
    while i < data.len()
        invariant
            i <= data@.len(),
            f@ == frequencies(data@.take(i as int)),
        decreases data@.len() - i,
    {
        let ghost s = data@.take(i as int + 1);
        proof {
            assert(s.drop_last() =~= data@.take(i as int));
            lemma_frequencies(data@.take(i as int));
        }
        let x = &data[i];
        match find_key(&f, x) {
            Some(j) => {
                proof {
                    let k = choose|k: int| 0 <= k < f@.len() && (#[trigger] f@[k]).0 == *x;
                    if k != j {
                        assert(keys(f@)[k] == keys(f@)[j as int]);
                    }
                    lemma_total_update(f@, j as int, (*x, 0));
                }
                let c = f[j].1;
                f.set(j, (x.duplicate(), c + 1));
            },
            None => {
                f.push((x.duplicate(), 1));
            },
        }
        i += 1;
    }
    assert(data@.take(i as int) =~= data@);
    f
}

/// Sorts the table by ascending count, keeping the order of entries with equal counts,
/// as `sorted_by_count` describes.
pub fn sort_frequencies<U>(frequencies: &mut Vec<(U, usize)>)
    ensures
        final(frequencies)@ == sorted_by_count(old(frequencies)@),
{
    let ghost orig = frequencies@;
    let n = frequencies.len();
    let mut sorted: Vec<(U, usize)> = Vec::new();
    let mut i: usize = 0;
    while frequencies.len() > 0
        invariant
            n == orig.len(),
            i <= orig.len(),
            frequencies@ == orig.skip(i as int),
            sorted@ == sorted_by_count(orig.take(i as int)),
        decreases frequencies@.len(),
    {
        let x = frequencies.remove(0);
        proof {
            assert(orig.take(i as int + 1).drop_last() =~= orig.take(i as int));
            assert(orig.take(i as int + 1).last() == x);
            lemma_sorted_by_count(orig.take(i as int));
        }
        let mut k: usize = sorted.len();
        while k > 0 && sorted[k - 1].1 > x.1
            invariant
                k <= sorted@.len(),
                forall|m: int| k <= m < sorted@.len() ==> (#[trigger] sorted@[m]).1 > x.1,
            decreases k,
        {
            k -= 1;
        }
        proof {
            lemma_insert_at(sorted@, x, k as int);
        }
        sorted.insert(k, x);
        i += 1;
        proof {
            assert(frequencies@ =~= orig.skip(i as int));
        }
    }
    assert(orig.take(i as int) =~= orig);
    *frequencies = sorted;
}

/// Where `insert_by_count` puts `x`: after the entries up to `k`, when exactly the
/// entries from `k` on have a count above `x`'s.
proof fn lemma_insert_at<U>(s: Seq<(U, usize)>, x: (U, usize), k: int)
    requires
        0 <= k <= s.len(),
        forall|m: int| k <= m < s.len() ==> (#[trigger] s[m]).1 > x.1,
        k > 0 ==> s[k - 1].1 <= x.1,
    ensures
        insert_by_count(s, x) == s.insert(k, x),
    decreases s.len(),
{
    if s.len() == k {
        assert(s.insert(k, x) =~= s.push(x));
    } else {
        let s0 = s.drop_last();
        lemma_insert_at(s0, x, k);
        assert(s.insert(k, x) =~= s0.insert(k, x).push(s.last()));
    }
}

/// Totals of the prefixes of a table.
pub proof fn lemma_total_prefix<U>(s: Seq<(U, usize)>, i: int)
    requires
        0 <= i <= s.len(),
    ensures
        total(s.take(i)) <= total(s),
        i < s.len() ==> total(s.take(i + 1)) == total(s.take(i)) + s[i].1,
    decreases s.len(),
{
    if i < s.len() {
        assert(s.take(i + 1).drop_last() =~= s.take(i));
        lemma_total_prefix(s.drop_last(), i);
        assert(s.drop_last().take(i) =~= s.take(i));
    } else {
        assert(s.take(i) =~= s);
    }
}

/// Keys of the prefixes of a table.
pub proof fn lemma_keys_prefix<U>(s: Seq<(U, usize)>, i: int)
    requires
        0 <= i < s.len(),
    ensures
        forall|v: U| #[trigger] keys(s.take(i + 1)).contains(v) <==> keys(s.take(i)).contains(v)
            || v == s[i].0,
        keys(s).no_duplicates() ==> !keys(s.take(i)).contains(s[i].0),
{
    assert(s.take(i + 1) =~= s.take(i).push(s[i]));
    lemma_keys_push(s.take(i), s[i]);
    if keys(s).no_duplicates() && keys(s.take(i)).contains(s[i].0) {
        let k = choose|k: int| 0 <= k < keys(s.take(i)).len() && keys(s.take(i))[k] == s[i].0;
        assert(keys(s)[k] == keys(s)[i]);
    }
}

} // verus!
