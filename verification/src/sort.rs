//! Stable insertion sorts by a text key and by a number key, with the
//! order they produce stated as a function of the input.

use vstd::prelude::*;
use crate::json::reversed;

verus! {

/// Lexicographic order of character sequences by code point; this is the
/// order of `String`'s `Ord`, since UTF-8 keeps code-point order.
pub open spec fn str_lt(a: Seq<char>, b: Seq<char>) -> bool
    decreases a.len(),
{
    if b.len() == 0 {
        false
    } else if a.len() == 0 {
        true
    } else if a[0] != b[0] {
        a[0] < b[0]
    } else {
        str_lt(a.drop_first(), b.drop_first())
    }
}

/// Whether `a` sorts before `b`.
pub fn text_lt(a: &str, b: &str) -> (r: bool)
    ensures
        r == str_lt(a@, b@),
{
    let x = crate::text::to_chars(a);
    let y = crate::text::to_chars(b);
    let mut k: usize = 0;
    proof {
        assert(a@.skip(0) =~= a@);
        assert(b@.skip(0) =~= b@);
    }
    while k < x.len() && k < y.len() && x[k] == y[k]
        invariant
            x@ == a@,
            y@ == b@,
            k <= x@.len(),
            k <= y@.len(),
            str_lt(a@, b@) == str_lt(a@.skip(k as int), b@.skip(k as int)),
        decreases x@.len() - k,
    {
        proof {
            assert(a@.skip(k as int).drop_first() =~= a@.skip(k + 1));
            assert(b@.skip(k as int).drop_first() =~= b@.skip(k + 1));
        }
        k = k + 1;
    }
    if k == y.len() {
        return false;
    }
    if k == x.len() {
        return true;
    }
    x[k] < y[k]
}

/// Position where a stable insertion puts an item with key `k`: before the
/// first item whose key sorts after `k`.
pub open spec fn insert_pos<T>(s: Seq<(Seq<char>, T)>, k: Seq<char>) -> int
    decreases s.len(),
{
    if s.len() == 0 {
        0
    } else if str_lt(k, s[0].0) {
        0
    } else {
        insert_pos(s.drop_first(), k) + 1
    }
}

/// Stable insertion sort by the text key.
pub open spec fn isort_text<T>(s: Seq<(Seq<char>, T)>) -> Seq<(Seq<char>, T)>
    decreases s.len(),
{
    if s.len() == 0 {
        s
    } else {
        let sorted = isort_text(s.drop_last());
        sorted.insert(insert_pos(sorted, s.last().0), s.last())
    }
}

/// Items with their keys as character sequences.
pub open spec fn keyed_view<T>(v: Seq<(String, T)>) -> Seq<(Seq<char>, T)> {
    Seq::new(v.len(), |i: int| (v[i].0@, v[i].1))
}

proof fn lemma_insert_pos_same_keys<A, B>(s: Seq<(Seq<char>, A)>, t: Seq<(Seq<char>, B)>, k: Seq<char>)
    requires
        s.len() == t.len(),
        forall|i: int| 0 <= i < s.len() ==> (#[trigger] s[i]).0 == t[i].0,
    ensures
        insert_pos(s, k) == insert_pos(t, k),
    decreases s.len(),
{
    if s.len() > 0 {
        assert(s[0].0 == t[0].0);
        lemma_insert_pos_same_keys(s.drop_first(), t.drop_first(), k);
    }
}

/// Sorting commutes with a change of payload that keeps the keys.
pub proof fn lemma_isort_text_map<A, B>(s: Seq<(Seq<char>, A)>, t: Seq<(Seq<char>, B)>, f: spec_fn(A) -> B)
    requires
        s.len() == t.len(),
        forall|i: int| 0 <= i < s.len() ==> (#[trigger] t[i]).0 == s[i].0 && t[i].1 == f(s[i].1),
    ensures
        isort_text(t).len() == isort_text(s).len(),
        forall|i: int|
            0 <= i < isort_text(s).len() ==> (#[trigger] isort_text(t)[i]).0 == isort_text(s)[i].0
                && isort_text(t)[i].1 == f(isort_text(s)[i].1),
    decreases s.len(),
{
    if s.len() > 0 {
        let sd = s.drop_last();
        let td = t.drop_last();
        assert forall|i: int| 0 <= i < sd.len() implies (#[trigger] td[i]).0 == sd[i].0 && td[i].1 == f(
            sd[i].1,
        ) by {
            assert(td[i] == t[i]);
            assert(sd[i] == s[i]);
        }
        lemma_isort_text_map(sd, td, f);
        let ss = isort_text(sd);
        let ts = isort_text(td);
        lemma_isort_text_len(sd);
        lemma_isort_text_len(td);
        lemma_insert_pos_same_keys(ss, ts, s.last().0);
        assert(t.last() == t[s.len() - 1]);
        let p = insert_pos(ss, s.last().0);
        lemma_insert_pos_bound(ss, s.last().0);
        assert forall|i: int| 0 <= i < isort_text(s).len() implies (#[trigger] isort_text(t)[i]).0
            == isort_text(s)[i].0 && isort_text(t)[i].1 == f(isort_text(s)[i].1) by {
            if i < p {
            } else if i == p {
            } else {
                assert(isort_text(t)[i] == ts[i - 1]);
                assert(isort_text(s)[i] == ss[i - 1]);
            }
        }
    }
}

/// Sorting keeps a property that every item has.
pub proof fn lemma_isort_text_preserves<T>(s: Seq<(Seq<char>, T)>, p: spec_fn((Seq<char>, T)) -> bool)
    requires
        forall|i: int| 0 <= i < s.len() ==> p(#[trigger] s[i]),
    ensures
        forall|i: int| 0 <= i < isort_text(s).len() ==> p(#[trigger] isort_text(s)[i]),
    decreases s.len(),
{
    if s.len() > 0 {
        let sd = s.drop_last();
        assert forall|i: int| 0 <= i < sd.len() implies p(#[trigger] sd[i]) by {
            assert(sd[i] == s[i]);
        }
        lemma_isort_text_preserves(sd, p);
        let ss = isort_text(sd);
        lemma_isort_text_len(sd);
        let q = insert_pos(ss, s.last().0);
        lemma_insert_pos_bound(ss, s.last().0);
        assert(p(s[s.len() - 1]));
        assert forall|i: int| 0 <= i < isort_text(s).len() implies p(#[trigger] isort_text(s)[i]) by {
            if i < q {
                assert(isort_text(s)[i] == ss[i]);
            } else if i > q {
                assert(isort_text(s)[i] == ss[i - 1]);
            }
        }
    }
}

proof fn lemma_insert_pos_bound<T>(s: Seq<(Seq<char>, T)>, k: Seq<char>)
    ensures
        0 <= insert_pos(s, k) <= s.len(),
    decreases s.len(),
{
    if s.len() > 0 {
        lemma_insert_pos_bound(s.drop_first(), k);
    }
}

pub proof fn lemma_isort_text_len<T>(s: Seq<(Seq<char>, T)>)
    ensures
        isort_text(s).len() == s.len(),
    decreases s.len(),
{
    if s.len() > 0 {
        lemma_isort_text_len(s.drop_last());
        lemma_insert_pos_bound(isort_text(s.drop_last()), s.last().0);
    }
}

/// Sorts items by their text key, keeping the input order of equal keys.
pub fn sort_by_text_key<T>(items: Vec<(String, T)>) -> (r: Vec<(String, T)>)
    ensures
        keyed_view(r@) == isort_text(keyed_view(items@)),
{
    let ghost src = keyed_view(items@);
    let n = items.len();
    let mut rest = reversed(items);
    let mut out: Vec<(String, T)> = Vec::new();
    let mut k: usize = 0;
    proof {
        assert(src.take(0) =~= Seq::<(Seq<char>, T)>::empty());
        assert(keyed_view(out@) =~= isort_text(src.take(0)));
    }
    while k < n
        invariant
            n == src.len(),
            k <= n,
            rest@.len() == n - k,
            forall|j: int| 0 <= j < n - k ==> (#[trigger] rest@[j]).0@ == src[n - 1 - j].0 && rest@[j].1
                == src[n - 1 - j].1,
            keyed_view(out@) == isort_text(src.take(k as int)),
        decreases n - k,
    {
        let item = rest.pop().unwrap();
        let ghost sorted = keyed_view(out@);
        proof {
            lemma_isort_text_len(src.take(k as int));
            assert(src.take(k + 1).drop_last() =~= src.take(k as int));
            assert(src.take(k + 1).last() == (item.0@, item.1));
        }
        let mut p: usize = 0;
        assert(sorted.skip(0) =~= sorted);
        while p < out.len() && !text_lt(item.0.as_str(), out[p].0.as_str())
            invariant
                sorted == keyed_view(out@),
                p <= out@.len(),
                insert_pos(sorted, item.0@) == p + insert_pos(sorted.skip(p as int), item.0@),
            decreases out@.len() - p,
        {
            proof {
                assert(sorted.skip(p as int)[0] == sorted[p as int]);
                assert(sorted.skip(p as int).drop_first() =~= sorted.skip(p + 1));
            }
            p = p + 1;
        }
        proof {
            if p < out@.len() {
                assert(sorted.skip(p as int)[0] == sorted[p as int]);
            }
            assert(insert_pos(sorted, item.0@) == p);
        }
        out.insert(p, item);
        proof {
            assert(keyed_view(out@) =~= sorted.insert(p as int, (item.0@, item.1)));
        }
        k = k + 1;
    }
    proof {
        assert(src.take(n as int) =~= src);
    }
    out
}

/// Position where a stable insertion by number key puts an item with key
/// `k`.
pub open spec fn insert_pos_num<T>(s: Seq<(u64, T)>, k: u64) -> int
    decreases s.len(),
{
    if s.len() == 0 {
        0
    } else if k < s[0].0 {
        0
    } else {
        insert_pos_num(s.drop_first(), k) + 1
    }
}

/// Stable insertion sort by the number key.
pub open spec fn isort_num<T>(s: Seq<(u64, T)>) -> Seq<(u64, T)>
    decreases s.len(),
{
    if s.len() == 0 {
        s
    } else {
        let sorted = isort_num(s.drop_last());
        sorted.insert(insert_pos_num(sorted, s.last().0), s.last())
    }
}

pub proof fn lemma_insert_pos_num_bound<T>(s: Seq<(u64, T)>, k: u64)
    ensures
        0 <= insert_pos_num(s, k) <= s.len(),
    decreases s.len(),
{
    if s.len() > 0 {
        lemma_insert_pos_num_bound(s.drop_first(), k);
    }
}

pub proof fn lemma_isort_num_len<T>(s: Seq<(u64, T)>)
    ensures
        isort_num(s).len() == s.len(),
    decreases s.len(),
{
    if s.len() > 0 {
        lemma_isort_num_len(s.drop_last());
        lemma_insert_pos_num_bound(isort_num(s.drop_last()), s.last().0);
    }
}

/// Sorts items by their number key, keeping the input order of equal keys.
pub fn sort_by_num_key<T>(items: Vec<(u64, T)>) -> (r: Vec<(u64, T)>)
    ensures
        r@ == isort_num(items@),
{
    let ghost src = items@;
    let n = items.len();
    let mut rest = reversed(items);
    let mut out: Vec<(u64, T)> = Vec::new();
    let mut k: usize = 0;
    proof {
        assert(src.take(0) =~= Seq::<(u64, T)>::empty());
    }
    while k < n
        invariant
            n == src.len(),
            k <= n,
            rest@.len() == n - k,
            forall|j: int| 0 <= j < n - k ==> #[trigger] rest@[j] == src[n - 1 - j],
            out@ == isort_num(src.take(k as int)),
        decreases n - k,
    {
        let item = rest.pop().unwrap();
        let ghost sorted = out@;
        proof {
            lemma_isort_num_len(src.take(k as int));
            assert(src.take(k + 1).drop_last() =~= src.take(k as int));
            assert(src.take(k + 1).last() == item);
        }
        let mut p: usize = 0;
        assert(sorted.skip(0) =~= sorted);
        while p < out.len() && !(item.0 < out[p].0)
            invariant
                sorted == out@,
                p <= out@.len(),
                insert_pos_num(sorted, item.0) == p + insert_pos_num(sorted.skip(p as int), item.0),
            decreases out@.len() - p,
        {
            proof {
                assert(sorted.skip(p as int)[0] == sorted[p as int]);
                assert(sorted.skip(p as int).drop_first() =~= sorted.skip(p + 1));
            }
            p = p + 1;
        }
        proof {
            if p < out@.len() {
                assert(sorted.skip(p as int)[0] == sorted[p as int]);
            }
            assert(insert_pos_num(sorted, item.0) == p);
        }
        out.insert(p, item);
        k = k + 1;
    }
    proof {
        assert(src.take(n as int) =~= src);
    }
    out
}

proof fn lemma_str_lt_irreflexive(a: Seq<char>)
    ensures
        !str_lt(a, a),
    decreases a.len(),
{
    if a.len() > 0 {
        lemma_str_lt_irreflexive(a.drop_first());
    }
}

proof fn lemma_str_lt_total(a: Seq<char>, b: Seq<char>)
    ensures
        a == b || str_lt(a, b) || str_lt(b, a),
    decreases a.len(),
{
    if a.len() == 0 && b.len() == 0 {
        assert(a =~= b);
    } else if a.len() > 0 && b.len() > 0 && a[0] == b[0] {
        lemma_str_lt_total(a.drop_first(), b.drop_first());
        if a.drop_first() == b.drop_first() {
            assert(a.drop_first().len() == b.drop_first().len());
            assert(a.len() == b.len());
            assert forall|i: int| 0 <= i < a.len() implies a[i] == b[i] by {
                if i > 0 {
                    assert(a[i] == a.drop_first()[i - 1]);
                    assert(b[i] == b.drop_first()[i - 1]);
                }
            }
            assert(a =~= b);
        }
    }
}

proof fn lemma_str_lt_transitive(a: Seq<char>, b: Seq<char>, c: Seq<char>)
    requires
        str_lt(a, b),
        str_lt(b, c),
    ensures
        str_lt(a, c),
    decreases a.len(),
{
    if a.len() > 0 && a[0] == b[0] && b[0] == c[0] {
        lemma_str_lt_transitive(a.drop_first(), b.drop_first(), c.drop_first());
    }
}

/// Items in non-decreasing order of their text keys.
pub open spec fn sorted_by_text<T>(s: Seq<(Seq<char>, T)>) -> bool {
    forall|i: int, j: int| 0 <= i < j < s.len() ==> !str_lt(#[trigger] s[j].0, #[trigger] s[i].0)
}

proof fn lemma_insert_pos_text<T>(s: Seq<(Seq<char>, T)>, k: Seq<char>)
    ensures
        forall|i: int| 0 <= i < insert_pos(s, k) ==> !str_lt(k, #[trigger] s[i].0),
        insert_pos(s, k) < s.len() ==> str_lt(k, s[insert_pos(s, k)].0),
    decreases s.len(),
{
    if s.len() > 0 && !str_lt(k, s[0].0) {
        let t = s.drop_first();
        lemma_insert_pos_text(t, k);
        lemma_insert_pos_bound(t, k);
        assert forall|i: int| 0 <= i < insert_pos(s, k) implies !str_lt(k, #[trigger] s[i].0) by {
            if i > 0 {
                assert(s[i] == t[i - 1]);
            }
        }
        if insert_pos(s, k) < s.len() {
            assert(s[insert_pos(s, k)] == t[insert_pos(t, k)]);
        }
    }
}

/// The stable sort by text key orders the items by key and keeps every
/// item: its output is sorted and a permutation of its input.
pub proof fn lemma_isort_text_sorted<T>(s: Seq<(Seq<char>, T)>)
    ensures
        sorted_by_text(isort_text(s)),
        isort_text(s).to_multiset() == s.to_multiset(),
    decreases s.len(),
{
    broadcast use vstd::seq_lib::to_multiset_insert, vstd::seq_lib::to_multiset_build;

    if s.len() == 0 {
        return;
    }
    let sd = s.drop_last();
    lemma_isort_text_sorted(sd);
    let ss = isort_text(sd);
    let x = s.last();
    let p = insert_pos(ss, x.0);
    lemma_insert_pos_bound(ss, x.0);
    lemma_insert_pos_text(ss, x.0);
    let r = ss.insert(p, x);
    assert(r == isort_text(s));
    assert forall|i: int, j: int| 0 <= i < j < r.len() implies !str_lt(#[trigger] r[j].0, #[trigger] r[i].0) by {
        if j < p {
            assert(r[i] == ss[i] && r[j] == ss[j]);
        } else if i > p {
            assert(r[i] == ss[i - 1] && r[j] == ss[j - 1]);
        } else if j == p {
            assert(r[i] == ss[i]);
        } else if i == p {
            assert(r[j] == ss[j - 1]);
            if str_lt(ss[j - 1].0, x.0) {
                if j - 1 == p {
                    lemma_str_lt_transitive(ss[p].0, x.0, ss[p].0);
                    lemma_str_lt_irreflexive(ss[p].0);
                } else {
                    lemma_str_lt_transitive(ss[j - 1].0, x.0, ss[p].0);
                    assert(!str_lt(ss[j - 1].0, ss[p].0));
                }
            }
        } else {
            assert(r[i] == ss[i] && r[j] == ss[j - 1]);
        }
    }
    assert(s =~= sd.push(x));
}

/// Items in non-decreasing order of their number keys.
pub open spec fn sorted_by_num<T>(s: Seq<(u64, T)>) -> bool {
    forall|i: int, j: int| 0 <= i < j < s.len() ==> #[trigger] s[i].0 <= #[trigger] s[j].0
}

proof fn lemma_insert_pos_num<T>(s: Seq<(u64, T)>, k: u64)
    ensures
        forall|i: int| 0 <= i < insert_pos_num(s, k) ==> (#[trigger] s[i]).0 <= k,
        insert_pos_num(s, k) < s.len() ==> k < s[insert_pos_num(s, k)].0,
    decreases s.len(),
{
    if s.len() > 0 && !(k < s[0].0) {
        let t = s.drop_first();
        lemma_insert_pos_num(t, k);
        lemma_insert_pos_num_bound(t, k);
        assert forall|i: int| 0 <= i < insert_pos_num(s, k) implies (#[trigger] s[i]).0 <= k by {
            if i > 0 {
                assert(s[i] == t[i - 1]);
            }
        }
        if insert_pos_num(s, k) < s.len() {
            assert(s[insert_pos_num(s, k)] == t[insert_pos_num(t, k)]);
        }
    }
}

/// The stable sort by number key orders the items by key and keeps every
/// item: its output is sorted and a permutation of its input.
pub proof fn lemma_isort_num_sorted<T>(s: Seq<(u64, T)>)
    ensures
        sorted_by_num(isort_num(s)),
        isort_num(s).to_multiset() == s.to_multiset(),
    decreases s.len(),
{
    broadcast use vstd::seq_lib::to_multiset_insert, vstd::seq_lib::to_multiset_build;

    if s.len() == 0 {
        return;
    }
    let sd = s.drop_last();
    lemma_isort_num_sorted(sd);
    let ss = isort_num(sd);
    let x = s.last();
    let p = insert_pos_num(ss, x.0);
    lemma_insert_pos_num_bound(ss, x.0);
    lemma_insert_pos_num(ss, x.0);
    let r = ss.insert(p, x);
    assert(r == isort_num(s));
    assert forall|i: int, j: int| 0 <= i < j < r.len() implies #[trigger] r[i].0 <= #[trigger] r[j].0 by {
        if j < p {
            assert(r[i] == ss[i] && r[j] == ss[j]);
        } else if i > p {
            assert(r[i] == ss[i - 1] && r[j] == ss[j - 1]);
        } else if j == p {
            assert(r[i] == ss[i]);
        } else if i == p {
            assert(r[j] == ss[j - 1]);
            if j - 1 > p {
                assert(ss[p].0 <= ss[j - 1].0);
            }
        } else {
            assert(r[i] == ss[i] && r[j] == ss[j - 1]);
        }
    }
    assert(s =~= sd.push(x));
}

/// The items with key `k`, in order.
pub open spec fn key_run<T>(s: Seq<(Seq<char>, T)>, k: Seq<char>) -> Seq<(Seq<char>, T)>
    decreases s.len(),
{
    if s.len() == 0 {
        s
    } else if s.last().0 == k {
        key_run(s.drop_last(), k).push(s.last())
    } else {
        key_run(s.drop_last(), k)
    }
}

proof fn lemma_key_run_concat<T>(a: Seq<(Seq<char>, T)>, b: Seq<(Seq<char>, T)>, k: Seq<char>)
    ensures
        key_run(a + b, k) == key_run(a, k) + key_run(b, k),
    decreases b.len(),
{
    if b.len() == 0 {
        assert(a + b =~= a);
        assert(key_run(a, k) + key_run(b, k) =~= key_run(a, k));
    } else {
        lemma_key_run_concat(a, b.drop_last(), k);
        assert((a + b).drop_last() =~= a + b.drop_last());
        assert((a + b).last() == b.last());
        assert(key_run(a + b, k) =~= key_run(a, k) + key_run(b, k));
    }
}

proof fn lemma_key_run_none<T>(s: Seq<(Seq<char>, T)>, k: Seq<char>)
    requires
        forall|j: int| 0 <= j < s.len() ==> (#[trigger] s[j]).0 != k,
    ensures
        key_run(s, k) == Seq::<(Seq<char>, T)>::empty(),
    decreases s.len(),
{
    if s.len() > 0 {
        let d = s.drop_last();
        assert forall|j: int| 0 <= j < d.len() implies (#[trigger] d[j]).0 != k by {
            assert(d[j] == s[j]);
        }
        lemma_key_run_none(d, k);
        assert(s.last() == s[s.len() - 1]);
    }
}

/// The sort by text key is stable: the items of any one key come out in
/// the order they came in.
pub proof fn lemma_isort_text_stable<T>(s: Seq<(Seq<char>, T)>, k: Seq<char>)
    ensures
        key_run(isort_text(s), k) == key_run(s, k),
    decreases s.len(),
{
    if s.len() > 0 {
        let sd = s.drop_last();
        let x = s.last();
        lemma_isort_text_stable(sd, k);
        lemma_isort_text_sorted(sd);
        lemma_isort_text_len(sd);
        let ss = isort_text(sd);
        let p = insert_pos(ss, x.0);
        lemma_insert_pos_bound(ss, x.0);
        lemma_insert_pos_text(ss, x.0);
        let a = ss.take(p);
        let c = ss.skip(p);
        assert(ss =~= a + c);
        assert(ss.insert(p, x) =~= a + seq![x] + c);
        lemma_key_run_concat(a, c, k);
        lemma_key_run_concat(a + seq![x], c, k);
        lemma_key_run_concat(a, seq![x], k);
        assert(isort_text(s) == ss.insert(p, x));
        let one = seq![x];
        assert(one.drop_last() =~= Seq::<(Seq<char>, T)>::empty());
        assert(one.last() == x);
        assert(key_run(Seq::<(Seq<char>, T)>::empty(), k) =~= Seq::<(Seq<char>, T)>::empty());
        let kx = key_run(one, k);
        assert(kx =~= if x.0 == k { one } else { Seq::<(Seq<char>, T)>::empty() });
        assert(s =~= sd.push(x));
        assert(key_run(a + one + c, k) == key_run(a, k) + kx + key_run(c, k));
        assert(key_run(ss, k) == key_run(a, k) + key_run(c, k));
        if x.0 == k {
            assert forall|j: int| 0 <= j < c.len() implies (#[trigger] c[j]).0 != k by {
                assert(c[j] == ss[p + j]);
                if ss[p + j].0 == x.0 {
                    lemma_str_lt_irreflexive(x.0);
                    if j > 0 {
                        assert(!str_lt(ss[p + j].0, ss[p].0));
                    }
                }
            }
            lemma_key_run_none(c, k);
            assert(key_run(a + one + c, k) =~= key_run(ss, k).push(x));
        } else {
            assert(key_run(a + one + c, k) =~= key_run(ss, k));
        }
    }
}

} // verus!
