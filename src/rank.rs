//! Ordering completion candidates by how often the documents use them.

use vstd::prelude::*;
use vstd::hash_map::StringHashMap;
use vstd::string::*;

use crate::schema::Entry;
use crate::text::utf8;

use vstd::seq_lib::{group_to_multiset_ensures, lemma_multiset_commutative};

verus! {

/// How often `name` has been seen, per the frequency table.
pub open spec fn freq_of(table: Map<Seq<char>, usize>, name: Seq<char>) -> nat {
    if table.contains_key(name) {
        table[name] as nat
    } else {
        0
    }
}

/// Byte-wise lexicographic order, as `str` compares.
pub open spec fn lex_less(a: Seq<u8>, b: Seq<u8>) -> bool
    decreases a.len(),
{
    if a.len() == 0 {
        b.len() > 0
    } else if b.len() == 0 {
        false
    } else if a[0] != b[0] {
        a[0] < b[0]
    } else {
        lex_less(a.drop_first(), b.drop_first())
    }
}

/// Whether name `a` ranks strictly before name `b`: more frequent first,
/// then longer first, then lexicographically smaller first.
pub open spec fn ranks_before(table: Map<Seq<char>, usize>, a: Seq<char>, b: Seq<char>) -> bool {
    let fa = freq_of(table, a);
    let fb = freq_of(table, b);
    fa > fb || (fa == fb && (utf8(a).len() > utf8(b).len() || (utf8(a).len() == utf8(b).len()
        && lex_less(utf8(a), utf8(b)))))
}

/// `t` with `x` inserted before the first entry it ranks before.
pub open spec fn insert_ranked(table: Map<Seq<char>, usize>, t: Seq<Entry>, x: Entry) -> Seq<Entry>
    decreases t.len(),
{
    if t.len() == 0 {
        seq![x]
    } else if ranks_before(table, x.0, t[0].0) {
        seq![x] + t
    } else {
        seq![t[0]] + insert_ranked(table, t.drop_first(), x)
    }
}

/// The entries of `s` in rank order; entries that rank alike keep their order.
pub open spec fn rank(table: Map<Seq<char>, usize>, s: Seq<Entry>) -> Seq<Entry>
    decreases s.len(),
{
    if s.len() == 0 {
        seq![]
    } else {
        insert_ranked(table, rank(table, s.drop_last()), s.last())
    }
}

/// The views of a list of name-detail pairs.
pub open spec fn pair_views(v: Seq<(String, String)>) -> Seq<Entry> {
    v.map_values(|p: (String, String)| (p.0@, p.1@))
}

fn lex_less_bytes(a: &[u8], b: &[u8]) -> (r: bool)
    ensures
        r == lex_less(a@, b@),
{
    let mut i: usize = 0;
    assert(a@.skip(0) =~= a@);
    assert(b@.skip(0) =~= b@);
    while i < a.len() && i < b.len()
        invariant
            i <= a@.len(),
            i <= b@.len(),
            lex_less(a@, b@) == lex_less(a@.skip(i as int), b@.skip(i as int)),
        decreases a@.len() - i,
    {
        assert(a@.skip(i as int).drop_first() =~= a@.skip(i + 1));
        assert(b@.skip(i as int).drop_first() =~= b@.skip(i + 1));
        if a[i] != b[i] {
            return a[i] < b[i];
        }
        i = i + 1;
    }
    i == a.len() && i < b.len()
}

fn freq_in(table: &StringHashMap<usize>, name: &str) -> (r: usize)
    ensures
        r as nat == freq_of(table@, name@),
{
    match table.get(name) {
        Some(f) => *f,
        None => 0,
    }
}

/// Whether name `a` ranks strictly before name `b` (see [`ranks_before`]).
fn before(table: &StringHashMap<usize>, a: &str, b: &str) -> (r: bool)
    ensures
        r == ranks_before(table@, a@, b@),
{
    let fa = freq_in(table, a);
    let fb = freq_in(table, b);
    let la = a.as_bytes().len();
    let lb = b.as_bytes().len();
    fa > fb || (fa == fb && (la > lb || (la == lb && lex_less_bytes(a.as_bytes(), b.as_bytes()))))
}

proof fn lemma_insert_at(table: Map<Seq<char>, usize>, t: Seq<Entry>, x: Entry, p: int)
    requires
        0 <= p <= t.len(),
        forall|q: int| 0 <= q < p ==> !ranks_before(table, x.0, (#[trigger] t[q]).0),
        p < t.len() ==> ranks_before(table, x.0, t[p].0),
    ensures
        insert_ranked(table, t, x) == t.take(p) + seq![x] + t.skip(p),
    decreases t.len(),
{
    if t.len() == 0 {
        assert(t.take(p) + seq![x] + t.skip(p) =~= seq![x]);
    } else if p == 0 {
        assert(t.take(p) + seq![x] + t.skip(p) =~= seq![x] + t);
    } else {
        let u = t.drop_first();
        assert forall|q: int| 0 <= q < p - 1 implies !ranks_before(table, x.0, (#[trigger] u[q]).0) by {
            assert(u[q] == t[q + 1]);
        }
        lemma_insert_at(table, u, x, p - 1);
        assert(seq![t[0]] + (u.take(p - 1) + seq![x] + u.skip(p - 1)) =~= t.take(p) + seq![x]
            + t.skip(p));
    }
}

/// Orders name-detail pairs by the rank of their names under the frequency
/// table `freq`: more frequent first, then longer first, then
/// lexicographically; pairs whose names rank alike keep their order.
pub fn rank_candidates(items: &Vec<(String, String)>, freq: &StringHashMap<usize>) -> (r: Vec<
    (String, String),
>)
    ensures
        pair_views(r@) == rank(freq@, pair_views(items@)),
{
    let mut r: Vec<(String, String)> = Vec::new();
    let mut i: usize = 0;
    while i < items.len()
        invariant
            i <= items@.len(),
            pair_views(r@) == rank(freq@, pair_views(items@.take(i as int))),
        decreases items@.len() - i,
    {
        let x = (items[i].0.clone(), items[i].1.clone());
        let ghost xv: Entry = (x.0@, x.1@);
        let mut p: usize = 0;
        let mut found = false;
        while p < r.len() && !found
            invariant
                p <= r@.len(),
                xv == (x.0@, x.1@),
                forall|q: int|
                    0 <= q < p ==> !ranks_before(freq@, xv.0, (#[trigger] pair_views(r@)[q]).0),
                found ==> p < r@.len() && ranks_before(freq@, xv.0, pair_views(r@)[p as int].0),
            decreases r@.len() - p, if found { 0int } else { 1int },
        {
            assert(pair_views(r@)[p as int] == (r@[p as int].0@, r@[p as int].1@));
            if before(freq, x.0.as_str(), r[p].0.as_str()) {
                found = true;
            } else {
                p = p + 1;
            }
        }
        proof {
            lemma_insert_at(freq@, pair_views(r@), xv, p as int);
            assert(pair_views(items@.take(i + 1)).drop_last() =~= pair_views(items@.take(i as int)));
            assert(pair_views(items@.take(i + 1)).last() == xv);
        }
        let ghost before_insert = r@;
        r.insert(p, x);
        assert(pair_views(r@) =~= pair_views(before_insert).take(p as int) + seq![xv] + pair_views(
            before_insert,
        ).skip(p as int));
        i = i + 1;
    }
    assert(items@.take(items@.len() as int) =~= items@);
    r
}

/// Whether `s` is in rank order: no entry ranks before an earlier one.
pub open spec fn is_ranked(table: Map<Seq<char>, usize>, s: Seq<Entry>) -> bool {
    forall|i: int, j: int| 0 <= i < j < s.len() ==> !ranks_before(table, #[trigger] s[j].0, #[trigger] s[i].0)
}

proof fn lemma_lex_irreflexive(a: Seq<u8>)
    ensures
        !lex_less(a, a),
    decreases a.len(),
{
    if a.len() > 0 {
        lemma_lex_irreflexive(a.drop_first());
    }
}

proof fn lemma_lex_transitive(a: Seq<u8>, b: Seq<u8>, c: Seq<u8>)
    requires
        lex_less(a, b),
        lex_less(b, c),
    ensures
        lex_less(a, c),
    decreases a.len(),
{
    if a.len() > 0 && b.len() > 0 && c.len() > 0 && a[0] == b[0] && b[0] == c[0] {
        lemma_lex_transitive(a.drop_first(), b.drop_first(), c.drop_first());
    }
}

proof fn lemma_lex_total(a: Seq<u8>, b: Seq<u8>)
    requires
        a != b,
    ensures
        lex_less(a, b) != lex_less(b, a),
    decreases a.len(),
{
    if a.len() == 0 {
        assert(b.len() > 0) by {
            if b.len() == 0 {
                assert(a =~= b);
            }
        }
    } else if b.len() > 0 && a[0] == b[0] {
        assert(a.drop_first() != b.drop_first()) by {
            if a.drop_first() == b.drop_first() {
                assert(a =~= seq![a[0]] + a.drop_first());
                assert(b =~= seq![b[0]] + b.drop_first());
            }
        }
        lemma_lex_total(a.drop_first(), b.drop_first());
    }
}

/// The rank order is a strict total order on names: no name ranks before
/// itself, ranking before is transitive, and of two different names exactly
/// one ranks before the other (by frequency, then length, then lexically).
pub proof fn lemma_rank_order_total(table: Map<Seq<char>, usize>, a: Seq<char>, b: Seq<char>, c: Seq<char>)
    ensures
        !ranks_before(table, a, a),
        ranks_before(table, a, b) && ranks_before(table, b, c) ==> ranks_before(table, a, c),
        a != b ==> (ranks_before(table, a, b) != ranks_before(table, b, a)),
{
    lemma_lex_irreflexive(utf8(a));
    if ranks_before(table, a, b) && ranks_before(table, b, c) && freq_of(table, a) == freq_of(table, c)
        && utf8(a).len() == utf8(c).len() {
        lemma_lex_transitive(utf8(a), utf8(b), utf8(c));
    }
    if a != b {
        assert(utf8(a) != utf8(b)) by {
            vstd::utf8::encode_utf8_decode_utf8(a);
            vstd::utf8::encode_utf8_decode_utf8(b);
        }
        lemma_lex_total(utf8(a), utf8(b));
    }
}

proof fn lemma_insert_ranked(table: Map<Seq<char>, usize>, t: Seq<Entry>, x: Entry)
    requires
        is_ranked(table, t),
    ensures
        is_ranked(table, insert_ranked(table, t, x)),
        insert_ranked(table, t, x).to_multiset() == t.to_multiset().insert(x),
    decreases t.len(),
{
    broadcast use group_to_multiset_ensures;

    if t.len() == 0 {
        assert(seq![x] =~= Seq::<Entry>::empty().push(x));
        assert(t =~= Seq::<Entry>::empty());
    } else if ranks_before(table, x.0, t[0].0) {
        let r = seq![x] + t;
        lemma_multiset_commutative(seq![x], t);
        assert(seq![x] =~= Seq::<Entry>::empty().push(x));
        assert forall|i: int, j: int| 0 <= i < j < r.len() implies !ranks_before(
            table,
            #[trigger] r[j].0,
            #[trigger] r[i].0,
        ) by {
            if i == 0 {
                lemma_rank_order_total(table, t[j - 1].0, x.0, t[0].0);
                lemma_rank_order_total(table, t[0].0, x.0, t[0].0);
                if j - 1 > 0 {
                    assert(!ranks_before(table, t[j - 1].0, t[0].0));
                }
            } else {
                assert(r[i] == t[i - 1] && r[j] == t[j - 1]);
            }
        }
    } else {
        let u = t.drop_first();
        assert forall|i: int, j: int| 0 <= i < j < u.len() implies !ranks_before(
            table,
            #[trigger] u[j].0,
            #[trigger] u[i].0,
        ) by {
            assert(u[i] == t[i + 1] && u[j] == t[j + 1]);
        }
        lemma_insert_ranked(table, u, x);
        let rest = insert_ranked(table, u, x);
        let r = seq![t[0]] + rest;
        lemma_multiset_commutative(seq![t[0]], rest);
        lemma_multiset_commutative(seq![t[0]], u);
        assert(t =~= seq![t[0]] + u);
        assert(seq![t[0]] =~= Seq::<Entry>::empty().push(t[0]));
        assert forall|i: int, j: int| 0 <= i < j < r.len() implies !ranks_before(
            table,
            #[trigger] r[j].0,
            #[trigger] r[i].0,
        ) by {
            if i == 0 {
                let y = rest[j - 1];
                assert(rest.contains(y));
                assert(rest.to_multiset().count(y) > 0);
                if y != x {
                    assert(u.to_multiset().count(y) > 0);
                    let k = choose|k: int| 0 <= k < u.len() && u[k] == y;
                    assert(t[k + 1] == y);
                }
            } else {
                assert(r[i] == rest[i - 1] && r[j] == rest[j - 1]);
            }
        }
    }
}

/// Ranking yields the same entries, each as often, in rank order.
pub proof fn lemma_rank_sorted_permutation(table: Map<Seq<char>, usize>, s: Seq<Entry>)
    ensures
        is_ranked(table, rank(table, s)),
        rank(table, s).to_multiset() == s.to_multiset(),
    decreases s.len(),
{
    broadcast use group_to_multiset_ensures;

    if s.len() > 0 {
        lemma_rank_sorted_permutation(table, s.drop_last());
        lemma_insert_ranked(table, rank(table, s.drop_last()), s.last());
        assert(s =~= s.drop_last().push(s.last()));
    }
}

/// Whether entries of `s` with the same name are the same entry.
pub open spec fn names_identify(s: Seq<Entry>) -> bool {
    forall|i: int, j: int|
        0 <= i < s.len() && 0 <= j < s.len() && #[trigger] s[i].0 == #[trigger] s[j].0 ==> s[i]
            == s[j]
}

proof fn lemma_names_identify_transfer(s: Seq<Entry>, t: Seq<Entry>)
    requires
        names_identify(s),
        t.to_multiset() == s.to_multiset(),
    ensures
        names_identify(t),
{
    broadcast use group_to_multiset_ensures;

    assert forall|i: int, j: int|
        0 <= i < t.len() && 0 <= j < t.len() && #[trigger] t[i].0 == #[trigger] t[j].0 implies t[i]
        == t[j] by {
        assert(t.contains(t[i]) && t.contains(t[j]));
        assert(s.to_multiset().count(t[i]) > 0 && s.to_multiset().count(t[j]) > 0);
        let p = choose|p: int| 0 <= p < s.len() && s[p] == t[i];
        let q = choose|q: int| 0 <= q < s.len() && s[q] == t[j];
        assert(s[p].0 == s[q].0);
    }
}

proof fn lemma_ranked_equal(table: Map<Seq<char>, usize>, a: Seq<Entry>, b: Seq<Entry>)
    requires
        is_ranked(table, a),
        is_ranked(table, b),
        a.to_multiset() == b.to_multiset(),
        names_identify(a),
    ensures
        a == b,
    decreases a.len(),
{
    broadcast use group_to_multiset_ensures;

    if a.len() == 0 {
        assert(b.to_multiset().len() == 0);
        assert(a =~= b);
    } else {
        assert(b.len() == a.len()) by {
            assert(a.to_multiset().len() == a.len());
            assert(b.to_multiset().len() == b.len());
        }
        if a[0] != b[0] {
            assert(b.contains(b[0]));
            assert(a.to_multiset().count(b[0]) > 0);
            let k = choose|k: int| 0 <= k < a.len() && a[k] == b[0];
            assert(a.contains(a[0]));
            assert(b.to_multiset().count(a[0]) > 0);
            let m = choose|m: int| 0 <= m < b.len() && b[m] == a[0];
            assert(k > 0 && m > 0);
            assert(!ranks_before(table, a[k].0, a[0].0));
            assert(!ranks_before(table, b[m].0, b[0].0));
            assert(a[0].0 != a[k].0);
            lemma_rank_order_total(table, a[0].0, b[0].0, a[0].0);
        }
        let a1 = a.drop_first();
        let b1 = b.drop_first();
        assert(a.remove(0) =~= a1);
        assert(b.remove(0) =~= b1);
        assert forall|i: int, j: int| 0 <= i < j < a1.len() implies !ranks_before(
            table,
            #[trigger] a1[j].0,
            #[trigger] a1[i].0,
        ) by {
            assert(a1[i] == a[i + 1] && a1[j] == a[j + 1]);
        }
        assert forall|i: int, j: int| 0 <= i < j < b1.len() implies !ranks_before(
            table,
            #[trigger] b1[j].0,
            #[trigger] b1[i].0,
        ) by {
            assert(b1[i] == b[i + 1] && b1[j] == b[j + 1]);
        }
        assert forall|i: int, j: int|
            0 <= i < a1.len() && 0 <= j < a1.len() && #[trigger] a1[i].0 == #[trigger] a1[j].0 implies a1[i]
            == a1[j] by {
            assert(a1[i] == a[i + 1] && a1[j] == a[j + 1]);
        }
        lemma_ranked_equal(table, a1, b1);
        assert(a =~= b) by {
            assert forall|i: int| 0 <= i < a.len() implies a[i] == b[i] by {
                if i > 0 {
                    assert(a[i] == a1[i - 1] && b[i] == b1[i - 1]);
                }
            }
        }
    }
}

/// When entries of the same name are the same entry, the ranking is the one
/// arrangement of the entries in rank order: any arrangement of them in rank
/// order equals it, so ranking the same entries in any input order gives the
/// same output.
pub proof fn lemma_rank_unique(table: Map<Seq<char>, usize>, s: Seq<Entry>, t: Seq<Entry>)
    requires
        names_identify(s),
        is_ranked(table, t),
        t.to_multiset() == s.to_multiset(),
    ensures
        t == rank(table, s),
{
    lemma_rank_sorted_permutation(table, s);
    lemma_names_identify_transfer(s, rank(table, s));
    lemma_ranked_equal(table, rank(table, s), t);
}

} // verus!
