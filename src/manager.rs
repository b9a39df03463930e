//! The schema snapshot and the frequency table behind completion queries.

use vstd::prelude::*;
use vstd::hash_map::StringHashMap;
use vstd::string::*;

use crate::locate::string_views;
use crate::rank::{
    freq_of, is_ranked, lemma_rank_sorted_permutation, pair_views, rank, rank_candidates,
    ranks_before,
};

use vstd::seq_lib::group_to_multiset_ensures;
use crate::schema::{entry_views, Entry, ParsedInstance, ParsedProperty};
use crate::words::{build_word_freq, word_count};

verus! {

broadcast use vstd::hash_map::group_hash_map_axioms;

/// The lower-case form of a string, as `str::to_lowercase` gives it.
pub uninterp spec fn lower_of(s: Seq<char>) -> Seq<char>;

/// Relies on `str::to_lowercase`: the result depends on the characters alone.
#[verifier::external_body]
fn lowercase(s: &str) -> (r: String)
    ensures
        r@ == lower_of(s@),
        s@.len() == 0 ==> r@.len() == 0,
{
    s.to_lowercase()
}

/// Whether the characters of `p` occur in `t` in order (not necessarily adjacent).
pub open spec fn is_subseq(p: Seq<char>, t: Seq<char>) -> bool
    decreases t.len(),
{
    if p.len() == 0 {
        true
    } else if t.len() == 0 {
        false
    } else if t[0] == p[0] {
        is_subseq(p.drop_first(), t.drop_first())
    } else {
        is_subseq(p, t.drop_first())
    }
}

/// Whether `name` matches the query `q`: the lower-cased query is a
/// subsequence of the lower-cased name.
pub open spec fn fuzzy_match(q: Seq<char>, name: Seq<char>) -> bool {
    is_subseq(lower_of(q), lower_of(name))
}

/// The names of `ns` that match query `q`, in order.
pub open spec fn matching_names(ns: Seq<Seq<char>>, q: Seq<char>) -> Seq<Seq<char>>
    decreases ns.len(),
{
    if ns.len() == 0 {
        seq![]
    } else {
        let rest = matching_names(ns.drop_last(), q);
        if fuzzy_match(q, ns.last()) {
            rest.push(ns.last())
        } else {
            rest
        }
    }
}

/// Names as ranking entries with an empty detail.
pub open spec fn bare_entries(ns: Seq<Seq<char>>) -> Seq<Entry> {
    ns.map_values(|n: Seq<char>| (n, Seq::<char>::empty()))
}

/// The names of ranking entries.
pub open spec fn entry_names(es: Seq<Entry>) -> Seq<Seq<char>> {
    es.map_values(|e: Entry| e.0)
}

/// Whether some entry of `ps` is named `t`.
pub open spec fn has_entry_named(ps: Seq<ParsedProperty>, t: Seq<char>) -> bool {
    exists|i: int| 0 <= i < ps.len() && (#[trigger] ps[i]).name@ == t
}

/// Whether `t` is the name of class `k` or of one of its properties or events.
pub open spec fn term_of(inst: ParsedInstance, k: Seq<char>, t: Seq<char>) -> bool {
    t == k || has_entry_named(inst.properties@, t) || has_entry_named(inst.events@, t)
}

/// The terms the frequency table tracks: class, property and event names.
pub open spec fn schema_terms(m: Map<Seq<char>, ParsedInstance>) -> Set<Seq<char>> {
    Set::new(|t: Seq<char>| exists|k: Seq<char>| m.contains_key(k) && #[trigger] term_of(m[k], k, t))
}

/// `mult * count`, or the largest `usize` when that does not fit.
pub open spec fn scaled(mult: usize, count: nat) -> usize {
    if mult * count > usize::MAX {
        usize::MAX
    } else {
        (mult * count) as usize
    }
}

/// The count of term `t` after observing document `doc` with weight `mult`:
/// its previous count plus `mult` times its occurrences as a word of `doc`,
/// saturating at the largest `usize`.
pub open spec fn bumped(table: Map<Seq<char>, usize>, mult: usize, doc: Seq<char>, t: Seq<char>) -> usize {
    let s = freq_of(table, t) + scaled(mult, word_count(doc, t));
    if s > usize::MAX {
        usize::MAX
    } else {
        s as usize
    }
}

/// The index of the last of the first `n` entries of `ps` named `name`.
pub open spec fn last_instance(ps: Seq<ParsedInstance>, name: Seq<char>, n: int) -> Option<int>
    decreases n,
{
    if n <= 0 || n > ps.len() {
        None
    } else if ps[n - 1].instance@ == name {
        Some(n - 1)
    } else {
        last_instance(ps, name, n - 1)
    }
}

proof fn lemma_last_instance(ps: Seq<ParsedInstance>, name: Seq<char>, n: int)
    requires
        0 <= n <= ps.len(),
    ensures
        last_instance(ps, name, n) matches Some(j) ==> 0 <= j < n && ps[j].instance@ == name
            && forall|i: int| j < i < n ==> (#[trigger] ps[i]).instance@ != name,
        last_instance(ps, name, n) is None ==> forall|i: int|
            0 <= i < n ==> (#[trigger] ps[i]).instance@ != name,
    decreases n,
{
    if n > 0 && ps[n - 1].instance@ != name {
        lemma_last_instance(ps, name, n - 1);
    }
}

proof fn lemma_matching_names_members(ns: Seq<Seq<char>>, q: Seq<char>)
    ensures
        forall|i: int|
            0 <= i < matching_names(ns, q).len() ==> fuzzy_match(q, #[trigger] matching_names(ns, q)[i])
                && ns.contains(matching_names(ns, q)[i]),
        (forall|i: int| 0 <= i < ns.len() ==> fuzzy_match(q, #[trigger] ns[i])) ==> matching_names(
            ns,
            q,
        ) == ns,
    decreases ns.len(),
{
    if ns.len() > 0 {
        let init = ns.drop_last();
        lemma_matching_names_members(init, q);
        assert forall|i: int| 0 <= i < init.len() implies #[trigger] ns.contains(init[i]) by {
            assert(ns[i] == init[i]);
        }
        if forall|i: int| 0 <= i < ns.len() ==> fuzzy_match(q, #[trigger] ns[i]) {
            assert forall|i: int| 0 <= i < init.len() implies fuzzy_match(q, #[trigger] init[i]) by {
                assert(ns[i] == init[i]);
            }
            assert(fuzzy_match(q, ns[ns.len() - 1]));
            assert(init.push(ns.last()) =~= ns);
        }
        assert(ns[ns.len() - 1] == ns.last());
        let rest = matching_names(init, q);
        let m = matching_names(ns, q);
        assert forall|i: int| 0 <= i < m.len() implies fuzzy_match(q, #[trigger] m[i]) && ns.contains(
            m[i],
        ) by {
            if i < rest.len() {
                assert(m[i] == rest[i]);
                assert(init.contains(rest[i]));
                let k = choose|k: int| 0 <= k < init.len() && init[k] == rest[i];
                assert(ns[k] == rest[i]);
            } else {
                assert(m[i] == ns.last());
                assert(ns[ns.len() - 1] == m[i]);
            }
        }
    }
}

/// The class-name search returns only known names that match the query;
/// when every known name matches (as every name matches the empty query),
/// it returns each known name, as many names as are known.
pub proof fn lemma_instance_search(table: Map<Seq<char>, usize>, ns: Seq<Seq<char>>, q: Seq<char>)
    ensures
        forall|i: int|
            0 <= i < entry_names(rank(table, bare_entries(matching_names(ns, q)))).len()
                ==> fuzzy_match(q, #[trigger] entry_names(rank(table, bare_entries(matching_names(ns, q))))[i])
                && ns.contains(entry_names(rank(table, bare_entries(matching_names(ns, q))))[i]),
        (forall|i: int| 0 <= i < ns.len() ==> fuzzy_match(q, #[trigger] ns[i])) ==> {
            &&& entry_names(rank(table, bare_entries(matching_names(ns, q)))).len() == ns.len()
            &&& forall|n: Seq<char>|
                ns.contains(n) ==> #[trigger] entry_names(
                    rank(table, bare_entries(matching_names(ns, q))),
                ).contains(n)
        },
{
    broadcast use group_to_multiset_ensures;

    let m = matching_names(ns, q);
    let b = bare_entries(m);
    let r = rank(table, b);
    let out = entry_names(r);
    lemma_matching_names_members(ns, q);
    lemma_rank_sorted_permutation(table, b);
    assert forall|i: int| 0 <= i < out.len() implies fuzzy_match(q, #[trigger] out[i]) && ns.contains(
        out[i],
    ) by {
        assert(r.contains(r[i]));
        assert(b.to_multiset().count(r[i]) > 0);
        let k = choose|k: int| 0 <= k < b.len() && b[k] == r[i];
        assert(m[k] == out[i]);
    }
    if forall|i: int| 0 <= i < ns.len() ==> fuzzy_match(q, #[trigger] ns[i]) {
        assert(m == ns);
        assert(r.len() == b.len()) by {
            assert(r.to_multiset().len() == b.to_multiset().len());
        }
        assert forall|n: Seq<char>| ns.contains(n) implies #[trigger] out.contains(n) by {
            let k = choose|k: int| 0 <= k < ns.len() && ns[k] == n;
            assert(b[k] == (n, Seq::<char>::empty()));
            assert(b.contains(b[k]));
            assert(r.to_multiset().count(b[k]) > 0);
            let j = choose|j: int| 0 <= j < r.len() && r[j] == b[k];
            assert(out[j] == n);
        }
    }
}

proof fn lemma_names_permutation(a: Seq<Entry>, b: Seq<Entry>)
    requires
        a.to_multiset() == b.to_multiset(),
    ensures
        entry_names(a).to_multiset() == entry_names(b).to_multiset(),
    decreases a.len(),
{
    broadcast use group_to_multiset_ensures;

    if a.len() == 0 {
        assert(b.to_multiset().len() == 0);
        assert(b.len() == 0);
        assert(entry_names(a) =~= entry_names(b));
    } else {
        let x = a[0];
        assert(a.contains(x));
        assert(b.to_multiset().count(x) > 0);
        let k = choose|k: int| 0 <= k < b.len() && b[k] == x;
        let a1 = a.remove(0);
        let b1 = b.remove(k);
        lemma_names_permutation(a1, b1);
        let na = entry_names(a);
        let nb = entry_names(b);
        assert(na.remove(0) =~= entry_names(a1));
        assert(nb.remove(k) =~= entry_names(b1));
        assert(na[0] == x.0 && nb[k] == x.0);
        assert(na.to_multiset().count(x.0) > 0) by {
            assert(na.contains(x.0));
        }
        assert(nb.to_multiset().count(x.0) > 0) by {
            assert(nb.contains(x.0));
        }
        assert(na.to_multiset() =~= nb.to_multiset()) by {
            assert(na.remove(0).to_multiset() == na.to_multiset().remove(x.0));
            assert(nb.remove(k).to_multiset() == nb.to_multiset().remove(x.0));
            assert forall|y: Seq<char>| na.to_multiset().count(y) == nb.to_multiset().count(y) by {
                assert(na.to_multiset().remove(x.0).count(y) == nb.to_multiset().remove(x.0).count(y));
            }
        }
    }
}

/// The ranked class-name search returns exactly the names matching the
/// query, each as often as it is known, in rank order (more frequent first,
/// then longer first, then lexicographically).
pub proof fn lemma_instance_search_ranked(table: Map<Seq<char>, usize>, ns: Seq<Seq<char>>, q: Seq<char>)
    ensures
        entry_names(rank(table, bare_entries(matching_names(ns, q)))).to_multiset()
            == matching_names(ns, q).to_multiset(),
        forall|i: int, j: int|
            0 <= i < j < entry_names(rank(table, bare_entries(matching_names(ns, q)))).len()
                ==> !ranks_before(
                table,
                #[trigger] entry_names(rank(table, bare_entries(matching_names(ns, q))))[j],
                #[trigger] entry_names(rank(table, bare_entries(matching_names(ns, q))))[i],
            ),
{
    let m = matching_names(ns, q);
    let b = bare_entries(m);
    let r = rank(table, b);
    lemma_rank_sorted_permutation(table, b);
    lemma_names_permutation(r, b);
    assert(entry_names(b) =~= m);
    assert forall|i: int, j: int| 0 <= i < j < entry_names(r).len() implies !ranks_before(
        table,
        #[trigger] entry_names(r)[j],
        #[trigger] entry_names(r)[i],
    ) by {
        assert(is_ranked(table, r));
        assert(!ranks_before(table, r[j].0, r[i].0));
    }
}

/// The schema snapshot, the class names it holds, and the table of how
/// often each tracked term has been seen in observed documents.
pub struct ApiManager {
    instances: Option<StringHashMap<ParsedInstance>>,
    names: Option<Vec<String>>,
    freq_lookup: StringHashMap<usize>,
}

impl ApiManager {
    /// The loaded schema, from class name to flattened class; `None` before loading.
    pub closed spec fn schema(&self) -> Option<Map<Seq<char>, ParsedInstance>> {
        match self.instances {
            Some(m) => Some(m@),
            None => None,
        }
    }

    /// The loaded class names, each once; `None` before loading.
    pub closed spec fn known_names(&self) -> Option<Seq<Seq<char>>> {
        match self.names {
            Some(v) => Some(string_views(v@)),
            None => None,
        }
    }

    /// The frequency table.
    pub closed spec fn freq(&self) -> Map<Seq<char>, usize> {
        self.freq_lookup@
    }

    /// The class names are exactly the schema's keys, each listed once.
    pub open spec fn wf(&self) -> bool {
        &&& (self.schema() is Some <==> self.known_names() is Some)
        &&& self.known_names() matches Some(ns) ==> {
            &&& ns.no_duplicates()
            &&& forall|k: Seq<char>| #[trigger]
                self.schema()->0.contains_key(k) <==> ns.contains(k)
        }
    }

    /// A manager with no schema and an empty frequency table.
    pub fn new() -> (r: Self)
        ensures
            r.wf(),
            r.schema() is None,
            r.freq() == Map::<Seq<char>, usize>::empty(),
    {
        ApiManager { instances: None, names: None, freq_lookup: StringHashMap::new() }
    }

    /// Installs a schema snapshot; of entries with the same class name the
    /// last one counts. The frequency table is kept.
    pub fn load_instances(&mut self, parsed: Vec<ParsedInstance>)
        ensures
            final(self).wf(),
            final(self).freq() == old(self).freq(),
            final(self).schema() matches Some(m) && forall|k: Seq<char>|
                #![trigger m.contains_key(k)]
                match last_instance(parsed@, k, parsed@.len() as int) {
                    Some(j) => m.contains_key(k) && m[k] == parsed@[j],
                    None => !m.contains_key(k),
                },
    {
        let ghost ps = parsed@;
        let mut parsed = parsed;
        let mut map: StringHashMap<ParsedInstance> = StringHashMap::new();
        let mut names: Vec<String> = Vec::new();
        proof {
            assert forall|k: Seq<char>| #[trigger] last_instance(ps, k, ps.len() as int) matches Some(
                j,
            ) ==> 0 <= j < ps.len() by {
                lemma_last_instance(ps, k, ps.len() as int);
            }
        }
        while parsed.len() > 0
            invariant
                parsed@ == ps.take(parsed@.len() as int),
                parsed@.len() <= ps.len(),
                string_views(names@).no_duplicates(),
                forall|k: Seq<char>| #[trigger]
                    map@.contains_key(k) <==> string_views(names@).contains(k),
                forall|k: Seq<char>|
                    #![trigger map@.contains_key(k)]
                    match last_instance(ps, k, ps.len() as int) {
                        Some(j) => (j >= parsed@.len() <==> map@.contains_key(k)) && (j
                            >= parsed@.len() ==> map@[k] == ps[j]),
                        None => !map@.contains_key(k),
                    },
                forall|k: Seq<char>| #[trigger] last_instance(ps, k, ps.len() as int) matches Some(
                    j,
                ) ==> 0 <= j < ps.len(),
            decreases parsed@.len(),
        {
            let ghost n = parsed@.len() as int;
            let p = parsed.pop().unwrap();
            assert(p == ps[n - 1]);
            assert(parsed@ =~= ps.take(n - 1));
            let key = p.instance.clone();
            proof {
                lemma_last_instance(ps, key@, ps.len() as int);
                assert forall|k: Seq<char>| k != key@ implies #[trigger] last_instance(
                    ps,
                    k,
                    ps.len() as int,
                ) != Some(n - 1) by {
                    lemma_last_instance(ps, k, ps.len() as int);
                }
            }
            if !map.contains_key(key.as_str()) {
                let ghost old_names = string_views(names@);
                names.push(key.clone());
                assert(string_views(names@) =~= old_names.push(key@));
                proof {
                    assert forall|k: Seq<char>| #[trigger]
                        old_names.push(key@).contains(k) <==> (old_names.contains(k) || k == key@) by {
                        if old_names.push(key@).contains(k) {
                            let i = choose|i: int| 0 <= i < old_names.len() + 1 && old_names.push(key@)[i] == k;
                            if i < old_names.len() {
                                assert(old_names[i] == k);
                            }
                        }
                        if old_names.contains(k) {
                            let i = choose|i: int| 0 <= i < old_names.len() && old_names[i] == k;
                            assert(old_names.push(key@)[i] == k);
                        }
                        if k == key@ {
                            assert(old_names.push(key@)[old_names.len() as int] == k);
                        }
                    }
                }
                map.insert(key, p);
            }
        }
        self.instances = Some(map);
        self.names = Some(names);
    }

    /// The flattened class named `name`, when the schema holds it.
    pub fn lookup_inst(&self, name: &str) -> (r: Option<&ParsedInstance>)
        ensures
            match r {
                Some(p) => self.schema() matches Some(m) && m.contains_key(name@) && *p == m[name@],
                None => !(self.schema() matches Some(m) && m.contains_key(name@)),
            },
    {
        match &self.instances {
            Some(m) => m.get(name),
            None => None,
        }
    }

    /// Observes a document: adds `multiplier` times the number of times each
    /// tracked term (class, property or event name of the schema) occurs as a
    /// word of `doc` to that term's count, saturating at the largest `usize`.
    /// Other words are not tracked, and no count ever decreases.
    pub fn update_freq(&mut self, doc: &str, multiplier: usize)
        requires
            old(self).wf(),
        ensures
            final(self).wf(),
            final(self).schema() == old(self).schema(),
            final(self).known_names() == old(self).known_names(),
            forall|t: Seq<char>|
                #![trigger final(self).freq().contains_key(t)]
                if old(self).schema() is Some && schema_terms(old(self).schema()->0).contains(t) {
                    final(self).freq().contains_key(t) && final(self).freq()[t] == bumped(
                        old(self).freq(),
                        multiplier,
                        doc@,
                        t,
                    )
                } else {
                    final(self).freq().contains_key(t) == old(self).freq().contains_key(t) && (old(
                        self,
                    ).freq().contains_key(t) ==> final(self).freq()[t] == old(self).freq()[t])
                },
    {
        let counts = build_word_freq(doc);
        let ghost table = self.freq_lookup@;
        let instances = match &self.instances {
            Some(m) => m,
            None => return ,
        };
        let names = match &self.names {
            Some(v) => v,
            None => return ,
        };
        assert(self.schema()->0 == instances@);
        assert(self.known_names()->0 == string_views(names@));
        let mut freq = StringHashMap::<usize>::new();
        std::mem::swap(&mut freq, &mut self.freq_lookup);
        let mut seen: StringHashMap<bool> = StringHashMap::new();
        let mut i: usize = 0;
        while i < names.len()
            invariant
                i <= names@.len(),
                forall|k: Seq<char>| #[trigger]
                    instances@.contains_key(k) <==> string_views(names@).contains(k),
                forall|w: Seq<char>| #[trigger] counts@.contains_key(w) <==> word_count(doc@, w) > 0,
                forall|w: Seq<char>|
                    counts@.contains_key(w) ==> #[trigger] counts@[w] == word_count(doc@, w),
                forall|t: Seq<char>|
                    #[trigger] seen@.contains_key(t) ==> schema_terms(instances@).contains(t),
                forall|t: Seq<char>|
                    #[trigger] seen@.contains_key(t) ==> freq@.contains_key(t) && freq@[t] == bumped(
                        table,
                        multiplier,
                        doc@,
                        t,
                    ),
                forall|t: Seq<char>|
                    !(#[trigger] seen@.contains_key(t)) ==> (freq@.contains_key(t)
                        == table.contains_key(t) && (table.contains_key(t) ==> freq@[t] == table[t])),
                forall|a: int, t: Seq<char>|
                    0 <= a < i && #[trigger] term_of(instances@[names@[a]@], names@[a]@, t)
                        ==> seen@.contains_key(t),
            decreases names@.len() - i,
        {
            let name = &names[i];
            assert(string_views(names@)[i as int] == name@);
            let inst = match instances.get(name.as_str()) {
                Some(p) => p,
                None => {
                    i = i + 1;
                    continue ;
                },
            };
            assert(schema_terms(instances@).contains(name@)) by {
                assert(term_of(instances@[name@], name@, name@));
            }
            bump(&mut freq, &mut seen, name, &counts, multiplier, Ghost(table), Ghost(doc@));
            let mut j: usize = 0;
            while j < inst.properties.len()
                invariant
                    j <= inst.properties@.len(),
                    instances@.contains_key(name@) && instances@[name@] == *inst,
                    forall|w: Seq<char>| #[trigger]
                        counts@.contains_key(w) <==> word_count(doc@, w) > 0,
                    forall|w: Seq<char>|
                        counts@.contains_key(w) ==> #[trigger] counts@[w] == word_count(doc@, w),
                    forall|t: Seq<char>|
                        #[trigger] seen@.contains_key(t) ==> schema_terms(instances@).contains(t),
                    forall|t: Seq<char>|
                        #[trigger] seen@.contains_key(t) ==> freq@.contains_key(t) && freq@[t]
                            == bumped(table, multiplier, doc@, t),
                    forall|t: Seq<char>|
                        !(#[trigger] seen@.contains_key(t)) ==> (freq@.contains_key(t)
                            == table.contains_key(t) && (table.contains_key(t) ==> freq@[t]
                            == table[t])),
                    forall|a: int, t: Seq<char>|
                        0 <= a < i && #[trigger] term_of(instances@[names@[a]@], names@[a]@, t)
                            ==> seen@.contains_key(t),
                    i < names@.len(),
                    seen@.contains_key(name@),
                    forall|q: int|
                        0 <= q < j ==> #[trigger] seen@.contains_key(inst.properties@[q].name@),
                decreases inst.properties@.len() - j,
            {
                let term = &inst.properties[j].name;
                assert(schema_terms(instances@).contains(term@)) by {
                    assert(inst.properties@[j as int].name@ == term@);
                    assert(term_of(instances@[name@], name@, term@));
                }
                bump(&mut freq, &mut seen, term, &counts, multiplier, Ghost(table), Ghost(doc@));
                j = j + 1;
            }
            let mut j: usize = 0;
            while j < inst.events.len()
                invariant
                    j <= inst.events@.len(),
                    instances@.contains_key(name@) && instances@[name@] == *inst,
                    forall|w: Seq<char>| #[trigger]
                        counts@.contains_key(w) <==> word_count(doc@, w) > 0,
                    forall|w: Seq<char>|
                        counts@.contains_key(w) ==> #[trigger] counts@[w] == word_count(doc@, w),
                    forall|t: Seq<char>|
                        #[trigger] seen@.contains_key(t) ==> schema_terms(instances@).contains(t),
                    forall|t: Seq<char>|
                        #[trigger] seen@.contains_key(t) ==> freq@.contains_key(t) && freq@[t]
                            == bumped(table, multiplier, doc@, t),
                    forall|t: Seq<char>|
                        !(#[trigger] seen@.contains_key(t)) ==> (freq@.contains_key(t)
                            == table.contains_key(t) && (table.contains_key(t) ==> freq@[t]
                            == table[t])),
                    forall|a: int, t: Seq<char>|
                        0 <= a < i && #[trigger] term_of(instances@[names@[a]@], names@[a]@, t)
                            ==> seen@.contains_key(t),
                    i < names@.len(),
                    seen@.contains_key(name@),
                    forall|q: int|
                        0 <= q < inst.properties@.len() ==> #[trigger] seen@.contains_key(
                            inst.properties@[q].name@,
                        ),
                    forall|q: int|
                        0 <= q < j ==> #[trigger] seen@.contains_key(inst.events@[q].name@),
                decreases inst.events@.len() - j,
            {
                let term = &inst.events[j].name;
                assert(schema_terms(instances@).contains(term@)) by {
                    assert(inst.events@[j as int].name@ == term@);
                    assert(term_of(instances@[name@], name@, term@));
                }
                bump(&mut freq, &mut seen, term, &counts, multiplier, Ghost(table), Ghost(doc@));
                j = j + 1;
            }
            assert forall|a: int, t: Seq<char>|
                0 <= a < i + 1 && #[trigger] term_of(instances@[names@[a]@], names@[a]@, t) implies seen@.contains_key(t) by {
                if a == i {
                    if has_entry_named(inst.properties@, t) {
                        let q = choose|q: int| 0 <= q < inst.properties@.len() && (#[trigger] inst.properties@[q]).name@ == t;
                        assert(seen@.contains_key(inst.properties@[q].name@));
                    }
                    if has_entry_named(inst.events@, t) {
                        let q = choose|q: int| 0 <= q < inst.events@.len() && (#[trigger] inst.events@[q]).name@ == t;
                        assert(seen@.contains_key(inst.events@[q].name@));
                    }
                }
            }
            i = i + 1;
        }
        proof {
            assert forall|t: Seq<char>| schema_terms(instances@).contains(t) implies #[trigger] seen@.contains_key(t) by {
                let k = choose|k: Seq<char>| instances@.contains_key(k) && #[trigger] term_of(instances@[k], k, t);
                assert(string_views(names@).contains(k));
                let a = choose|a: int| 0 <= a < string_views(names@).len() && string_views(names@)[a] == k;
                assert(names@[a]@ == k);
                assert(term_of(instances@[names@[a]@], names@[a]@, t));
            }
        }
        std::mem::swap(&mut freq, &mut self.freq_lookup);
        assert forall|t: Seq<char>| #![trigger self.freq().contains_key(t)]
            if old(self).schema() is Some && schema_terms(old(self).schema()->0).contains(t) {
                self.freq().contains_key(t) && self.freq()[t] == bumped(table, multiplier, doc@, t)
            } else {
                self.freq().contains_key(t) == table.contains_key(t) && (table.contains_key(t)
                    ==> self.freq()[t] == table[t])
            } by {
            assert(old(self).schema()->0 == instances@);
            if seen@.contains_key(t) {
                assert(schema_terms(instances@).contains(t));
            }
        }
    }

    /// How often `term` has been counted.
    pub fn term_frequency(&self, term: &str) -> (r: usize)
        ensures
            r as nat == freq_of(self.freq(), term@),
    {
        match self.freq_lookup.get(term) {
            Some(f) => *f,
            None => 0,
        }
    }

    /// The properties of the class named `inst_name`, each with its type,
    /// ranked (see [`rank_candidates`]); `None` when the schema lacks the class.
    pub fn lookup_properties(&self, inst_name: &str) -> (r: Option<Vec<(String, String)>>)
        ensures
            match r {
                Some(v) => self.schema() matches Some(m) && m.contains_key(inst_name@) && pair_views(
                    v@,
                ) == rank(self.freq(), entry_views(m[inst_name@].properties@)),
                None => !(self.schema() matches Some(m) && m.contains_key(inst_name@)),
            },
    {
        let inst = self.lookup_inst(inst_name)?;
        let pairs = entry_pairs(&inst.properties);
        Some(rank_candidates(&pairs, &self.freq_lookup))
    }

    /// The events of the class named `inst_name`, each with its type,
    /// ranked (see [`rank_candidates`]); `None` when the schema lacks the class.
    pub fn lookup_events(&self, inst_name: &str) -> (r: Option<Vec<(String, String)>>)
        ensures
            match r {
                Some(v) => self.schema() matches Some(m) && m.contains_key(inst_name@) && pair_views(
                    v@,
                ) == rank(self.freq(), entry_views(m[inst_name@].events@)),
                None => !(self.schema() matches Some(m) && m.contains_key(inst_name@)),
            },
    {
        let inst = self.lookup_inst(inst_name)?;
        let pairs = entry_pairs(&inst.events);
        Some(rank_candidates(&pairs, &self.freq_lookup))
    }

    /// Whether `text` matches the query `pattern`: the lower-cased pattern's
    /// characters occur in order in the lower-cased text.
    pub fn is_subsequence(&self, pattern: &str, text: &str) -> (r: bool)
        ensures
            r == fuzzy_match(pattern@, text@),
            pattern@.len() == 0 ==> r,
    {
        let p = lowercase(pattern);
        let t = lowercase(text);
        subsequence_of(p.as_str(), t.as_str())
    }

    /// The class names matching the query `index` (see [`fuzzy_match`]),
    /// ranked; `None` before a schema is loaded.
    pub fn get_all_inst(&self, index: &str) -> (r: Option<Vec<String>>)
        ensures
            match r {
                Some(v) => self.known_names() matches Some(ns) && string_views(v@) == entry_names(
                    rank(self.freq(), bare_entries(matching_names(ns, index@))),
                ),
                None => self.known_names() is None,
            },
            r matches Some(v) ==> string_views(v@).to_multiset() == matching_names(
                self.known_names()->0,
                index@,
            ).to_multiset(),
            r matches Some(v) ==> forall|i: int, j: int|
                0 <= i < j < v@.len() ==> !ranks_before(
                    self.freq(),
                    #[trigger] string_views(v@)[j],
                    #[trigger] string_views(v@)[i],
                ),
            index@.len() == 0 ==> (r matches Some(v) ==> string_views(v@).len()
                == self.known_names()->0.len() && forall|n: Seq<char>|
                self.known_names()->0.contains(n) ==> #[trigger] string_views(v@).contains(n)),
    {
        let names = match &self.names {
            Some(v) => v,
            None => return None,
        };
        let mut pairs: Vec<(String, String)> = Vec::new();
        let mut i: usize = 0;
        while i < names.len()
            invariant
                i <= names@.len(),
                pair_views(pairs@) == bare_entries(
                    matching_names(string_views(names@.take(i as int)), index@),
                ),
                index@.len() == 0 ==> forall|a: int|
                    0 <= a < i ==> fuzzy_match(index@, #[trigger] names@[a]@),
            decreases names@.len() - i,
        {
            assert(string_views(names@.take(i + 1)).drop_last() =~= string_views(
                names@.take(i as int),
            ));
            assert(string_views(names@.take(i + 1)).last() == names@[i as int]@);
            if self.is_subsequence(index, names[i].as_str()) {
                let ghost before = pairs@;
                pairs.push((names[i].clone(), String::new()));
                assert(pair_views(pairs@) =~= pair_views(before).push(
                    (names@[i as int]@, Seq::<char>::empty()),
                ));
                assert(bare_entries(
                    matching_names(string_views(names@.take(i + 1)), index@),
                ) =~= bare_entries(
                    matching_names(string_views(names@.take(i as int)), index@),
                ).push((names@[i as int]@, Seq::<char>::empty())));
            }
            i = i + 1;
        }
        assert(names@.take(names@.len() as int) =~= names@);
        let ranked = rank_candidates(&pairs, &self.freq_lookup);
        let mut out: Vec<String> = Vec::new();
        let mut j: usize = 0;
        while j < ranked.len()
            invariant
                j <= ranked@.len(),
                string_views(out@) =~= entry_names(pair_views(ranked@.take(j as int))),
            decreases ranked@.len() - j,
        {
            out.push(ranked[j].0.clone());
            assert(entry_names(pair_views(ranked@.take(j + 1))) =~= entry_names(
                pair_views(ranked@.take(j as int)),
            ).push(ranked@[j as int].0@));
            j = j + 1;
        }
        assert(ranked@.take(ranked@.len() as int) =~= ranked@);
        proof {
            let ns = string_views(names@);
            lemma_instance_search(self.freq(), ns, index@);
            lemma_instance_search_ranked(self.freq(), ns, index@);
            if index@.len() == 0 {
                assert forall|a: int| 0 <= a < ns.len() implies fuzzy_match(index@, #[trigger] ns[a]) by {
                    assert(ns[a] == names@[a]@);
                }
            }
        }
        Some(out)
    }
}

/// Adds the weighted count of `term` to the table, unless `seen` already
/// records it; records it in `seen`.
fn bump(
    freq: &mut StringHashMap<usize>,
    seen: &mut StringHashMap<bool>,
    term: &String,
    counts: &StringHashMap<usize>,
    multiplier: usize,
    Ghost(table): Ghost<Map<Seq<char>, usize>>,
    Ghost(doc): Ghost<Seq<char>>,
)
    requires
        forall|w: Seq<char>| #[trigger] counts@.contains_key(w) <==> word_count(doc, w) > 0,
        forall|w: Seq<char>| counts@.contains_key(w) ==> #[trigger] counts@[w] == word_count(doc, w),
        forall|t: Seq<char>|
            #[trigger] old(seen)@.contains_key(t) ==> old(freq)@.contains_key(t) && old(freq)@[t]
                == bumped(table, multiplier, doc, t),
        forall|t: Seq<char>|
            !(#[trigger] old(seen)@.contains_key(t)) ==> (old(freq)@.contains_key(t)
                == table.contains_key(t) && (table.contains_key(t) ==> old(freq)@[t] == table[t])),
    ensures
        forall|t: Seq<char>| #[trigger]
            final(seen)@.contains_key(t) <==> (old(seen)@.contains_key(t) || t == term@),
        forall|t: Seq<char>|
            #[trigger] final(seen)@.contains_key(t) ==> final(freq)@.contains_key(t) && final(freq)@[t]
                == bumped(table, multiplier, doc, t),
        forall|t: Seq<char>|
            !(#[trigger] final(seen)@.contains_key(t)) ==> (final(freq)@.contains_key(t)
                == table.contains_key(t) && (table.contains_key(t) ==> final(freq)@[t] == table[t])),
{
    if seen.contains_key(term.as_str()) {
        return ;
    }
    let count = match counts.get(term.as_str()) {
        Some(c) => *c,
        None => 0,
    };
    let add = match multiplier.checked_mul(count) {
        Some(x) => x,
        None => usize::MAX,
    };
    let current = match freq.get(term.as_str()) {
        Some(c) => *c,
        None => 0,
    };
    assert(current as nat == freq_of(table, term@));
    assert(add == scaled(multiplier, word_count(doc, term@)));
    freq.insert(term.clone(), current.saturating_add(add));
    seen.insert(term.clone(), true);
}

fn entry_pairs(ps: &Vec<ParsedProperty>) -> (r: Vec<(String, String)>)
    ensures
        pair_views(r@) == entry_views(ps@),
{
    let mut r: Vec<(String, String)> = Vec::new();
    let mut i: usize = 0;
    while i < ps.len()
        invariant
            i <= ps@.len(),
            pair_views(r@) =~= entry_views(ps@.take(i as int)),
        decreases ps@.len() - i,
    {
        r.push((ps[i].name.clone(), ps[i].data_type.clone()));
        assert(entry_views(ps@.take(i + 1)) =~= entry_views(ps@.take(i as int)).push(
            (ps@[i as int].name@, ps@[i as int].data_type@),
        ));
        i = i + 1;
    }
    assert(ps@.take(ps@.len() as int) =~= ps@);
    r
}

/// Whether the characters of `p` occur in order in `t` (see [`is_subseq`]).
pub fn subsequence_of(p: &str, t: &str) -> (r: bool)
    ensures
        r == is_subseq(p@, t@),
{
    let pn = p.unicode_len();
    let tn = t.unicode_len();
    let mut i: usize = 0;
    let mut j: usize = 0;
    assert(p@.skip(0) =~= p@);
    assert(t@.skip(0) =~= t@);
    while j < tn
        invariant
            pn == p@.len(),
            tn == t@.len(),
            i <= pn,
            j <= tn,
            is_subseq(p@, t@) == is_subseq(p@.skip(i as int), t@.skip(j as int)),
        decreases tn - j,
    {
        if i == pn {
            return true;
        }
        assert(t@.skip(j as int).drop_first() =~= t@.skip(j + 1));
        assert(p@.skip(i as int).drop_first() =~= p@.skip(i + 1));
        if t.get_char(j) == p.get_char(i) {
            i = i + 1;
        }
        j = j + 1;
    }
    i == pn
}

} // verus!
