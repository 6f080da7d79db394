use vstd::prelude::*;
use vstd::pervasive::VecAdditionalExecFns;

verus! {

/// An ordered (reference-A id, reference-B id) combination: the key the
/// co-occurrence counts are aggregated under. Equality is structural, and
/// the two sides are never interchangeable: (a, b) and (b, a) are distinct.
#[derive(Clone, Copy, PartialEq, Eq, Structural, Hash, Debug)]
pub struct PairKey {
    pub a: usize,
    pub b: usize,
}

impl View for PairKey {
    type V = (int, int);

    open spec fn view(&self) -> (int, int) {
        (self.a as int, self.b as int)
    }
}

/// The mapping a sequence of table entries stands for, later entries
/// winning. Well-formed tables keep their keys pairwise distinct, so for
/// them the order carries no information.
pub open spec fn entries_map(s: Seq<(PairKey, usize)>) -> Map<(int, int), nat>
    decreases s.len(),
{
    if s.len() == 0 {
        Map::empty()
    } else {
        entries_map(s.drop_last()).insert(s.last().0@, s.last().1 as nat)
    }
}

/// `m` with the count under `k` raised by one, a missing key counting as
/// zero.
pub open spec fn bumped(m: Map<(int, int), nat>, k: (int, int)) -> Map<(int, int), nat> {
    m.insert(k, (if m.contains_key(k) { m[k] } else { 0 }) + 1)
}

/// `m` with `k` present, a missing key filled in with a zero count and a
/// present one left untouched.
pub open spec fn zero_filled(m: Map<(int, int), nat>, k: (int, int)) -> Map<(int, int), nat> {
    if m.contains_key(k) {
        m
    } else {
        m.insert(k, 0)
    }
}

/// Mapping from pair key to occurrence count. Abstractly a finite map from
/// (int, int) to nat; concretely a vector of entries with pairwise-distinct
/// keys, kept in first-insertion order so that the emitted rows are
/// deterministic.
pub struct CountTable {
    entries: Vec<(PairKey, usize)>,
}

impl View for CountTable {
    type V = Map<(int, int), nat>;

    closed spec fn view(&self) -> Map<(int, int), nat> {
        entries_map(self.entries@)
    }
}

proof fn lemma_entries_map_dom(s: Seq<(PairKey, usize)>)
    ensures
        entries_map(s).dom().finite(),
        forall|k: (int, int)|
            entries_map(s).contains_key(k) <==> (exists|i: int|
                0 <= i < s.len() && s[i].0@ == k),
    decreases s.len(),
{
    if s.len() == 0 {
    } else {
        lemma_entries_map_dom(s.drop_last());
        assert forall|k: (int, int)|
            (exists|i: int| 0 <= i < s.len() && s[i].0@ == k) implies entries_map(
            s,
        ).contains_key(k) by {
            let i = choose|i: int| 0 <= i < s.len() && s[i].0@ == k;
            if i < s.len() - 1 {
                assert(s.drop_last()[i].0@ == k);
            }
        }
        assert forall|k: (int, int)| entries_map(s).contains_key(k) implies (exists|i: int|
            0 <= i < s.len() && s[i].0@ == k) by {
            if k == s.last().0@ {
                assert(s[s.len() - 1].0@ == k);
            } else {
                let i = choose|i: int| 0 <= i < s.drop_last().len() && s.drop_last()[i].0@ == k;
                assert(s[i].0@ == k);
            }
        }
    }
}

/// Pairwise-distinct key views.
pub open spec fn distinct_keys(s: Seq<(PairKey, usize)>) -> bool {
    forall|i: int, j: int| 0 <= i < j < s.len() ==> s[i].0@ != s[j].0@
}

proof fn lemma_entries_map_value(s: Seq<(PairKey, usize)>)
    requires
        distinct_keys(s),
    ensures
        forall|i: int| 0 <= i < s.len() ==> entries_map(s)[s[i].0@] == s[i].1 as nat,
    decreases s.len(),
{
    if s.len() == 0 {
    } else {
        assert(distinct_keys(s.drop_last())) by {
            assert forall|i: int, j: int|
                0 <= i < j < s.drop_last().len() implies s.drop_last()[i].0@
                != s.drop_last()[j].0@ by {
                assert(s[i].0@ != s[j].0@);
            }
        }
        lemma_entries_map_value(s.drop_last());
        assert forall|i: int| 0 <= i < s.len() implies entries_map(s)[s[i].0@] == s[i].1 as nat by {
            if i < s.len() - 1 {
                assert(s[i].0@ != s.last().0@);
                assert(s.drop_last()[i] == s[i]);
            }
        }
    }
}

proof fn lemma_entries_map_len(s: Seq<(PairKey, usize)>)
    requires
        distinct_keys(s),
    ensures
        entries_map(s).dom().len() == s.len(),
    decreases s.len(),
{
    lemma_entries_map_dom(s);
    if s.len() == 0 {
        assert(entries_map(s).dom() =~= Set::<(int, int)>::empty());
    } else {
        assert(distinct_keys(s.drop_last())) by {
            assert forall|i: int, j: int|
                0 <= i < j < s.drop_last().len() implies s.drop_last()[i].0@
                != s.drop_last()[j].0@ by {
                assert(s[i].0@ != s[j].0@);
            }
        }
        lemma_entries_map_len(s.drop_last());
        lemma_entries_map_dom(s.drop_last());
        assert(!entries_map(s.drop_last()).dom().contains(s.last().0@)) by {
            if entries_map(s.drop_last()).contains_key(s.last().0@) {
                let i = choose|i: int|
                    0 <= i < s.drop_last().len() && s.drop_last()[i].0@ == s.last().0@;
                assert(s[i].0@ == s[s.len() - 1].0@);
            }
        }
        assert(entries_map(s).dom() =~= entries_map(s.drop_last()).dom().insert(s.last().0@));
    }
}

proof fn lemma_entries_map_update(s: Seq<(PairKey, usize)>, i: int, c: usize)
    requires
        distinct_keys(s),
        0 <= i < s.len(),
    ensures
        entries_map(s.update(i, (s[i].0, c))) == entries_map(s).insert(s[i].0@, c as nat),
    decreases s.len(),
{
    let t = s.update(i, (s[i].0, c));
    if i == s.len() - 1 {
        assert(t.drop_last() =~= s.drop_last());
        assert(entries_map(t) =~= entries_map(s).insert(s[i].0@, c as nat));
    } else {
        assert(distinct_keys(s.drop_last())) by {
            assert forall|x: int, y: int|
                0 <= x < y < s.drop_last().len() implies s.drop_last()[x].0@
                != s.drop_last()[y].0@ by {
                assert(s[x].0@ != s[y].0@);
            }
        }
        assert(s.drop_last()[i] == s[i]);
        lemma_entries_map_update(s.drop_last(), i, c);
        assert(t.drop_last() =~= s.drop_last().update(i, (s[i].0, c)));
        assert(t.last() == s.last());
        // the two inserts commute: the updated key differs from the last key
        assert(s[i].0@ != s.last().0@);
        assert(entries_map(s.drop_last()).insert(s[i].0@, c as nat).insert(
            s.last().0@,
            s.last().1 as nat,
        ) =~= entries_map(s.drop_last()).insert(s.last().0@, s.last().1 as nat).insert(
            s[i].0@,
            c as nat,
        ));
    }
}

proof fn lemma_entries_map_push(s: Seq<(PairKey, usize)>, e: (PairKey, usize))
    ensures
        entries_map(s.push(e)) == entries_map(s).insert(e.0@, e.1 as nat),
{
    assert(s.push(e).drop_last() =~= s);
    assert(s.push(e).last() == e);
    assert(entries_map(s.push(e)) =~= entries_map(s).insert(e.0@, e.1 as nat));
}

impl CountTable {
    /// The entries in insertion order, each as (key view, count).
    pub closed spec fn seq_view(&self) -> Seq<((int, int), nat)> {
        self.entries@.map_values(|e: (PairKey, usize)| (e.0@, e.1 as nat))
    }

    /// Keys pairwise distinct: each combination is counted in one entry.
    pub closed spec fn wf(&self) -> bool {
        distinct_keys(self.entries@)
    }

    /// How the entry sequence and the map agree on a well-formed table:
    /// the entries enumerate the mapping exactly once per key.
    pub proof fn lemma_seq_view(&self)
        requires
            self.wf(),
        ensures
            self.seq_view().len() == self@.dom().len(),
            self@.dom().finite(),
            forall|i: int|
                0 <= i < self.seq_view().len() ==> self@.contains_key(#[trigger] self.seq_view()[i].0)
                    && self@[self.seq_view()[i].0] == self.seq_view()[i].1,
            forall|k: (int, int)|
                self@.contains_key(k) ==> exists|i: int|
                    0 <= i < self.seq_view().len() && #[trigger] self.seq_view()[i].0 == k,
            forall|i: int, j: int|
                0 <= i < j < self.seq_view().len() ==> self.seq_view()[i].0 != self.seq_view()[j].0,
    {
        lemma_entries_map_dom(self.entries@);
        lemma_entries_map_value(self.entries@);
        lemma_entries_map_len(self.entries@);
        assert forall|k: (int, int)| self@.contains_key(k) implies exists|i: int|
            0 <= i < self.seq_view().len() && #[trigger] self.seq_view()[i].0 == k by {
            let i = choose|i: int| 0 <= i < self.entries@.len() && self.entries@[i].0@ == k;
            assert(self.seq_view()[i].0 == k);
        }
    }

    /// An empty table.
    pub fn new() -> (r: CountTable)
        ensures
            r.wf(),
            r@ == Map::<(int, int), nat>::empty(),
            r.seq_view().len() == 0,
    {
        CountTable { entries: Vec::new() }
    }

    fn find_index(&self, k: PairKey) -> (r: Option<usize>)
        ensures
            match r {
                Some(i) => i < self.entries@.len() && self.entries@[i as int].0 == k,
                None => forall|i: int| 0 <= i < self.entries@.len() ==> self.entries@[i].0@ != k@,
            },
    {
        let n = self.entries.len();
        let mut i: usize = 0;
        while i < n
            invariant
                n == self.entries@.len(),
                i <= n,
                forall|j: int| 0 <= j < i ==> self.entries@[j].0@ != k@,
            decreases n - i,
        {
            let e = &self.entries[i];
            if e.0.a == k.a && e.0.b == k.b {
                return Some(i);
            }
            i += 1;
        }
        None
    }

    /// The count under `k`, `None` when the combination is absent.
    pub fn get(&self, k: PairKey) -> (r: Option<usize>)
        requires
            self.wf(),
        ensures
            match r {
                Some(c) => self@.contains_key(k@) && c as nat == self@[k@],
                None => !self@.contains_key(k@),
            },
    {
        proof {
            lemma_entries_map_dom(self.entries@);
            lemma_entries_map_value(self.entries@);
        }
        match self.find_index(k) {
            Some(i) => Some(self.entries[i].1),
            None => None,
        }
    }

    /// Add one to the count under `k`, a missing key starting from zero.
    pub fn increment(&mut self, k: PairKey)
        requires
            old(self).wf(),
            old(self)@.contains_key(k@) ==> old(self)@[k@] < usize::MAX,
        ensures
            final(self).wf(),
            final(self)@ == bumped(old(self)@, k@),
    {
        proof {
            lemma_entries_map_dom(self.entries@);
            lemma_entries_map_value(self.entries@);
        }
        match self.find_index(k) {
            Some(i) => {
                let c = self.entries[i].1;
                proof {
                    lemma_entries_map_update(self.entries@, i as int, (c + 1) as usize);
                }
                self.entries.set(i, (k, c + 1));
                assert(self.entries@ =~= old(self).entries@.update(
                    i as int,
                    (old(self).entries@[i as int].0, (c + 1) as usize),
                ));
            },
            None => {
                proof {
                    lemma_entries_map_push(self.entries@, (k, 1));
                }
                self.entries.push((k, 1));
                assert forall|x: int, y: int|
                    0 <= x < y < self.entries@.len() implies self.entries@[x].0@
                    != self.entries@[y].0@ by {
                    if y == self.entries@.len() - 1 {
                        assert(self.entries@[x] == old(self).entries@[x]);
                    } else {
                        assert(self.entries@[x] == old(self).entries@[x]);
                        assert(self.entries@[y] == old(self).entries@[y]);
                    }
                }
            },
        }
    }

    /// Make sure `k` is present, inserting a zero count when it is absent
    /// and leaving an existing count untouched.
    pub fn ensure_key(&mut self, k: PairKey)
        requires
            old(self).wf(),
        ensures
            final(self).wf(),
            final(self)@ == zero_filled(old(self)@, k@),
    {
        proof {
            lemma_entries_map_dom(self.entries@);
        }
        match self.find_index(k) {
            Some(_) => {},
            None => {
                proof {
                    lemma_entries_map_push(self.entries@, (k, 0));
                }
                self.entries.push((k, 0));
                assert forall|x: int, y: int|
                    0 <= x < y < self.entries@.len() implies self.entries@[x].0@
                    != self.entries@[y].0@ by {
                    if y == self.entries@.len() - 1 {
                        assert(self.entries@[x] == old(self).entries@[x]);
                    } else {
                        assert(self.entries@[x] == old(self).entries@[x]);
                        assert(self.entries@[y] == old(self).entries@[y]);
                    }
                }
            },
        }
    }

    /// How many distinct combinations the table holds.
    pub fn len(&self) -> (r: usize)
        requires
            self.wf(),
        ensures
            r == self@.dom().len(),
            r == self.seq_view().len(),
    {
        proof {
            lemma_entries_map_len(self.entries@);
        }
        self.entries.len()
    }

    /// The entry at position `i` of the insertion order.
    pub fn entry_at(&self, i: usize) -> (r: (PairKey, usize))
        requires
            i < self.seq_view().len(),
        ensures
            (r.0@, r.1 as nat) == self.seq_view()[i as int],
    {
        let e = &self.entries[i];
        (e.0, e.1)
    }
}

} // verus!
