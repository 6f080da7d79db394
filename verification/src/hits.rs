use vstd::prelude::*;
use vstd::pervasive::VecAdditionalExecFns;

verus! {

/// The set of reference ids a hit list stands for.
pub open spec fn hit_set(s: Seq<usize>) -> Set<int> {
    Set::new(|r: int| exists|i: int| 0 <= i < s.len() && s[i] == r)
}

/// The mapping a sequence of (fragment, hit list) entries stands for,
/// later entries winning. Well-formed mappings keep their fragment names
/// pairwise distinct, so for them the order carries no information.
pub open spec fn hits_map(s: Seq<(String, Vec<usize>)>) -> Map<Seq<char>, Set<int>>
    decreases s.len(),
{
    if s.len() == 0 {
        Map::empty()
    } else {
        hits_map(s.drop_last()).insert(s.last().0@, hit_set(s.last().1@))
    }
}

/// `m` with `r` added to the hit set of `f`, an absent fragment starting
/// from the empty set.
pub open spec fn hits_inserted(m: Map<Seq<char>, Set<int>>, f: Seq<char>, r: int) -> Map<
    Seq<char>,
    Set<int>,
> {
    m.insert(f, (if m.contains_key(f) { m[f] } else { Set::empty() }).insert(r))
}

/// Pairwise-distinct fragment names.
pub open spec fn distinct_frags(s: Seq<(String, Vec<usize>)>) -> bool {
    forall|i: int, j: int| 0 <= i < j < s.len() ==> s[i].0@ != s[j].0@
}

/// Per-fragment set of passing reference ids for one stream. Abstractly a
/// finite map from fragment name to a set of reference ids; concretely a
/// vector of entries with pairwise-distinct names and duplicate-free,
/// non-empty hit lists — a fragment with no passing hit is simply absent.
pub struct HitMapping {
    entries: Vec<(String, Vec<usize>)>,
}

impl View for HitMapping {
    type V = Map<Seq<char>, Set<int>>;

    closed spec fn view(&self) -> Map<Seq<char>, Set<int>> {
        hits_map(self.entries@)
    }
}

proof fn lemma_hits_map_dom(s: Seq<(String, Vec<usize>)>)
    ensures
        hits_map(s).dom().finite(),
        forall|k: Seq<char>|
            hits_map(s).contains_key(k) <==> (exists|i: int| 0 <= i < s.len() && s[i].0@ == k),
    decreases s.len(),
{
    if s.len() == 0 {
    } else {
        lemma_hits_map_dom(s.drop_last());
        assert forall|k: Seq<char>|
            (exists|i: int| 0 <= i < s.len() && s[i].0@ == k) implies hits_map(s).contains_key(
            k,
        ) by {
            let i = choose|i: int| 0 <= i < s.len() && s[i].0@ == k;
            if i < s.len() - 1 {
                assert(s.drop_last()[i].0@ == k);
            }
        }
        assert forall|k: Seq<char>| hits_map(s).contains_key(k) implies (exists|i: int|
            0 <= i < s.len() && s[i].0@ == k) by {
            if k == s.last().0@ {
                assert(s[s.len() - 1].0@ == k);
            } else {
                let i = choose|i: int| 0 <= i < s.drop_last().len() && s.drop_last()[i].0@ == k;
                assert(s[i].0@ == k);
            }
        }
    }
}

proof fn lemma_distinct_drop_last(s: Seq<(String, Vec<usize>)>)
    requires
        distinct_frags(s),
        s.len() > 0,
    ensures
        distinct_frags(s.drop_last()),
{
    assert forall|i: int, j: int|
        0 <= i < j < s.drop_last().len() implies s.drop_last()[i].0@ != s.drop_last()[j].0@ by {
        assert(s[i].0@ != s[j].0@);
    }
}

proof fn lemma_hits_map_value(s: Seq<(String, Vec<usize>)>)
    requires
        distinct_frags(s),
    ensures
        forall|i: int| 0 <= i < s.len() ==> hits_map(s)[s[i].0@] == hit_set(s[i].1@),
    decreases s.len(),
{
    if s.len() == 0 {
    } else {
        lemma_distinct_drop_last(s);
        lemma_hits_map_value(s.drop_last());
        assert forall|i: int| 0 <= i < s.len() implies hits_map(s)[s[i].0@] == hit_set(
            s[i].1@,
        ) by {
            if i < s.len() - 1 {
                assert(s[i].0@ != s.last().0@);
                assert(s.drop_last()[i] == s[i]);
            }
        }
    }
}

proof fn lemma_hits_map_update(s: Seq<(String, Vec<usize>)>, i: int, v: Vec<usize>)
    requires
        distinct_frags(s),
        0 <= i < s.len(),
    ensures
        hits_map(s.update(i, (s[i].0, v))) == hits_map(s).insert(s[i].0@, hit_set(v@)),
    decreases s.len(),
{
    let t = s.update(i, (s[i].0, v));
    if i == s.len() - 1 {
        assert(t.drop_last() =~= s.drop_last());
        assert(hits_map(t) =~= hits_map(s).insert(s[i].0@, hit_set(v@)));
    } else {
        lemma_distinct_drop_last(s);
        assert(s.drop_last()[i] == s[i]);
        lemma_hits_map_update(s.drop_last(), i, v);
        assert(t.drop_last() =~= s.drop_last().update(i, (s[i].0, v)));
        assert(t.last() == s.last());
        assert(s[i].0@ != s.last().0@);
        assert(hits_map(s.drop_last()).insert(s[i].0@, hit_set(v@)).insert(
            s.last().0@,
            hit_set(s.last().1@),
        ) =~= hits_map(s.drop_last()).insert(s.last().0@, hit_set(s.last().1@)).insert(
            s[i].0@,
            hit_set(v@),
        ));
    }
}

proof fn lemma_hit_set_push(s: Seq<usize>, r: usize)
    ensures
        hit_set(s.push(r)) =~= hit_set(s).insert(r as int),
{
    assert forall|x: int| hit_set(s.push(r)).contains(x) implies hit_set(s).insert(
        r as int,
    ).contains(x) by {
        let i = choose|i: int| 0 <= i < s.push(r).len() && s.push(r)[i] == x;
        if i < s.len() {
            assert(s[i] == x);
        }
    }
    assert forall|x: int| hit_set(s).insert(r as int).contains(x) implies hit_set(
        s.push(r),
    ).contains(x) by {
        if x == r as int {
            assert(s.push(r)[s.len() as int] == x);
        } else {
            let i = choose|i: int| 0 <= i < s.len() && s[i] == x;
            assert(s.push(r)[i] == x);
        }
    }
}

proof fn lemma_hits_map_push(s: Seq<(String, Vec<usize>)>, e: (String, Vec<usize>))
    ensures
        hits_map(s.push(e)) == hits_map(s).insert(e.0@, hit_set(e.1@)),
{
    assert(s.push(e).drop_last() =~= s);
    assert(s.push(e).last() == e);
    assert(hits_map(s.push(e)) =~= hits_map(s).insert(e.0@, hit_set(e.1@)));
}

impl HitMapping {
    /// The fragment names in insertion order.
    pub closed spec fn frag_seq(&self) -> Seq<Seq<char>> {
        self.entries@.map_values(|e: (String, Vec<usize>)| e.0@)
    }

    /// Names pairwise distinct, hit lists duplicate-free and non-empty.
    pub closed spec fn wf(&self) -> bool {
        &&& distinct_frags(self.entries@)
        &&& forall|i: int|
            0 <= i < self.entries@.len() ==> (#[trigger] self.entries@[i].1@).no_duplicates()
                && self.entries@[i].1@.len() > 0
    }

    /// The fragment sequence enumerates the mapping's domain exactly once
    /// per fragment.
    pub proof fn lemma_frags(&self)
        requires
            self.wf(),
        ensures
            self.frag_seq().no_duplicates(),
            self@.dom() =~= self.frag_seq().to_set(),
            self@.dom().finite(),
    {
        lemma_hits_map_dom(self.entries@);
        assert forall|k: Seq<char>| self@.dom().contains(k) implies self.frag_seq().to_set()
            .contains(k) by {
            let i = choose|i: int| 0 <= i < self.entries@.len() && self.entries@[i].0@ == k;
            assert(self.frag_seq()[i] == k);
        }
        assert forall|k: Seq<char>| self.frag_seq().to_set().contains(k) implies self@.dom()
            .contains(k) by {
            let i = choose|i: int| 0 <= i < self.frag_seq().len() && self.frag_seq()[i] == k;
            assert(self.entries@[i].0@ == k);
        }
    }

    /// An empty mapping.
    pub fn new() -> (r: HitMapping)
        ensures
            r.wf(),
            r@ == Map::<Seq<char>, Set<int>>::empty(),
            r.frag_seq().len() == 0,
    {
        HitMapping { entries: Vec::new() }
    }

    fn find_index(&self, fragment: &String) -> (r: Option<usize>)
        ensures
            match r {
                Some(i) => i < self.entries@.len() && self.entries@[i as int].0@ == fragment@,
                None => forall|i: int|
                    0 <= i < self.entries@.len() ==> self.entries@[i].0@ != fragment@,
            },
    {
        let n = self.entries.len();
        let mut i: usize = 0;
        while i < n
            invariant
                n == self.entries@.len(),
                i <= n,
                forall|j: int| 0 <= j < i ==> self.entries@[j].0@ != fragment@,
            decreases n - i,
        {
            if self.entries[i].0 == *fragment {
                return Some(i);
            }
            i += 1;
        }
        None
    }

    /// Record that `fragment` hit reference `ref_id` in this stream,
    /// deduplicating repeated hits on the same reference.
    pub fn insert(&mut self, fragment: String, ref_id: usize)
        requires
            old(self).wf(),
        ensures
            final(self).wf(),
            final(self)@ == hits_inserted(old(self)@, fragment@, ref_id as int),
    {
        proof {
            lemma_hits_map_dom(self.entries@);
            lemma_hits_map_value(self.entries@);
        }
        match self.find_index(&fragment) {
            Some(i) => {
                let mut entry: (String, Vec<usize>) = (String::new(), Vec::new());
                self.entries.set_and_swap(i, &mut entry);
                let (key, mut hv) = entry;
                let ghost hv0 = hv@;
                let mut present = false;
                let m = hv.len();
                let mut j: usize = 0;
                while j < m
                    invariant
                        m == hv@.len(),
                        j <= m,
                        hv@ == hv0,
                        present <==> exists|x: int| 0 <= x < j && hv@[x] == ref_id,
                    decreases m - j,
                {
                    if hv[j] == ref_id {
                        present = true;
                    }
                    j += 1;
                }
                proof {
                    if present {
                        assert(hit_set(hv0).contains(ref_id as int));
                        assert(hit_set(hv0).insert(ref_id as int) =~= hit_set(hv0));
                    }
                }
                if !present {
                    hv.push(ref_id);
                    proof {
                        lemma_hit_set_push(hv0, ref_id);
                    }
                    assert(hit_set(hv@) =~= hit_set(hv0).insert(ref_id as int));
                    assert(hv@.no_duplicates()) by {
                        assert(forall|x: int| 0 <= x < hv0.len() ==> hv@[x] == hv0[x]);
                    }
                }
                let mut entry2 = (key, hv);
                proof {
                    lemma_hits_map_update(old(self).entries@, i as int, entry2.1);
                }
                self.entries.set_and_swap(i, &mut entry2);
                assert(self.entries@ =~= old(self).entries@.update(
                    i as int,
                    (old(self).entries@[i as int].0, hv),
                ));
                assert(final(self).wf()) by {
                    assert forall|x: int, y: int|
                        0 <= x < y < self.entries@.len() implies self.entries@[x].0@
                        != self.entries@[y].0@ by {
                        assert(self.entries@[x].0@ == old(self).entries@[x].0@);
                        assert(self.entries@[y].0@ == old(self).entries@[y].0@);
                    }
                }
            },
            None => {
                let mut hv: Vec<usize> = Vec::new();
                let ghost empty_hits = hv@;
                hv.push(ref_id);
                proof {
                    lemma_hit_set_push(empty_hits, ref_id);
                    assert(hit_set(empty_hits) =~= Set::<int>::empty());
                }
                assert(hit_set(hv@) =~= Set::<int>::empty().insert(ref_id as int));
                proof {
                    lemma_hits_map_push(self.entries@, (fragment, hv));
                }
                let ghost before = self.entries@;
                self.entries.push((fragment, hv));
                assert(final(self).wf()) by {
                    assert forall|x: int, y: int|
                        0 <= x < y < self.entries@.len() implies self.entries@[x].0@
                        != self.entries@[y].0@ by {
                        assert(self.entries@[x] == before[x]);
                        if y < self.entries@.len() - 1 {
                            assert(self.entries@[y] == before[y]);
                        }
                    }
                }
            },
        }
    }

    /// How many fragments have at least one passing hit.
    pub fn num_fragments(&self) -> (r: usize)
        ensures
            r == self.frag_seq().len(),
    {
        self.entries.len()
    }

    /// The name of the fragment at position `i` of the insertion order.
    pub fn fragment_at(&self, i: usize) -> (r: &String)
        requires
            i < self.frag_seq().len(),
        ensures
            r@ == self.frag_seq()[i as int],
    {
        &self.entries[i].0
    }

    /// The hit list of the fragment at position `i`.
    pub fn hits_at(&self, i: usize) -> (r: &Vec<usize>)
        requires
            self.wf(),
            i < self.frag_seq().len(),
        ensures
            hit_set(r@) == self@[self.frag_seq()[i as int]],
            r@.no_duplicates(),
    {
        proof {
            lemma_hits_map_value(self.entries@);
        }
        &self.entries[i].1
    }

    /// The hit set of `fragment`, `None` when the fragment is absent.
    pub fn get(&self, fragment: &String) -> (r: Option<&Vec<usize>>)
        requires
            self.wf(),
        ensures
            match r {
                Some(v) => self@.contains_key(fragment@) && hit_set(v@) == self@[fragment@]
                    && v@.no_duplicates(),
                None => !self@.contains_key(fragment@),
            },
    {
        proof {
            lemma_hits_map_dom(self.entries@);
            lemma_hits_map_value(self.entries@);
        }
        match self.find_index(fragment) {
            Some(i) => Some(&self.entries[i].1),
            None => None,
        }
    }
}

} // verus!
