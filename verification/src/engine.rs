use vstd::prelude::*;
use vstd::seq_lib::*;
use vstd::set_lib::*;
use crate::hits::HitMapping;
use crate::hits::hit_set;
use crate::table::CountTable;
use crate::table::PairKey;
use crate::table::bumped;
use crate::errors::CountError;

verus! {

broadcast use vstd::set::group_set_axioms, vstd::seq_lib::group_seq_lib_default;

/// Fragment `f` contributes an increment to pair `p`: it has a passing hit
/// in both streams, on `p.0` in stream A and on `p.1` in stream B.
pub open spec fn contributes(
    am: Map<Seq<char>, Set<int>>,
    bm: Map<Seq<char>, Set<int>>,
    f: Seq<char>,
    p: (int, int),
) -> bool {
    &&& am.contains_key(f)
    &&& bm.contains_key(f)
    &&& am[f].contains(p.0)
    &&& bm[f].contains(p.1)
}

/// The fragments out of `frags` that contribute an increment to `p`.
pub open spec fn contributing(
    am: Map<Seq<char>, Set<int>>,
    bm: Map<Seq<char>, Set<int>>,
    frags: Set<Seq<char>>,
    p: (int, int),
) -> Set<Seq<char>> {
    Set::new(|f: Seq<char>| frags.contains(f) && contributes(am, bm, f, p))
}

/// How many fragments out of `frags` contribute an increment to `p`.
pub open spec fn pair_count_within(
    am: Map<Seq<char>, Set<int>>,
    bm: Map<Seq<char>, Set<int>>,
    frags: Set<Seq<char>>,
    p: (int, int),
) -> nat {
    contributing(am, bm, frags, p).len()
}

/// The count step one owes pair `p`: the number of (fragment, a, b)
/// triples of the cross-join over fragments seen in both streams.
pub open spec fn raw_count(
    am: Map<Seq<char>, Set<int>>,
    bm: Map<Seq<char>, Set<int>>,
    p: (int, int),
) -> nat {
    pair_count_within(am, bm, am.dom(), p)
}

/// The raw (pre-completion) table: exactly the observed combinations,
/// each with its cross-join count.
pub open spec fn raw_table(am: Map<Seq<char>, Set<int>>, bm: Map<Seq<char>, Set<int>>) -> Map<
    (int, int),
    nat,
> {
    Map::new(
        |p: (int, int)| raw_count(am, bm, p) > 0,
        |p: (int, int)| raw_count(am, bm, p),
    )
}

/// `m` holds exactly the pairs that some fragment of `frags` contributes
/// to, each with its count of contributing fragments.
pub open spec fn counts_match(
    m: Map<(int, int), nat>,
    am: Map<Seq<char>, Set<int>>,
    bm: Map<Seq<char>, Set<int>>,
    frags: Set<Seq<char>>,
) -> bool {
    forall|p: (int, int)|
        #![trigger m.contains_key(p)]
        #![trigger pair_count_within(am, bm, frags, p)]
        {
            &&& (m.contains_key(p) <==> pair_count_within(am, bm, frags, p) > 0)
            &&& (m.contains_key(p) ==> m[p] == pair_count_within(am, bm, frags, p))
        }
}

/// The first `i` fragment names, as a set.
pub open spec fn frags_done(fs: Seq<Seq<char>>, i: int) -> Set<Seq<char>> {
    fs.take(i).to_set()
}

/// The pairs the nested scan of one fragment's two hit lists has already
/// produced: all of rows `0..ja`, and columns `0..jb` of row `ja`.
pub open spec fn scanned(ha: Seq<usize>, hb: Seq<usize>, ja: int, jb: int, p: (int, int)) -> bool {
    ||| (exists|x: int, y: int|
        0 <= x < ja && 0 <= y < hb.len() && ha[x] == p.0 && hb[y] == p.1)
    ||| (0 <= ja < ha.len() && ha[ja] == p.0 && (exists|y: int| 0 <= y < jb && hb[y] == p.1))
}

/// Table state in the middle of scanning one fragment: the counts over the
/// finished fragments, plus one for each pair the scan has reached.
pub open spec fn scan_counts_match(
    m: Map<(int, int), nat>,
    am: Map<Seq<char>, Set<int>>,
    bm: Map<Seq<char>, Set<int>>,
    frags: Set<Seq<char>>,
    ha: Seq<usize>,
    hb: Seq<usize>,
    ja: int,
    jb: int,
) -> bool {
    forall|p: (int, int)|
        #![trigger m.contains_key(p)]
        #![trigger pair_count_within(am, bm, frags, p)]
        {
            &&& (m.contains_key(p) <==> pair_count_within(am, bm, frags, p) > 0 || scanned(
                ha,
                hb,
                ja,
                jb,
                p,
            ))
            &&& (m.contains_key(p) ==> m[p] == pair_count_within(am, bm, frags, p) + (
            if scanned(ha, hb, ja, jb, p) {
                1 as nat
            } else {
                0
            }))
        }
}

proof fn lemma_count_insert(
    am: Map<Seq<char>, Set<int>>,
    bm: Map<Seq<char>, Set<int>>,
    frags: Set<Seq<char>>,
    f: Seq<char>,
    p: (int, int),
)
    requires
        frags.finite(),
        !frags.contains(f),
    ensures
        pair_count_within(am, bm, frags.insert(f), p) == pair_count_within(am, bm, frags, p) + (
        if contributes(am, bm, f, p) {
            1 as int
        } else {
            0
        }),
{
    let s0 = contributing(am, bm, frags, p);
    let s1 = contributing(am, bm, frags.insert(f), p);
    lemma_len_subset(s0, frags);
    if contributes(am, bm, f, p) {
        assert(s1 =~= s0.insert(f));
    } else {
        assert(s1 =~= s0);
    }
}

proof fn lemma_count_le(
    am: Map<Seq<char>, Set<int>>,
    bm: Map<Seq<char>, Set<int>>,
    frags: Set<Seq<char>>,
    p: (int, int),
)
    requires
        frags.finite(),
    ensures
        pair_count_within(am, bm, frags, p) <= frags.len(),
{
    lemma_len_subset(contributing(am, bm, frags, p), frags);
}

proof fn lemma_take_to_set_step(s: Seq<Seq<char>>, i: int)
    requires
        0 <= i < s.len(),
    ensures
        frags_done(s, i + 1) =~= frags_done(s, i).insert(s[i]),
{
    assert forall|x: Seq<char>| frags_done(s, i + 1).contains(x) implies frags_done(
        s,
        i,
    ).insert(s[i]).contains(x) by {
        let j = choose|j: int| 0 <= j < s.take(i + 1).len() && #[trigger] s.take(i + 1)[j] == x;
        if j < i {
            assert(s.take(i)[j] == x);
        }
    }
    assert forall|x: Seq<char>| frags_done(s, i).insert(s[i]).contains(x) implies frags_done(
        s,
        i + 1,
    ).contains(x) by {
        if x == s[i] {
            assert(s.take(i + 1)[i] == x);
        } else {
            let j = choose|j: int| 0 <= j < s.take(i).len() && #[trigger] s.take(i)[j] == x;
            assert(s.take(i + 1)[j] == x);
        }
    }
}

proof fn lemma_take_done_card(s: Seq<Seq<char>>, i: int)
    requires
        s.no_duplicates(),
        0 <= i <= s.len(),
    ensures
        frags_done(s, i).finite(),
        frags_done(s, i).len() == i,
{
    assert(s.take(i).no_duplicates()) by {
        assert forall|x: int, y: int|
            0 <= x < s.take(i).len() && 0 <= y < s.take(i).len() && x != y implies s.take(i)[x]
            != s.take(i)[y] by {
            assert(s[x] == s.take(i)[x] && s[y] == s.take(i)[y]);
        }
    }
    s.take(i).unique_seq_to_set();
}

/// Step one: the cross-join co-occurrence count. For every fragment seen
/// with a passing hit in both streams, every combination of one stream-A
/// hit and one stream-B hit gets one increment — a multi-mapping fragment
/// contributes one increment per combination, not one per fragment.
#[verifier::loop_isolation(false)]
pub fn aggregate(a: &HitMapping, b: &HitMapping) -> (t: CountTable)
    requires
        a.wf(),
        b.wf(),
    ensures
        t.wf(),
        t@ == raw_table(a@, b@),
{
    let ghost am = a@;
    let ghost bm = b@;
    let ghost fs = a.frag_seq();
    proof {
        a.lemma_frags();
        b.lemma_frags();
    }
    let mut t = CountTable::new();
    let n = a.num_fragments();
    let mut i: usize = 0;
    assert(fs.take(0) =~= Seq::<Seq<char>>::empty());
    assert(frags_done(fs, 0) =~= Set::<Seq<char>>::empty());
    proof {
        assert forall|p: (int, int)| pair_count_within(am, bm, frags_done(fs, 0), p) == 0 by {
            assert(contributing(am, bm, frags_done(fs, 0), p) =~= Set::<Seq<char>>::empty());
        }
    }
    while i < n
        invariant
            i <= n,
            t.wf(),
            counts_match(t@, am, bm, frags_done(fs, i as int)),
        decreases n - i,
    {
        let ghost done = frags_done(fs, i as int);
        proof {
            lemma_take_done_card(fs, i as int);
            lemma_take_done_card(fs, i as int + 1);
            lemma_take_to_set_step(fs, i as int);
            // the current fragment is new: names are pairwise distinct
            if done.contains(fs[i as int]) {
                let j = choose|j: int| 0 <= j < fs.take(i as int).len() && #[trigger] fs.take(i as int)[j] == fs[i as int];
                assert(fs[j] == fs[i as int]);
                assert(false);
            }
        }
        let f = a.fragment_at(i);
        let ghost fv = fs[i as int];
        match b.get(f) {
            None => {
                proof {
                    assert forall|p: (int, int)|
                        pair_count_within(am, bm, frags_done(fs, i as int + 1), p)
                        == pair_count_within(am, bm, done, p) by {
                        lemma_count_insert(am, bm, done, fv, p);
                    }
                }
            },
            Some(hb) => {
                let ha = a.hits_at(i);
                let ghost hav = ha@;
                let ghost hbv = hb@;
                let na = ha.len();
                let mut ja: usize = 0;
                while ja < na
                    invariant
                        ja <= na,
                        t.wf(),
                        scan_counts_match(t@, am, bm, done, hav, hbv, ja as int, 0),
                    decreases na - ja,
                {
                    let ra = ha[ja];
                    let nb = hb.len();
                    let mut jb: usize = 0;
                    while jb < nb
                        invariant
                            jb <= nb,
                            t.wf(),
                            scan_counts_match(t@, am, bm, done, hav, hbv, ja as int, jb as int),
                        decreases nb - jb,
                    {
                        let rb = hb[jb];
                        let ghost p0 = (ra as int, rb as int);
                        proof {
                            lemma_count_le(am, bm, done, p0);
                            // this pair has not been produced for this fragment yet
                            if scanned(hav, hbv, ja as int, jb as int, p0) {
                                if exists|x: int, y: int|
                                    0 <= x < ja && 0 <= y < hbv.len() && hav[x] == p0.0 && hbv[y]
                                    == p0.1 {
                                    let (x, y) = choose|x: int, y: int|
                                        0 <= x < ja && 0 <= y < hbv.len() && hav[x] == p0.0
                                            && hbv[y] == p0.1;
                                    assert(hav[x] == hav[ja as int]);
                                    assert(false);
                                } else {
                                    let y = choose|y: int| 0 <= y < jb && hbv[y] == p0.1;
                                    assert(hbv[y] == hbv[jb as int]);
                                    assert(false);
                                }
                            }
                        }
                        let ghost before = t@;
                        t.increment(PairKey { a: ra, b: rb });
                        proof {
                            assert(t@ == bumped(before, p0));
                            assert(scanned(hav, hbv, ja as int, jb as int + 1, p0)) by {
                                assert(hav[ja as int] == p0.0);
                                assert(hbv[jb as int] == p0.1);
                            }
                            assert forall|p: (int, int)|
                                scanned(hav, hbv, ja as int, jb as int, p) implies scanned(
                                hav,
                                hbv,
                                ja as int,
                                jb as int + 1,
                                p,
                            ) by {
                                if !(exists|x: int, y: int|
                                    0 <= x < ja && 0 <= y < hbv.len() && hav[x] == p.0 && hbv[y]
                                    == p.1) {
                                    let y = choose|y: int| 0 <= y < jb && hbv[y] == p.1;
                                    assert(0 <= y < jb as int + 1 && hbv[y] == p.1);
                                }
                            }
                            assert forall|p: (int, int)|
                                p != p0 && scanned(hav, hbv, ja as int, jb as int + 1, p) implies scanned(
                                hav,
                                hbv,
                                ja as int,
                                jb as int,
                                p,
                            ) by {
                                if !(exists|x: int, y: int|
                                    0 <= x < ja && 0 <= y < hbv.len() && hav[x] == p.0 && hbv[y]
                                    == p.1) {
                                    let y = choose|y: int| 0 <= y < jb + 1 && hbv[y] == p.1;
                                    assert(hav[ja as int] == p.0);
                                    if y == jb {
                                        assert(p == p0);
                                        assert(false);
                                    }
                                }
                            }
                        }
                        jb += 1;
                    }
                    proof {
                        // a finished row folds into the next row's "rows before"
                        assert forall|p: (int, int)|
                            scanned(hav, hbv, ja as int + 1, 0, p) == scanned(
                            hav,
                            hbv,
                            ja as int,
                            nb as int,
                            p,
                        ) by {
                            if scanned(hav, hbv, ja as int + 1, 0, p) {
                                if exists|x: int, y: int|
                                    0 <= x < ja + 1 && 0 <= y < hbv.len() && hav[x] == p.0
                                        && hbv[y] == p.1 {
                                    let (x, y) = choose|x: int, y: int|
                                        0 <= x < ja + 1 && 0 <= y < hbv.len() && hav[x] == p.0
                                            && hbv[y] == p.1;
                                    if x < ja {
                                        assert(scanned(hav, hbv, ja as int, nb as int, p));
                                    } else {
                                        assert(x == ja as int);
                                        assert(hav[ja as int] == p.0);
                                        assert(0 <= y < nb && hbv[y] == p.1);
                                        assert(scanned(hav, hbv, ja as int, nb as int, p));
                                    }
                                } else {
                                    // the second disjunct is empty at column zero
                                    let y = choose|y: int| 0 <= y < 0 && hbv[y] == p.1;
                                    assert(false);
                                }
                            }
                            if scanned(hav, hbv, ja as int, nb as int, p) {
                                if exists|x: int, y: int|
                                    0 <= x < ja && 0 <= y < hbv.len() && hav[x] == p.0 && hbv[y]
                                    == p.1 {
                                    let (x, y) = choose|x: int, y: int|
                                        0 <= x < ja && 0 <= y < hbv.len() && hav[x] == p.0
                                            && hbv[y] == p.1;
                                    assert(0 <= x < ja + 1 && hav[x] == p.0 && hbv[y] == p.1);
                                    assert(scanned(hav, hbv, ja as int + 1, 0, p));
                                } else {
                                    let y = choose|y: int| 0 <= y < nb && hbv[y] == p.1;
                                    assert(hav[ja as int] == p.0 && hbv[y] == p.1);
                                    assert(scanned(hav, hbv, ja as int + 1, 0, p));
                                }
                            }
                        }
                    }
                    ja += 1;
                }
                proof {
                    // a fully scanned fragment contributes exactly its cross-join
                    assert forall|p: (int, int)|
                        scanned(hav, hbv, na as int, 0, p) == contributes(am, bm, fv, p) by {
                        if scanned(hav, hbv, na as int, 0, p) {
                            if exists|x: int, y: int|
                                0 <= x < na && 0 <= y < hbv.len() && hav[x] == p.0 && hbv[y]
                                == p.1 {
                                let (x, y) = choose|x: int, y: int|
                                    0 <= x < na && 0 <= y < hbv.len() && hav[x] == p.0 && hbv[y]
                                        == p.1;
                                assert(hit_set(hav).contains(p.0));
                                assert(hit_set(hbv).contains(p.1));
                            } else {
                                // the second disjunct is empty at column zero
                                let y = choose|y: int| 0 <= y < 0 && hbv[y] == p.1;
                                assert(false);
                            }
                        }
                        if contributes(am, bm, fv, p) {
                            assert(hit_set(hav).contains(p.0));
                            assert(hit_set(hbv).contains(p.1));
                            let x = choose|x: int| 0 <= x < hav.len() && hav[x] == p.0;
                            let y = choose|y: int| 0 <= y < hbv.len() && hbv[y] == p.1;
                            assert(0 <= x < na as int && 0 <= y < hbv.len() && hav[x] == p.0
                                && hbv[y] == p.1);
                            assert(scanned(hav, hbv, na as int, 0, p));
                        }
                    }
                    assert forall|p: (int, int)|
                        pair_count_within(am, bm, frags_done(fs, i as int + 1), p)
                        == pair_count_within(am, bm, done, p) + (if contributes(am, bm, fv, p) {
                        1 as int
                    } else {
                        0
                    }) by {
                        lemma_count_insert(am, bm, done, fv, p);
                    }
                }
            },
        }
        i += 1;
    }
    proof {
        assert(fs.take(n as int) =~= fs);
        assert(frags_done(fs, n as int) =~= am.dom());
        assert forall|p: (int, int)| #![all_triggers] true implies {
            &&& (t@.contains_key(p) <==> raw_table(am, bm).contains_key(p))
            &&& (t@.contains_key(p) ==> t@[p] == raw_table(am, bm)[p])
        } by {
            assert(t@.contains_key(p) <==> pair_count_within(am, bm, frags_done(fs, n as int), p)
                > 0);
        }
        assert(t@ =~= raw_table(am, bm));
    }
    t
}

/// All in-panel cells: the full cross-join of the two panels.
pub open spec fn grid(la: int, lb: int) -> Set<(int, int)> {
    Set::new(|p: (int, int)| 0 <= p.0 < la && 0 <= p.1 < lb)
}

/// The positional diagonal of two equally long panels.
pub open spec fn diagonal(n: int) -> Set<(int, int)> {
    Set::new(|p: (int, int)| 0 <= p.0 < n && p.1 == p.0)
}

/// `m` extended with an explicit zero count for every key of `want` it
/// lacks; keys already present keep their counts.
pub open spec fn completed_with(m: Map<(int, int), nat>, want: Set<(int, int)>) -> Map<
    (int, int),
    nat,
> {
    Map::new(
        |p: (int, int)| m.contains_key(p) || want.contains(p),
        |p: (int, int)|
            if m.contains_key(p) {
                m[p]
            } else {
                0
            },
    )
}

/// Which completion step two performs: the full cross-join of both panels,
/// or only the positional diagonal of two equally long panels.
#[derive(Clone, Copy, PartialEq, Eq, Structural, Debug)]
pub enum CompletionMode {
    Matrix,
    Paired,
}

/// The keys completion owes the table under each mode.
pub open spec fn required_cells(mode: CompletionMode, la: int, lb: int) -> Set<(int, int)> {
    match mode {
        CompletionMode::Matrix => grid(la, lb),
        CompletionMode::Paired => diagonal(la),
    }
}

/// The cells of the grid walked so far: all of rows `0..ai`, and columns
/// `0..bi` of row `ai`.
spec fn cells_before(lb: int, ai: int, bi: int) -> Set<(int, int)> {
    Set::new(|p: (int, int)| (0 <= p.0 < ai && 0 <= p.1 < lb) || (p.0 == ai && 0 <= p.1 < bi))
}

/// Matrix-mode step two: walk the full cross-join of both panels and give
/// every missing combination an explicit zero count.
#[verifier::loop_isolation(false)]
pub fn complete_matrix(t: &mut CountTable, len_a: usize, len_b: usize)
    requires
        old(t).wf(),
    ensures
        final(t).wf(),
        final(t)@ == completed_with(old(t)@, grid(len_a as int, len_b as int)),
{
    let ghost m0 = t@;
    let mut ai: usize = 0;
    assert(t@ =~= completed_with(m0, cells_before(len_b as int, 0, 0)));
    while ai < len_a
        invariant
            ai <= len_a,
            t.wf(),
            t@ == completed_with(m0, cells_before(len_b as int, ai as int, 0)),
        decreases len_a - ai,
    {
        let mut bi: usize = 0;
        while bi < len_b
            invariant
                bi <= len_b,
                t.wf(),
                t@ == completed_with(m0, cells_before(len_b as int, ai as int, bi as int)),
            decreases len_b - bi,
        {
            t.ensure_key(PairKey { a: ai, b: bi });
            proof {
                assert(t@ =~= completed_with(
                    m0,
                    cells_before(len_b as int, ai as int, bi as int + 1),
                ));
            }
            bi += 1;
        }
        proof {
            assert(cells_before(len_b as int, ai as int, len_b as int) =~= cells_before(
                len_b as int,
                ai as int + 1,
                0,
            ));
        }
        ai += 1;
    }
    proof {
        assert(cells_before(len_b as int, len_a as int, 0) =~= grid(len_a as int, len_b as int));
    }
}

/// Paired-mode step two: walk the positional diagonal and give every
/// missing `(i, i)` an explicit zero count. Off-diagonal combinations
/// observed in step one are retained untouched.
#[verifier::loop_isolation(false)]
pub fn complete_paired(t: &mut CountTable, len: usize)
    requires
        old(t).wf(),
    ensures
        final(t).wf(),
        final(t)@ == completed_with(old(t)@, diagonal(len as int)),
{
    let ghost m0 = t@;
    let mut i: usize = 0;
    assert(t@ =~= completed_with(m0, diagonal(0)));
    while i < len
        invariant
            i <= len,
            t.wf(),
            t@ == completed_with(m0, diagonal(i as int)),
        decreases len - i,
    {
        t.ensure_key(PairKey { a: i, b: i });
        proof {
            assert(t@ =~= completed_with(m0, diagonal(i as int + 1)));
        }
        i += 1;
    }
}

/// Step two under the configured mode. Paired mode demands two panels of
/// the same size and otherwise fails, leaving the table untouched.
pub fn complete(
    t: &mut CountTable,
    mode: CompletionMode,
    len_a: usize,
    len_b: usize,
) -> (r: Result<(), CountError>)
    requires
        old(t).wf(),
    ensures
        final(t).wf(),
        r is Ok <==> (mode is Matrix || len_a == len_b),
        r is Ok ==> final(t)@ == completed_with(
            old(t)@,
            required_cells(mode, len_a as int, len_b as int),
        ),
        r is Err ==> *final(t) == *old(t) && r == Err::<(), CountError>(
            CountError::PanelSizeMismatch { len_a, len_b },
        ),
{
    match mode {
        CompletionMode::Matrix => {
            complete_matrix(t, len_a, len_b);
            Ok(())
        },
        CompletionMode::Paired => {
            if len_a != len_b {
                Err(CountError::PanelSizeMismatch { len_a, len_b })
            } else {
                complete_paired(t, len_a);
                Ok(())
            }
        },
    }
}

/// The whole engine: check the configuration, count the cross-join of
/// every fragment seen in both streams, then complete the table under the
/// configured mode. The panel-size check precedes all counting work.
pub fn build_count_table(
    a: &HitMapping,
    b: &HitMapping,
    len_a: usize,
    len_b: usize,
    mode: CompletionMode,
) -> (r: Result<CountTable, CountError>)
    requires
        a.wf(),
        b.wf(),
    ensures
        mode is Paired && len_a != len_b ==> r == Err::<CountTable, CountError>(
            CountError::PanelSizeMismatch { len_a, len_b },
        ),
        mode is Matrix || len_a == len_b ==> (r matches Ok(t) && t.wf() && t@ == completed_with(
            raw_table(a@, b@),
            required_cells(mode, len_a as int, len_b as int),
        )),
{
    if matches!(mode, CompletionMode::Paired) && len_a != len_b {
        return Err(CountError::PanelSizeMismatch { len_a, len_b });
    }
    let mut t = aggregate(a, b);
    match complete(&mut t, mode, len_a, len_b) {
        Ok(()) => Ok(t),
        Err(e) => Err(e),
    }
}

/// Completion is additive-only: every key/count pair of the table it
/// starts from appears unchanged in the completed table.
pub proof fn lemma_completion_additive(m: Map<(int, int), nat>, want: Set<(int, int)>)
    ensures
        forall|p: (int, int)| #[trigger]
            m.contains_key(p) ==> completed_with(m, want).contains_key(p) && completed_with(
                m,
                want,
            )[p] == m[p],
{
}

/// Completion is idempotent: completing an already-completed table yields
/// the same table, with no count disturbed.
pub proof fn lemma_completion_idempotent(m: Map<(int, int), nat>, want: Set<(int, int)>)
    ensures
        completed_with(completed_with(m, want), want) == completed_with(m, want),
{
    assert(completed_with(completed_with(m, want), want) =~= completed_with(m, want));
}

/// Every pair counted by step one is witnessed: some fragment present in
/// both mappings has that exact combination in its cross-join, and the
/// count is the number of such fragments.
pub proof fn lemma_raw_count_witnessed(
    am: Map<Seq<char>, Set<int>>,
    bm: Map<Seq<char>, Set<int>>,
    p: (int, int),
)
    requires
        am.dom().finite(),
        raw_table(am, bm).contains_key(p),
    ensures
        raw_table(am, bm)[p] == raw_count(am, bm, p),
        exists|f: Seq<char>| contributes(am, bm, f, p),
{
    let s = contributing(am, bm, am.dom(), p);
    lemma_len_subset(s, am.dom());
    assert(s.len() > 0);
    assert(s.contains(s.choose()));
    assert(contributes(am, bm, s.choose(), p));
}

spec fn grid_row_prefix(la: int, lb: int, j: int) -> Set<(int, int)> {
    Set::new(|p: (int, int)| (0 <= p.0 < la && 0 <= p.1 < lb) || (p.0 == la && 0 <= p.1 < j))
}

proof fn lemma_grid_prefix_card(la: int, lb: int, j: int)
    requires
        la >= 0,
        lb >= 0,
        0 <= j <= lb,
    ensures
        grid_row_prefix(la, lb, j).finite(),
        grid_row_prefix(la, lb, j).len() == la * lb + j,
    decreases la, j,
{
    if j > 0 {
        lemma_grid_prefix_card(la, lb, j - 1);
        assert(!grid_row_prefix(la, lb, j - 1).contains((la, j - 1)));
        assert(grid_row_prefix(la, lb, j) =~= grid_row_prefix(la, lb, j - 1).insert((la, j - 1)));
    } else if la > 0 {
        lemma_grid_prefix_card(la - 1, lb, lb);
        assert(grid_row_prefix(la, lb, 0) =~= grid_row_prefix(la - 1, lb, lb));
        assert((la - 1) * lb + lb == la * lb) by (nonlinear_arith);
    } else {
        assert(grid_row_prefix(0, lb, 0) =~= Set::<(int, int)>::empty());
    }
}

/// The full cross-join of an `la`-name panel and an `lb`-name panel holds
/// exactly `la * lb` cells.
pub proof fn lemma_grid_card(la: int, lb: int)
    requires
        la >= 0,
        lb >= 0,
    ensures
        grid(la, lb).finite(),
        grid(la, lb).len() == la * lb,
{
    lemma_grid_prefix_card(la, lb, 0);
    assert(grid(la, lb) =~= grid_row_prefix(la, lb, 0));
}

/// Matrix-mode completion is dense: when the raw table holds no off-panel
/// keys, the completed table holds every in-panel combination and exactly
/// `la * lb` keys in all.
pub proof fn lemma_matrix_completion_dense(m: Map<(int, int), nat>, la: int, lb: int)
    requires
        la >= 0,
        lb >= 0,
        forall|p: (int, int)| #[trigger] m.contains_key(p) ==> grid(la, lb).contains(p),
    ensures
        completed_with(m, grid(la, lb)).dom() =~= grid(la, lb),
        completed_with(m, grid(la, lb)).dom().len() == la * lb,
        forall|a: int, b: int|
            0 <= a < la && 0 <= b < lb ==> completed_with(m, grid(la, lb)).contains_key((a, b)),
{
    lemma_grid_card(la, lb);
    assert(completed_with(m, grid(la, lb)).dom() =~= grid(la, lb));
}

/// Paired-mode completion puts every diagonal key in the table, with a
/// defined (possibly zero) count: zero for keys step one never saw, the
/// step-one count for the rest.
pub proof fn lemma_paired_completion_diagonal(m: Map<(int, int), nat>, n: int, i: int)
    requires
        0 <= i < n,
    ensures
        completed_with(m, diagonal(n)).contains_key((i, i)),
        !m.contains_key((i, i)) ==> completed_with(m, diagonal(n))[(i, i)] == 0,
        m.contains_key((i, i)) ==> completed_with(m, diagonal(n))[(i, i)] == m[(i, i)],
{
}

} // verus!
