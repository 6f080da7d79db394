use vstd::prelude::*;
use crate::table::CountTable;
use crate::errors::CountError;
use crate::hits::HitMapping;
use crate::engine::CompletionMode;
use crate::engine::build_count_table;
use crate::engine::completed_with;
use crate::engine::raw_table;
use crate::engine::required_cells;

verus! {

/// Row `row` renders entry `e` of the table: the sample name, the two
/// reference names the entry's ids select, and the count.
pub open spec fn row_resolves(
    row: (String, String, String, usize),
    e: ((int, int), nat),
    sample: Seq<char>,
    names_a: Seq<String>,
    names_b: Seq<String>,
) -> bool {
    &&& 0 <= e.0.0 < names_a.len()
    &&& 0 <= e.0.1 < names_b.len()
    &&& row.0@ == sample
    &&& row.1@ == names_a[e.0.0]@
    &&& row.2@ == names_b[e.0.1]@
    &&& row.3 as nat == e.1
}

/// Resolve every counted pair back to its reference names, one output row
/// per table entry, in table order. A pair whose id falls outside its
/// name list is an internal-consistency breach and fails the run rather
/// than producing wrong output; success is owed exactly when every id is
/// in range.
#[verifier::loop_isolation(false)]
pub fn resolve_rows(
    sample: &String,
    t: &CountTable,
    names_a: &Vec<String>,
    names_b: &Vec<String>,
) -> (r: Result<Vec<(String, String, String, usize)>, CountError>)
    requires
        t.wf(),
    ensures
        match r {
            Ok(rows) => {
                &&& rows@.len() == t.seq_view().len()
                &&& forall|i: int|
                    0 <= i < rows@.len() ==> row_resolves(
                        #[trigger] rows@[i],
                        t.seq_view()[i],
                        sample@,
                        names_a@,
                        names_b@,
                    )
            },
            Err(e) => {
                &&& exists|i: int|
                    0 <= i < t.seq_view().len() && !(0 <= (#[trigger] t.seq_view()[i]).0.0
                        < names_a@.len() && 0 <= t.seq_view()[i].0.1 < names_b@.len())
                &&& exists|i: int|
                    {
                        &&& 0 <= i < t.seq_view().len()
                        &&& !(0 <= (#[trigger] t.seq_view()[i]).0.0 < names_a@.len() && 0
                            <= t.seq_view()[i].0.1 < names_b@.len())
                        &&& forall|j: int|
                            0 <= j < i ==> 0 <= (#[trigger] t.seq_view()[j]).0.0 < names_a@.len()
                                && 0 <= t.seq_view()[j].0.1 < names_b@.len()
                        &&& e matches CountError::ReferenceIdOutOfRange { a, b } && a as int
                            == t.seq_view()[i].0.0 && b as int == t.seq_view()[i].0.1
                    }
            },
        },
{
    let n = t.len();
    let mut rows: Vec<(String, String, String, usize)> = Vec::new();
    let mut i: usize = 0;
    while i < n
        invariant
            i <= n,
            rows@.len() == i,
            forall|j: int|
                0 <= j < i ==> row_resolves(
                    #[trigger] rows@[j],
                    t.seq_view()[j],
                    sample@,
                    names_a@,
                    names_b@,
                ),
        decreases n - i,
    {
        let (k, c) = t.entry_at(i);
        if k.a >= names_a.len() || k.b >= names_b.len() {
            proof {
                assert(!(0 <= (t.seq_view()[i as int]).0.0 < names_a@.len() && 0
                    <= t.seq_view()[i as int].0.1 < names_b@.len()));
                assert forall|j: int|
                    0 <= j < i as int implies 0 <= (#[trigger] t.seq_view()[j]).0.0
                    < names_a@.len() && 0 <= t.seq_view()[j].0.1 < names_b@.len() by {
                    assert(row_resolves(rows@[j], t.seq_view()[j], sample@, names_a@, names_b@));
                }
            }
            return Err(CountError::ReferenceIdOutOfRange { a: k.a, b: k.b });
        }
        let name_a = names_a[k.a].clone();
        let name_b = names_b[k.b].clone();
        rows.push((sample.clone(), name_a, name_b, c));
        i += 1;
    }
    Ok(rows)
}

/// Row `row` renders key `k` with count `c`: the sample name, the two
/// reference names the key's ids select, and the count.
pub open spec fn row_renders(
    row: (String, String, String, usize),
    k: (int, int),
    c: nat,
    sample: Seq<char>,
    names_a: Seq<String>,
    names_b: Seq<String>,
) -> bool {
    row_resolves(row, (k, c), sample, names_a, names_b)
}

/// How a run's output renders its completed table `cm`: one row per key,
/// every row carrying the sample name, and every key rendered by a row
/// with its two reference names and its count.
pub open spec fn output_renders(
    rows: Seq<(String, String, String, usize)>,
    cm: Map<(int, int), nat>,
    sample: Seq<char>,
    names_a: Seq<String>,
    names_b: Seq<String>,
) -> bool {
    &&& rows.len() == cm.dom().len()
    &&& forall|i: int| 0 <= i < rows.len() ==> (#[trigger] rows[i]).0@ == sample
    &&& forall|k: (int, int)| #[trigger]
        cm.contains_key(k) ==> exists|i: int|
            0 <= i < rows.len() && row_renders(rows[i], k, cm[k], sample, names_a, names_b)
}

/// A row list that resolves a well-formed table entry by entry renders the
/// table's map: as many rows as keys, and every key rendered by some row.
proof fn lemma_rows_render_map(
    t: &CountTable,
    rows: Seq<(String, String, String, usize)>,
    cm: Map<(int, int), nat>,
    sample: Seq<char>,
    names_a: Seq<String>,
    names_b: Seq<String>,
)
    requires
        t.wf(),
        t@ == cm,
        rows.len() == t.seq_view().len(),
        forall|i: int|
            0 <= i < rows.len() ==> row_resolves(
                #[trigger] rows[i],
                t.seq_view()[i],
                sample,
                names_a,
                names_b,
            ),
    ensures
        output_renders(rows, cm, sample, names_a, names_b),
{
    t.lemma_seq_view();
    assert forall|k: (int, int)| #[trigger] cm.contains_key(k) implies exists|i: int|
        0 <= i < rows.len() && row_renders(rows[i], k, cm[k], sample, names_a, names_b) by {
        let i = choose|i: int| 0 <= i < t.seq_view().len() && #[trigger] t.seq_view()[i].0 == k;
        assert(row_resolves(rows[i], t.seq_view()[i], sample, names_a, names_b));
        assert(row_renders(rows[i], k, cm[k], sample, names_a, names_b));
    }
}

/// The completion mode a run uses: the positional diagonal when paired
/// output was asked for, the full cross-join otherwise.
pub open spec fn run_mode(paired: bool) -> CompletionMode {
    if paired {
        CompletionMode::Paired
    } else {
        CompletionMode::Matrix
    }
}

/// The completed table a run owes: the raw cross-join counts, zero-filled
/// under the chosen mode.
pub open spec fn run_table(
    am: Map<Seq<char>, Set<int>>,
    bm: Map<Seq<char>, Set<int>>,
    paired: bool,
    la: int,
    lb: int,
) -> Map<(int, int), nat> {
    completed_with(raw_table(am, bm), required_cells(run_mode(paired), la, lb))
}

/// The whole run on two extracted hit mappings: count the cross-join,
/// complete the table under the chosen mode, and resolve every counted
/// pair back to its reference names — one output row per completed-table
/// key. Fails on mismatched panel sizes in paired mode (before any
/// counting), and on a counted id outside its panel (before any output).
pub fn count_run(
    sample: &String,
    a: &HitMapping,
    b: &HitMapping,
    names_a: &Vec<String>,
    names_b: &Vec<String>,
    paired: bool,
) -> (r: Result<Vec<(String, String, String, usize)>, CountError>)
    requires
        a.wf(),
        b.wf(),
    ensures
        paired && names_a@.len() != names_b@.len() ==> (r matches Err(e) && e matches
            CountError::PanelSizeMismatch { len_a, len_b } && len_a == names_a@.len() && len_b
            == names_b@.len()),
        !(paired && names_a@.len() != names_b@.len()) ==> match r {
            Ok(rows) => output_renders(
                rows@,
                run_table(a@, b@, paired, names_a@.len() as int, names_b@.len() as int),
                sample@,
                names_a@,
                names_b@,
            ),
            Err(e) => {
                &&& e is ReferenceIdOutOfRange
                &&& exists|k: (int, int)| #[trigger]
                    run_table(a@, b@, paired, names_a@.len() as int, names_b@.len() as int)
                        .contains_key(k) && !(0 <= k.0 < names_a@.len() && 0 <= k.1
                        < names_b@.len())
            },
        },
{
    let mode = if paired {
        CompletionMode::Paired
    } else {
        CompletionMode::Matrix
    };
    let t = match build_count_table(a, b, names_a.len(), names_b.len(), mode) {
        Ok(t) => t,
        Err(e) => {
            return Err(e);
        },
    };
    let ghost cm = run_table(a@, b@, paired, names_a@.len() as int, names_b@.len() as int);
    proof {
        assert(mode == run_mode(paired));
    }
    match resolve_rows(sample, &t, names_a, names_b) {
        Ok(rows) => {
            proof {
                lemma_rows_render_map(&t, rows@, cm, sample@, names_a@, names_b@);
            }
            return Ok(rows);
        },
        Err(e) => {
            proof {
                t.lemma_seq_view();
                let i = choose|i: int|
                    0 <= i < t.seq_view().len() && !(0 <= (#[trigger] t.seq_view()[i]).0.0
                        < names_a@.len() && 0 <= t.seq_view()[i].0.1 < names_b@.len());
                assert(cm.contains_key(t.seq_view()[i].0));
                assert(exists|k: (int, int)| #[trigger]
                    cm.contains_key(k) && !(0 <= k.0 < names_a@.len() && 0 <= k.1
                        < names_b@.len()));
            }
            return Err(e);
        },
    }
}

} // verus!
