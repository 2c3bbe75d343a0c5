//! What a client run covers: its settings, and the cases it picks from the matrix.
use vstd::prelude::*;

use crate::config;
use crate::config::{BenchmarkCase, Operation};

verus! {

/// The load of a run, and how it is warmed up.
#[derive(Debug, Clone, Copy, PartialEq, Eq, Structural)]
pub struct RunSettings {
    /// Requests per second.
    pub rps: u64,
    /// Length of the measured run, in seconds.
    pub duration: u64,
    /// Length of the warm-up, in seconds.
    pub warmup: u64,
    /// The least number of operations of a warm-up.
    pub warmup_min_ops: u64,
}

impl RunSettings {
    /// The settings that quick mode replaces: 30 seconds of warm-up, 60 of measurement, 5 requests
    /// per second.
    pub fn with_quick_mode(self, quick: bool) -> (r: RunSettings)
        ensures
            !quick ==> r == self,
            quick ==> r == (RunSettings { rps: 5, duration: 60, warmup: 30, ..self }),
    {
        if quick {
            RunSettings { rps: 5, duration: 60, warmup: 30, warmup_min_ops: self.warmup_min_ops }
        } else {
            self
        }
    }

    /// Milliseconds between two requests.
    pub fn interval_ms(&self) -> (ms: u64)
        requires
            self.rps > 0,
        ensures
            ms == 1000nat / self.rps as nat,
    {
        1000 / self.rps
    }
}

/// Which cases of the matrix are run.
#[derive(Debug, Clone, Copy, PartialEq, Eq)]
pub struct CaseFilter {
    pub upload_only: bool,
    pub download_only: bool,
    pub file_size: Option<u64>,
    pub chunk_size: Option<u64>,
}

impl CaseFilter {
    /// The case passes every test that is set.
    pub open spec fn admits(self, case: BenchmarkCase) -> bool {
        &&& self.upload_only ==> case.operation == Operation::Upload
        &&& self.download_only ==> case.operation == Operation::Download
        &&& self.file_size matches Some(size) ==> case.file_size_mib == size
        &&& self.chunk_size matches Some(size) ==> case.chunk_size_mib == size
    }

    /// Whether the case passes every test that is set.
    pub fn is_admitted(&self, case: &BenchmarkCase) -> (r: bool)
        ensures
            r == self.admits(*case),
    {
        if self.upload_only && case.operation != Operation::Upload {
            return false;
        }
        if self.download_only && case.operation != Operation::Download {
            return false;
        }
        if let Some(size) = self.file_size {
            if case.file_size_mib != size {
                return false;
            }
        }
        if let Some(size) = self.chunk_size {
            if case.chunk_size_mib != size {
                return false;
            }
        }
        true
    }

    /// The cases of the matrix that are run, in the order of the matrix.
    pub fn selected_cases(&self) -> (r: Vec<BenchmarkCase>)
        ensures
            r@ == config::matrix().filter(|case: BenchmarkCase| self.admits(case)),
            forall|i: int|
                0 <= i < r@.len() ==> (self.file_size is Some ==> (#[trigger] r@[i]).file_size_mib
                    == self.file_size->Some_0),
            forall|i: int|
                0 <= i < r@.len() ==> (self.chunk_size is Some ==> (#[trigger] r@[i]).chunk_size_mib
                    == self.chunk_size->Some_0),
    {
        let cases: Vec<BenchmarkCase> = config::all_cases();
        let mut r: Vec<BenchmarkCase> = Vec::new();
        let mut i: usize = 0;
        let ghost admits = |case: BenchmarkCase| self.admits(case);
        proof {
            reveal(Seq::filter);
            assert(cases@.take(0).filter(admits) =~= seq![]);
        }
        while i < cases.len()
            invariant
                i <= cases@.len(),
                admits == (|case: BenchmarkCase| self.admits(case)),
                r@ == cases@.take(i as int).filter(admits),
            decreases cases@.len() - i,
        {
            proof {
                reveal(Seq::filter);
                assert(cases@.take(i + 1).drop_last() =~= cases@.take(i as int));
                assert(cases@.take(i + 1).last() == cases@[i as int]);
            }
            if self.is_admitted(&cases[i]) {
                r.push(cases[i]);
            }
            i = i + 1;
        }
        assert(cases@.take(cases@.len() as int) =~= cases@);
        proof {
            lemma_filter_keeps(cases@, admits);
            assert forall|i: int| 0 <= i < r@.len() implies admits(#[trigger] r@[i]) by {
                assert(r@.contains(r@[i]));
            }
        }
        r
    }
}

proof fn lemma_filter_keeps(s: Seq<BenchmarkCase>, admits: spec_fn(BenchmarkCase) -> bool)
    ensures
        forall|case: BenchmarkCase| #[trigger]
            s.filter(admits).contains(case) <==> s.contains(case) && admits(case),
    decreases s.len(),
{
    reveal(Seq::filter);
    if s.len() > 0 {
        let earlier = s.drop_last();
        let last = s.last();
        lemma_filter_keeps(earlier, admits);
        assert forall|case: BenchmarkCase| #[trigger]
            s.filter(admits).contains(case) <==> s.contains(case) && admits(case) by {
            assert(earlier.push(last) =~= s);
            if s.contains(case) {
                let i = choose|i: int| 0 <= i < s.len() && s[i] == case;
                if i < earlier.len() {
                    assert(earlier[i] == case);
                }
            }
            if earlier.contains(case) {
                let i = choose|i: int| 0 <= i < earlier.len() && earlier[i] == case;
                assert(s[i] == case);
            }
            assert(s[s.len() - 1] == last);
            let kept = earlier.filter(admits);
            assert(kept.contains(case) <==> earlier.contains(case) && admits(case));
            if admits(last) {
                let more = kept.push(last);
                assert(s.filter(admits) == more);
                assert(more[kept.len() as int] == last);
                if kept.contains(case) {
                    let i = choose|i: int| 0 <= i < kept.len() && kept[i] == case;
                    assert(more[i] == case);
                }
                if more.contains(case) {
                    let i = choose|i: int| 0 <= i < more.len() && more[i] == case;
                    if i < kept.len() {
                        assert(kept[i] == case);
                    }
                }
            } else {
                assert(s.filter(admits) == kept);
            }
        }
    }
}

/// A case is selected exactly if it is one of the matrix, has the file size that is asked for, if
/// one is, and the chunk size that is asked for, if one is, and is neither a download where uploads
/// alone are asked for nor an upload where downloads alone are.
pub proof fn lemma_selected(f: CaseFilter, r: Vec<BenchmarkCase>, case: BenchmarkCase)
    requires
        call_ensures(CaseFilter::selected_cases, (&f,), r),
    ensures
        r@.contains(case) <==> {
            &&& case.file_size_mib == 10 || case.file_size_mib == 100 || case.file_size_mib == 1000
            &&& case.chunk_size_mib == 1 || case.chunk_size_mib == 2 || case.chunk_size_mib == 4
                || case.chunk_size_mib == 8 || case.chunk_size_mib == 16 || case.chunk_size_mib == 32
                || case.chunk_size_mib == 64
            &&& f.file_size is None || f.file_size == Some(case.file_size_mib)
            &&& f.chunk_size is None || f.chunk_size == Some(case.chunk_size_mib)
            &&& !(f.upload_only && case.operation == Operation::Download)
            &&& !(f.download_only && case.operation == Operation::Upload)
        },
{
    lemma_filter_keeps(config::matrix(), |case: BenchmarkCase| f.admits(case));
    config::lemma_matrix_members(case);
}

/// Asking for more selects among what was selected before: whatever else is asked for, the cases of
/// one file size and one chunk size are those of the file size that are of the chunk size.
pub proof fn lemma_filters_combine(f: CaseFilter, g: CaseFilter, case: BenchmarkCase)
    requires
        g.upload_only == f.upload_only,
        g.download_only == f.download_only,
        f.file_size is None,
        f.chunk_size is None,
    ensures
        g.admits(case) <==> {
            &&& f.admits(case)
            &&& g.file_size is Some ==> case.file_size_mib == g.file_size->Some_0
            &&& g.chunk_size is Some ==> case.chunk_size_mib == g.chunk_size->Some_0
        },
{
}

/// The order of the matrix is kept, and no case comes twice.
pub proof fn lemma_selected_order(f: CaseFilter, r: Vec<BenchmarkCase>)
    requires
        call_ensures(CaseFilter::selected_cases, (&f,), r),
    ensures
        r@.no_duplicates(),
        forall|i: int, j: int|
            0 <= i < j < r@.len() ==> place(#[trigger] r@[i]) < place(#[trigger] r@[j]),
{
    lemma_filter_sorted(42, |case: BenchmarkCase| f.admits(case));
    assert(config::matrix().take(42) =~= config::matrix());
}

/// Where a case comes: by operation, then file size, then chunk size.
pub open spec fn place(case: BenchmarkCase) -> int {
    (if case.operation == Operation::Upload {
        0
    } else {
        1_000_000int
    }) + case.file_size_mib * 100 + case.chunk_size_mib
}

proof fn lemma_filter_sorted(n: int, admits: spec_fn(BenchmarkCase) -> bool)
    requires
        0 <= n <= 42,
    ensures
        ({
            let kept = config::matrix().take(n).filter(admits);
            &&& forall|i: int, j: int|
                0 <= i < j < kept.len() ==> place(#[trigger] kept[i]) < place(#[trigger] kept[j])
            &&& forall|i: int, m: int|
                0 <= i < kept.len() && n <= m < 42 ==> place(#[trigger] kept[i]) < place(
                    #[trigger] config::matrix()[m],
                )
        }),
    decreases n,
{
    reveal(Seq::filter);
    let s = config::matrix().take(n);
    if n > 0 {
        lemma_filter_sorted(n - 1, admits);
        assert(s.drop_last() =~= config::matrix().take(n - 1));
        assert(s.last() == config::matrix()[n - 1]);
        assert forall|m: int| n <= m < 42 implies place(config::matrix()[n - 1]) < place(
            #[trigger] config::matrix()[m],
        ) by {
            config::lemma_matrix_order(n - 1, m);
        }
        let (last, before) = (config::matrix()[n - 1], config::matrix().take(n - 1).filter(admits));
        let kept = s.filter(admits);
        if admits(last) {
            assert(kept == before.push(last));
            assert forall|i: int, j: int| 0 <= i < j < kept.len() implies place(#[trigger] kept[i])
                < place(#[trigger] kept[j]) by {
                assert(kept[i] == before[i]);
                if j < before.len() {
                    assert(kept[j] == before[j]);
                } else {
                    assert(kept[j] == config::matrix()[n - 1]);
                }
            }
            assert forall|i: int, m: int| 0 <= i < kept.len() && n <= m < 42 implies place(
                #[trigger] kept[i],
            ) < place(#[trigger] config::matrix()[m]) by {
                if i < before.len() {
                    assert(kept[i] == before[i]);
                } else {
                    assert(kept[i] == last);
                }
            }
        } else {
            assert(kept == before);
        }
    }
}

/// A filter that asks for nothing runs the whole matrix.
pub proof fn lemma_no_filter(f: CaseFilter)
    requires
        !f.upload_only,
        !f.download_only,
        f.file_size is None,
        f.chunk_size is None,
    ensures
        config::matrix().filter(|case: BenchmarkCase| f.admits(case)) == config::matrix(),
{
    lemma_filter_all(config::matrix(), |case: BenchmarkCase| f.admits(case));
}

proof fn lemma_filter_all(s: Seq<BenchmarkCase>, admits: spec_fn(BenchmarkCase) -> bool)
    requires
        forall|case: BenchmarkCase| #[trigger] admits(case),
    ensures
        s.filter(admits) == s,
    decreases s.len(),
{
    reveal(Seq::filter);
    if s.len() > 0 {
        lemma_filter_all(s.drop_last(), admits);
        assert(s.drop_last().push(s.last()) =~= s);
    }
}

proof fn lemma_filter_none(s: Seq<BenchmarkCase>, admits: spec_fn(BenchmarkCase) -> bool)
    requires
        forall|case: BenchmarkCase| !#[trigger] admits(case),
    ensures
        s.filter(admits) == Seq::<BenchmarkCase>::empty(),
    decreases s.len(),
{
    reveal(Seq::filter);
    if s.len() > 0 {
        lemma_filter_none(s.drop_last(), admits);
    }
}

/// A filter that asks for both directions alone runs nothing.
pub proof fn lemma_contradictory_filter(f: CaseFilter)
    requires
        f.upload_only,
        f.download_only,
    ensures
        config::matrix().filter(|case: BenchmarkCase| f.admits(case)).len() == 0,
{
    lemma_filter_none(config::matrix(), |case: BenchmarkCase| f.admits(case));
}

} // verus!
