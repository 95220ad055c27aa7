//! Removing the directories the user picked, and the report of how it went.

use vstd::prelude::*;

use crate::scanner::{is_picked, total, Hit};

verus! {

/// Outcome of a clean run.
pub struct Report {
    /// How many directories were removed.
    pub removed: usize,
    /// How many bytes their removal freed.
    pub freed: u64,
    /// Each directory that could not be removed, as its displayed path and the reason.
    pub failed: Vec<(String, String)>,
}

impl Report {
    /// Whether the run succeeded: nothing picked failed to be removed. The exit status is a
    /// failure otherwise.
    pub fn succeeded(&self) -> (ok: bool)
        ensures
            ok == (self.failed@.len() == 0),
    {
        self.failed.len() == 0
    }
}

/// What happened to one hit: removed, or not, with its displayed path and the error's text.
pub type Removal = Result<(), (String, String)>;

/// Whether a hit is to be removed: it is when the user picked it.
pub fn should_remove(hit: &Hit) -> (r: bool)
    ensures
        r == hit.picked,
{
    hit.picked
}

/// The report after the first `n` hits: every picked hit counts as removed, with its size
/// freed, when its removal succeeded, and is listed as failed otherwise; hits not picked are
/// left out.
pub open spec fn report_after(hits: Seq<Hit>, outcomes: Seq<Removal>, n: int) -> (nat, nat, Seq<(String, String)>)
    decreases n,
{
    if n <= 0 {
        (0, 0, Seq::empty())
    } else {
        let prev = report_after(hits, outcomes, n - 1);
        if !hits[n - 1].picked {
            prev
        } else {
            match outcomes[n - 1] {
                Ok(()) => (prev.0 + 1, prev.1 + hits[n - 1].size as nat, prev.2),
                Err(e) => (prev.0, prev.1, prev.2.push(e)),
            }
        }
    }
}

/// The first `n` hits, each with what removing it gave.
pub open spec fn removals(hits: Seq<Hit>, outcomes: Seq<Removal>, n: int) -> Seq<(Hit, Removal)> {
    Seq::new(n as nat, |i: int| (hits[i], outcomes[i]))
}

/// A picked hit whose removal succeeded.
pub open spec fn removed_ok() -> spec_fn((Hit, Removal)) -> bool {
    |p: (Hit, Removal)| p.0.picked && p.1 is Ok
}

/// A picked hit whose removal failed.
pub open spec fn removal_failed() -> spec_fn((Hit, Removal)) -> bool {
    |p: (Hit, Removal)| p.0.picked && p.1 is Err
}

/// The hit of a pair.
pub open spec fn hit_of() -> spec_fn((Hit, Removal)) -> Hit {
    |p: (Hit, Removal)| p.0
}

/// The displayed path and reason of a failed removal.
pub open spec fn failure_of() -> spec_fn((Hit, Removal)) -> (String, String) {
    |p: (Hit, Removal)| match p.1 {
        Err(e) => e,
        Ok(_) => vstd::pervasive::arbitrary(),
    }
}

/// Over the first `n` hits: the count of removed directories is the number of picked hits
/// whose removal succeeded, the bytes freed are exactly their sizes added up (a failed
/// removal frees nothing), and the failures listed are those of the picked hits whose removal
/// failed, in order.
pub proof fn report_counts_what_happened(hits: Seq<Hit>, outcomes: Seq<Removal>, n: int)
    requires
        0 <= n <= hits.len(),
        n <= outcomes.len(),
    ensures
        report_after(hits, outcomes, n).0 == removals(hits, outcomes, n).filter(removed_ok()).len(),
        report_after(hits, outcomes, n).1 == total(removals(hits, outcomes, n).filter(removed_ok()).map_values(hit_of())),
        report_after(hits, outcomes, n).2 == removals(hits, outcomes, n).filter(removal_failed()).map_values(failure_of()),
    decreases n,
{
    let r = removals(hits, outcomes, n);
    if n == 0 {
        reveal_with_fuel(Seq::filter, 1);
        assert(r =~= Seq::<(Hit, Removal)>::empty());
        assert(r.filter(removed_ok()).map_values(hit_of()) =~= Seq::<Hit>::empty());
        assert(r.filter(removal_failed()).map_values(failure_of()) =~= Seq::<(String, String)>::empty());
    } else {
        report_counts_what_happened(hits, outcomes, n - 1);
        let pre = removals(hits, outcomes, n - 1);
        let x = (hits[n - 1], outcomes[n - 1]);
        assert(r =~= pre.push(x));
        pre.lemma_filter_push(x, removed_ok());
        pre.lemma_filter_push(x, removal_failed());
        let oks = pre.filter(removed_ok());
        let fails = pre.filter(removal_failed());
        if removed_ok()(x) {
            assert(oks.push(x).map_values(hit_of()) =~= oks.map_values(hit_of()).push(x.0));
            assert(oks.map_values(hit_of()).push(x.0).drop_last() =~= oks.map_values(hit_of()));
        }
        if removal_failed()(x) {
            assert(fails.push(x).map_values(failure_of()) =~= fails.map_values(failure_of()).push(failure_of()(x)));
        }
    }
}

proof fn lemma_report_grows(hits: Seq<Hit>, outcomes: Seq<Removal>, n: int, m: int)
    requires
        0 <= n <= m,
    ensures
        report_after(hits, outcomes, n).0 <= report_after(hits, outcomes, m).0 <= m,
        report_after(hits, outcomes, n).1 <= report_after(hits, outcomes, m).1,
    decreases m,
{
    if n < m {
        lemma_report_grows(hits, outcomes, n, m - 1);
    } else if m > 0 {
        lemma_report_grows(hits, outcomes, m - 1, m - 1);
    }
}

/// Builds the report of a clean run over `hits`, where `outcomes[i]` is what removing
/// `hits[i]` gave (it is not looked at for a hit that was not picked). Failures are collected,
/// not fatal.
pub fn clean(hits: &[Hit], outcomes: &[Removal]) -> (report: Report)
    requires
        outcomes@.len() == hits@.len(),
        report_after(hits@, outcomes@, hits@.len() as int).1 <= u64::MAX,
    ensures
        report.removed == report_after(hits@, outcomes@, hits@.len() as int).0,
        report.freed == report_after(hits@, outcomes@, hits@.len() as int).1,
        report.failed@ == report_after(hits@, outcomes@, hits@.len() as int).2,
        report.removed == removals(hits@, outcomes@, hits@.len() as int).filter(removed_ok()).len(),
        report.freed == total(removals(hits@, outcomes@, hits@.len() as int).filter(removed_ok()).map_values(hit_of())),
        report.failed@ == removals(hits@, outcomes@, hits@.len() as int).filter(removal_failed()).map_values(failure_of()),
{
    let mut report = Report { removed: 0, freed: 0, failed: Vec::new() };
    let n = hits.len();
    let mut i: usize = 0;
    while i < n
        invariant
            n == hits@.len(),
            n == outcomes@.len(),
            i <= n,
            report.removed == report_after(hits@, outcomes@, i as int).0,
            report.freed == report_after(hits@, outcomes@, i as int).1,
            report.failed@ == report_after(hits@, outcomes@, i as int).2,
            report_after(hits@, outcomes@, n as int).1 <= u64::MAX,
        decreases n - i,
    {
        proof {
            lemma_report_grows(hits@, outcomes@, i + 1, n as int);
        }
        let hit = &hits[i];
        if should_remove(hit) {
            match &outcomes[i] {
                Ok(()) => {
                    report.removed = report.removed + 1;
                    report.freed = report.freed + hit.size;
                },
                Err((path, why)) => {
                    report.failed.push((path.clone(), why.clone()));
                },
            }
        }
        i = i + 1;
    }
    proof {
        report_counts_what_happened(hits@, outcomes@, n as int);
    }
    report
}

/// Every picked hit is accounted for: it is either counted as removed or listed as failed.
pub proof fn every_picked_hit_is_accounted(hits: Seq<Hit>, outcomes: Seq<Removal>, n: int)
    requires
        0 <= n <= hits.len(),
    ensures
        report_after(hits, outcomes, n).0 + report_after(hits, outcomes, n).2.len()
            == hits.take(n).filter(is_picked()).len(),
    decreases n,
{
    if n == 0 {
        reveal_with_fuel(Seq::filter, 1);
        assert(hits.take(0) =~= Seq::<Hit>::empty());
    } else {
        every_picked_hit_is_accounted(hits, outcomes, n - 1);
        assert(hits.take(n) =~= hits.take(n - 1).push(hits[n - 1]));
        hits.take(n - 1).lemma_filter_push(hits[n - 1], is_picked());
    }
}

/// When every removal succeeds, every picked hit is removed and their sizes are all freed;
/// nothing is listed as failed.
pub proof fn all_removed_frees_all_picked(hits: Seq<Hit>, outcomes: Seq<Removal>, n: int)
    requires
        0 <= n <= hits.len(),
        forall|i: int| 0 <= i < n ==> #[trigger] outcomes[i] is Ok,
    ensures
        report_after(hits, outcomes, n).0 == hits.take(n).filter(is_picked()).len(),
        report_after(hits, outcomes, n).1 == total(hits.take(n).filter(is_picked())),
        report_after(hits, outcomes, n).2.len() == 0,
    decreases n,
{
    if n == 0 {
        reveal_with_fuel(Seq::filter, 1);
        assert(hits.take(0) =~= Seq::<Hit>::empty());
    } else {
        all_removed_frees_all_picked(hits, outcomes, n - 1);
        assert(hits.take(n) =~= hits.take(n - 1).push(hits[n - 1]));
        hits.take(n - 1).lemma_filter_push(hits[n - 1], is_picked());
        assert(outcomes[n - 1] is Ok);
        if hits[n - 1].picked {
            assert(hits.take(n).filter(is_picked()).drop_last() =~= hits.take(n - 1).filter(is_picked()));
        }
    }
}

} // verus!
