//! Putting a document on the tablet.
//!
//! Every file is written beside its place first. Only when all of them are there do they take
//! their places, and then what the document no longer has is removed.

use vstd::prelude::*;

use crate::device;
use crate::device::DeviceError;
use crate::device::DeviceErrorView;
use crate::device::RemoteFile;
use crate::device::RemoteFileView;

verus! {

/// How far the work has come.
#[derive(Debug)]
pub enum PushPhase {
    /// The file with this number is to be written beside its place.
    Stage(usize),
    /// The file with this number is to take its place.
    Commit(usize),
    /// The staged file with this number is to be dropped, and those after it up to `end`.
    Discard { next: usize, end: usize, error: DeviceError },
    /// What the document no longer has is to be removed.
    Reap,
    Finished(Result<(), DeviceError>),
}

/// The model of a [`PushPhase`].
pub enum PushPhaseView {
    Stage(int),
    Commit(int),
    Discard { next: int, end: int, error: DeviceErrorView },
    Reap,
    Finished(Result<(), DeviceErrorView>),
}

impl DeepView for PushPhase {
    type V = PushPhaseView;

    open spec fn deep_view(&self) -> PushPhaseView {
        match *self {
            PushPhase::Stage(i) => PushPhaseView::Stage(i as int),
            PushPhase::Commit(i) => PushPhaseView::Commit(i as int),
            PushPhase::Discard { next, end, error } => PushPhaseView::Discard {
                next: next as int,
                end: end as int,
                error: error.deep_view(),
            },
            PushPhase::Reap => PushPhaseView::Reap,
            PushPhase::Finished(r) => PushPhaseView::Finished(device::unit_outcome(r)),
        }
    }
}

/// Writing files, from the given one on.
pub open spec fn stage_from(i: int, n: int) -> PushPhaseView {
    if i < n {
        PushPhaseView::Stage(i)
    } else {
        commit_from(0, n)
    }
}

/// Putting files in their places, from the given one on.
pub open spec fn commit_from(i: int, n: int) -> PushPhaseView {
    if i < n {
        PushPhaseView::Commit(i)
    } else {
        PushPhaseView::Reap
    }
}

/// Dropping staged files.
pub open spec fn discard_from(next: int, end: int, error: DeviceErrorView) -> PushPhaseView {
    if next < end {
        PushPhaseView::Discard { next, end, error }
    } else {
        PushPhaseView::Finished(Err(error))
    }
}

/// What follows on a step, for a document of `n` files. When a file cannot be written, those
/// written before it are dropped; when a file cannot take its place, all of them are. That a
/// staged file could not be dropped does not matter.
pub open spec fn after_step(
    n: int,
    p: PushPhaseView,
    r: Result<(), DeviceErrorView>,
) -> PushPhaseView {
    match p {
        PushPhaseView::Stage(i) => match r {
            Ok(_) => stage_from(i + 1, n),
            Err(e) => discard_from(0, i, e),
        },
        PushPhaseView::Commit(i) => match r {
            Ok(_) => commit_from(i + 1, n),
            Err(e) => discard_from(0, n, e),
        },
        PushPhaseView::Discard { next, end, error } => discard_from(next + 1, end, error),
        PushPhaseView::Reap => PushPhaseView::Finished(r),
        PushPhaseView::Finished(_) => p,
    }
}

/// Whether the number in a phase is that of a file.
pub open spec fn phase_wf(n: int, p: PushPhaseView) -> bool {
    match p {
        PushPhaseView::Stage(i) => 0 <= i < n,
        PushPhaseView::Commit(i) => 0 <= i < n,
        PushPhaseView::Discard { next, end, error } => 0 <= next < end <= n,
        _ => true,
    }
}

/// The paths of the files of a document on the tablet.
pub open spec fn target_paths(dir: Seq<char>, files: Seq<RemoteFileView>) -> Seq<Seq<char>> {
    files.map_values(|f: RemoteFileView| device::child_path(dir, f.path))
}

/// The work of putting one document on the tablet.
pub struct Push {
    targets: Vec<String>,
    phase: PushPhase,
}

impl Push {
    /// The paths of the files on the tablet.
    pub closed spec fn targets(&self) -> Seq<Seq<char>> {
        self.targets.deep_view()
    }

    /// How far the work has come.
    pub closed spec fn view(&self) -> PushPhaseView {
        self.phase.deep_view()
    }

    /// Whether the number in the phase is that of a file.
    pub open spec fn wf(&self) -> bool {
        phase_wf(self.targets().len() as int, self@)
    }

    /// Starts on a document.
    pub fn new(dir: &str, files: &Vec<RemoteFile>) -> (p: Self)
        ensures
            p.wf(),
            p.targets() == target_paths(dir@, files.deep_view()),
            p.targets().len() == files@.len(),
            forall|i: int|
                0 <= i < files@.len() ==> #[trigger] p.targets()[i] == dir@ + "/"@
                    + files@[i].path@,
            p@ == stage_from(0, files@.len() as int),
    {
        let ghost all = files.deep_view();
        let mut targets: Vec<String> = Vec::new();
        let mut i: usize = 0;
        while i < files.len()
            invariant
                all == files.deep_view(),
                i <= files.len(),
                targets@.len() == i,
                targets.deep_view() == target_paths(dir@, all).take(i as int),
            decreases files.len() - i,
        {
            let ghost before = targets.deep_view();
            let path = device::child(dir, files[i].path.as_str());
            assert(all[i as int] == files@[i as int].deep_view());
            targets.push(path);
            assert(targets.deep_view() =~= before.push(path@));
            assert(target_paths(dir@, all).take(i + 1) =~= target_paths(dir@, all).take(
                i as int,
            ).push(path@));
            i = i + 1;
        }
        assert(target_paths(dir@, all).take(all.len() as int) =~= target_paths(dir@, all));
        assert(targets.deep_view().len() == targets@.len());
        assert forall|j: int| 0 <= j < all.len() implies #[trigger] targets.deep_view()[j] == dir@
            + "/"@ + files@[j].path@ by {
            assert(all[j] == files@[j].deep_view());
        }
        let phase = if files.len() > 0 {
            PushPhase::Stage(0)
        } else {
            PushPhase::Reap
        };
        Push { targets, phase }
    }

    /// The phase, which says what to do next.
    pub fn phase(&self) -> (p: &PushPhase)
        ensures
            p.deep_view() == self@,
    {
        &self.phase
    }

    /// The path of a file on the tablet.
    pub fn target(&self, i: usize) -> (s: &str)
        requires
            i < self.targets().len(),
        ensures
            s@ == self.targets()[i as int],
    {
        assert(self.targets.deep_view()[i as int] == self.targets@[i as int]@);
        self.targets[i].as_str()
    }

    /// Takes in what came of a step.
    pub fn done(self, r: Result<(), DeviceError>) -> (p: Self)
        requires
            self.wf(),
            !(self@ is Finished),
        ensures
            p.wf(),
            p.targets() == self.targets(),
            p@ == after_step(self.targets().len() as int, self@, device::unit_outcome(r)),
    {
        let Push { targets, phase } = self;
        let n: usize = targets.len();
        assert(targets.deep_view().len() == n);
        let phase = match phase {
            PushPhase::Stage(i) => match r {
                Ok(_) => if i + 1 < n {
                    PushPhase::Stage(i + 1)
                } else {
                    PushPhase::Commit(0)
                },
                Err(error) => if i > 0 {
                    PushPhase::Discard { next: 0, end: i, error }
                } else {
                    PushPhase::Finished(Err(error))
                },
            },
            PushPhase::Commit(i) => match r {
                Ok(_) => if i + 1 < n {
                    PushPhase::Commit(i + 1)
                } else {
                    PushPhase::Reap
                },
                Err(error) => PushPhase::Discard { next: 0, end: n, error },
            },
            PushPhase::Discard { next, end, error } => if next + 1 < end {
                PushPhase::Discard { next: next + 1, end, error }
            } else {
                PushPhase::Finished(Err(error))
            },
            PushPhase::Reap => PushPhase::Finished(r),
            other => other,
        };
        Push { targets, phase }
    }

    /// What came of the work.
    pub fn finish(self) -> (r: Result<(), DeviceError>)
        requires
            self@ is Finished,
        ensures
            self@ == PushPhaseView::Finished(device::unit_outcome(r)),
    {
        match self.phase {
            PushPhase::Finished(r) => r,
            _ => Ok(()),
        }
    }
}

/// The document that is on the tablet is not touched until every file is written: files are put
/// in their places only after the last one has been staged.
pub proof fn nothing_is_touched_before_all_is_staged(
    n: int,
    i: int,
    r: Result<(), DeviceErrorView>,
)
    requires
        0 <= i < n,
        after_step(n, PushPhaseView::Stage(i), r) is Commit || after_step(
            n,
            PushPhaseView::Stage(i),
            r,
        ) is Reap,
    ensures
        i == n - 1,
        r is Ok,
        after_step(n, PushPhaseView::Stage(i), r) == PushPhaseView::Commit(0),
{
}

/// Once a step has failed, no file takes its place any more, and the work ends in that error.
pub proof fn failed_push_stops(n: int, p: PushPhaseView, r: Result<(), DeviceErrorView>)
    requires
        phase_wf(n, p),
        p is Discard,
    ensures
        match after_step(n, p, r) {
            PushPhaseView::Discard { next, end, error } => error == p->error && end == p->end,
            PushPhaseView::Finished(f) => f == Err::<(), DeviceErrorView>(p->error),
            _ => false,
        },
{
}

/// Whether a push of `n` files goes through the given phases, from the first one on, when its
/// steps come out as given.
pub open spec fn is_run(
    n: int,
    phases: Seq<PushPhaseView>,
    replies: Seq<Result<(), DeviceErrorView>>,
) -> bool {
    &&& phases.len() == replies.len() + 1
    &&& phases[0] == stage_from(0, n)
    &&& forall|k: int|
        0 <= k < replies.len() ==> !(phases[k] is Finished) && phases[k + 1] == after_step(
            n,
            phases[k],
            #[trigger] replies[k],
        )
}

/// Where a push of `n` files stands after `k` steps that went well.
spec fn good_phase(n: int, k: int) -> PushPhaseView {
    if k < n {
        PushPhaseView::Stage(k)
    } else if k < 2 * n {
        PushPhaseView::Commit(k - n)
    } else if k == 2 * n {
        PushPhaseView::Reap
    } else {
        PushPhaseView::Finished(Ok(()))
    }
}

proof fn lemma_good_so_far(
    n: int,
    phases: Seq<PushPhaseView>,
    replies: Seq<Result<(), DeviceErrorView>>,
    k: int,
)
    requires
        0 <= n,
        is_run(n, phases, replies),
        0 <= k <= replies.len(),
        forall|j: int| 0 <= j < k ==> #[trigger] replies[j] is Ok,
    ensures
        k <= 2 * n + 1,
        phases[k] == good_phase(n, k),
    decreases k,
{
    if k > 0 {
        lemma_good_so_far(n, phases, replies, k - 1);
        let r = replies[k - 1];
        assert(r is Ok);
        let u = r->Ok_0;
        assert(u == ());
        assert(r == Ok::<(), DeviceErrorView>(()));
    }
}

proof fn lemma_never_good_again(
    n: int,
    phases: Seq<PushPhaseView>,
    replies: Seq<Result<(), DeviceErrorView>>,
    bad: int,
    k: int,
)
    requires
        0 <= n,
        is_run(n, phases, replies),
        0 <= bad < k <= replies.len(),
        forall|j: int| 0 <= j < bad ==> #[trigger] replies[j] is Ok,
        replies[bad] is Err,
    ensures
        match phases[k] {
            PushPhaseView::Discard { next, end, error } => {
                &&& bad < 2 * n
                &&& next == k - bad - 1
                &&& end == (if bad < n {
                    bad
                } else {
                    n
                })
                &&& error == replies[bad]->Err_0
                &&& next < end
            },
            PushPhaseView::Finished(r) => {
                &&& r == replies[bad]
                &&& k == replies.len()
                &&& k == bad + 1 + (if bad < n {
                    bad
                } else if bad < 2 * n {
                    n
                } else {
                    0
                })
            },
            _ => false,
        },
    decreases k,
{
    let r = replies[k - 1];
    if k - 1 == bad {
        lemma_good_so_far(n, phases, replies, bad);
    } else {
        lemma_never_good_again(n, phases, replies, bad, k - 1);
    }
    if phases[k] is Finished && k < replies.len() {
        let next = replies[k];
    }
}

/// The first step that failed, if one of the first `k` did.
proof fn lemma_first_failure(replies: Seq<Result<(), DeviceErrorView>>, k: int) -> (bad: Option<
    int,
>)
    requires
        0 <= k <= replies.len(),
    ensures
        match bad {
            Some(b) => 0 <= b < k && replies[b] is Err && forall|j: int|
                0 <= j < b ==> #[trigger] replies[j] is Ok,
            None => forall|j: int| 0 <= j < k ==> #[trigger] replies[j] is Ok,
        },
    decreases k,
{
    if k == 0 {
        None
    } else {
        let before = lemma_first_failure(replies, k - 1);
        if before is Some {
            before
        } else if replies[k - 1] is Err {
            Some(k - 1)
        } else {
            None
        }
    }
}

/// A push that ends well has written every file beside its place, then put every file in its
/// place, each one once and in their order, and then removed what the document no longer has;
/// and each of these steps went well.
pub proof fn good_push_places_every_file(
    n: int,
    phases: Seq<PushPhaseView>,
    replies: Seq<Result<(), DeviceErrorView>>,
)
    requires
        0 <= n,
        is_run(n, phases, replies),
        phases.last() == PushPhaseView::Finished(Ok(())),
    ensures
        replies.len() == 2 * n + 1,
        forall|k: int| 0 <= k < replies.len() ==> #[trigger] replies[k] is Ok,
        forall|i: int| 0 <= i < n ==> #[trigger] phases[i] == PushPhaseView::Stage(i),
        forall|k: int| n <= k < 2 * n ==> #[trigger] phases[k] == PushPhaseView::Commit(k - n),
        phases[2 * n] == PushPhaseView::Reap,
{
    let len = replies.len() as int;
    match lemma_first_failure(replies, len) {
        Some(bad) => {
            lemma_never_good_again(n, phases, replies, bad, len);
        },
        None => {
            lemma_good_so_far(n, phases, replies, len);
            assert forall|k: int| 0 <= k <= len implies #[trigger] phases[k] == good_phase(n, k) by {
                lemma_good_so_far(n, phases, replies, k);
            }
        },
    }
}

/// A push whose steps all go well comes to its end, and ends well.
pub proof fn push_without_failure_ends_well(
    n: int,
    phases: Seq<PushPhaseView>,
    replies: Seq<Result<(), DeviceErrorView>>,
)
    requires
        0 <= n,
        is_run(n, phases, replies),
        forall|k: int| 0 <= k < replies.len() ==> #[trigger] replies[k] is Ok,
    ensures
        replies.len() <= 2 * n + 1,
        replies.len() == 2 * n + 1 <==> phases.last() is Finished,
        phases.last() is Finished ==> phases.last() == PushPhaseView::Finished(Ok(())),
{
    lemma_good_so_far(n, phases, replies, replies.len() as int);
}

/// Once a file could not be written, those written before it are dropped, each one once, and
/// nothing else is done; once a file could not take its place, all of them are. What could not
/// be dropped makes no difference. The push ends in the error of the step that failed.
pub proof fn failed_push_drops_what_it_staged(
    n: int,
    phases: Seq<PushPhaseView>,
    replies: Seq<Result<(), DeviceErrorView>>,
    bad: int,
)
    requires
        0 <= n,
        is_run(n, phases, replies),
        0 <= bad < replies.len(),
        forall|j: int| 0 <= j < bad ==> #[trigger] replies[j] is Ok,
        replies[bad] is Err,
    ensures
        phases[bad] is Stage ==> phases[bad] == PushPhaseView::Stage(bad),
        ({
            let end = if phases[bad] is Stage {
                bad
            } else if phases[bad] is Commit {
                n
            } else {
                0
            };
            &&& replies.len() <= bad + 1 + end
            &&& forall|k: int|
                bad < k < phases.len() && k - bad - 1 < end ==> #[trigger] phases[k]
                    == (PushPhaseView::Discard {
                    next: k - bad - 1,
                    end,
                    error: replies[bad]->Err_0,
                })
            &&& replies.len() == bad + 1 + end <==> phases.last() is Finished
            &&& phases.last() is Finished ==> phases.last() == PushPhaseView::Finished(
                replies[bad],
            )
        }),
{
    lemma_good_so_far(n, phases, replies, bad);
    lemma_never_good_again(n, phases, replies, bad, replies.len() as int);
    assert(phases[bad + 1] == after_step(n, phases[bad], replies[bad]));
    let end = if bad < n {
        bad
    } else if bad < 2 * n {
        n
    } else {
        0
    };
    assert forall|k: int| bad < k < phases.len() && k - bad - 1 < end implies #[trigger] phases[k]
        == (PushPhaseView::Discard { next: k - bad - 1, end, error: replies[bad]->Err_0 }) by {
        lemma_never_good_again(n, phases, replies, bad, k);
    }
}

} // verus!
