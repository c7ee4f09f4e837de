//! Putting a staged file in the place of the previous one.
//!
//! The server renames nothing onto an existing file, so the previous file steps aside as a
//! backup, the staged file takes its place, and only then is the backup dropped. If the staged
//! file cannot take its place, the backup returns. A backup without a file in its place is what
//! an earlier attempt left behind when even that failed: it is put back first.

use vstd::prelude::*;

use crate::device::sftp;
use crate::device::sftp::SftpFailure;
use crate::device::sftp::SftpFailureView;
use crate::device::DeviceError;
use crate::device::DeviceErrorView;
use crate::text;

verus! {

/// One of the three files that take part.
#[derive(Debug, Clone, Copy, PartialEq, Eq, Structural)]
pub enum Place {
    /// The file in its place.
    Live,
    /// The file that waits to take the place.
    Staged,
    /// The file that stepped aside.
    Backup,
}

/// The path of one of the files.
pub open spec fn path_at(path: Seq<char>, place: Place) -> Seq<char> {
    match place {
        Place::Live => path,
        Place::Staged => sftp::staged(path),
        Place::Backup => sftp::backup(path),
    }
}

/// A step for the caller to take.
#[derive(Debug, Clone, Copy, PartialEq, Eq, Structural)]
pub enum CommitStep {
    /// See whether there is a file.
    Probe(Place),
    /// Remove a file.
    Remove(Place),
    /// Rename a file.
    Rename { from: Place, to: Place },
    /// Nothing is left to do.
    Finished,
}

/// How far the work has come.
#[derive(Debug)]
pub enum Stage {
    ProbeLive,
    ProbeBackup { live: bool },
    DropLeftover,
    Recover,
    ProbeAgain,
    Retire,
    Promote { retired: bool },
    DropBackup,
    RollBack { failure: SftpFailure },
    Finished(Result<(), DeviceError>),
}

/// The model of a [`Stage`].
pub enum StageView {
    ProbeLive,
    ProbeBackup { live: bool },
    DropLeftover,
    Recover,
    ProbeAgain,
    Retire,
    Promote { retired: bool },
    DropBackup,
    RollBack { failure: SftpFailureView },
    Finished(Result<(), DeviceErrorView>),
}

impl DeepView for Stage {
    type V = StageView;

    open spec fn deep_view(&self) -> StageView {
        match *self {
            Stage::ProbeLive => StageView::ProbeLive,
            Stage::ProbeBackup { live } => StageView::ProbeBackup { live },
            Stage::DropLeftover => StageView::DropLeftover,
            Stage::Recover => StageView::Recover,
            Stage::ProbeAgain => StageView::ProbeAgain,
            Stage::Retire => StageView::Retire,
            Stage::Promote { retired } => StageView::Promote { retired },
            Stage::DropBackup => StageView::DropBackup,
            Stage::RollBack { failure } => StageView::RollBack { failure: failure.deep_view() },
            Stage::Finished(r) => StageView::Finished(
                match r {
                    Ok(_) => Ok(()),
                    Err(e) => Err(e.deep_view()),
                },
            ),
        }
    }
}

/// The step that comes next.
pub open spec fn next_step(stage: StageView) -> CommitStep {
    match stage {
        StageView::ProbeLive => CommitStep::Probe(Place::Live),
        StageView::ProbeBackup { live: _ } => CommitStep::Probe(Place::Backup),
        StageView::DropLeftover => CommitStep::Remove(Place::Backup),
        StageView::Recover => CommitStep::Rename { from: Place::Backup, to: Place::Live },
        StageView::ProbeAgain => CommitStep::Probe(Place::Live),
        StageView::Retire => CommitStep::Rename { from: Place::Live, to: Place::Backup },
        StageView::Promote { retired: _ } => CommitStep::Rename {
            from: Place::Staged,
            to: Place::Live,
        },
        StageView::DropBackup => CommitStep::Remove(Place::Backup),
        StageView::RollBack { failure: _ } => CommitStep::Rename {
            from: Place::Backup,
            to: Place::Live,
        },
        StageView::Finished(_) => CommitStep::Finished,
    }
}

/// What follows on a probe.
pub open spec fn after_probe(stage: StageView, present: bool) -> StageView {
    match stage {
        StageView::ProbeLive => StageView::ProbeBackup { live: present },
        StageView::ProbeBackup { live } => if live && present {
            StageView::DropLeftover
        } else if !live && present {
            StageView::Recover
        } else {
            StageView::ProbeAgain
        },
        StageView::ProbeAgain => if present {
            StageView::Retire
        } else {
            StageView::Promote { retired: false }
        },
        _ => stage,
    }
}

/// The error of a file that could neither take its place nor give it back.
pub open spec fn double_fault(path: Seq<char>, promotion: Seq<char>, rollback: Seq<char>) -> Seq<
    char,
> {
    "promotion failed for "@ + path + " ("@ + promotion + "); rollback also failed ("@ + rollback
        + "); previous file preserved at "@ + sftp::backup(path)
}

/// What follows on a removal or a renaming.
pub open spec fn after_action(
    path: Seq<char>,
    stage: StageView,
    r: Result<(), SftpFailureView>,
) -> StageView {
    match stage {
        StageView::DropLeftover => StageView::ProbeAgain,
        StageView::Recover => match r {
            Ok(_) => StageView::ProbeAgain,
            Err(f) => StageView::Finished(Err(sftp::classified("recover(bak→live)"@, path, f))),
        },
        StageView::Retire => match r {
            Ok(_) => StageView::Promote { retired: true },
            Err(f) => StageView::Finished(Err(sftp::classified("rename(live→bak)"@, path, f))),
        },
        StageView::Promote { retired } => match r {
            Ok(_) => if retired {
                StageView::DropBackup
            } else {
                StageView::Finished(Ok(()))
            },
            Err(f) => if retired {
                StageView::RollBack { failure: f }
            } else {
                StageView::Finished(Err(sftp::classified("rename(tmp→live)"@, path, f)))
            },
        },
        StageView::DropBackup => StageView::Finished(Ok(())),
        StageView::RollBack { failure } => match r {
            Ok(_) => StageView::Finished(Err(sftp::classified("rename(tmp→live)"@, path, failure))),
            Err(g) => StageView::Finished(
                Err(DeviceErrorView::Other(double_fault(path, failure.message, g.message))),
            ),
        },
        _ => stage,
    }
}

/// The model of what came of a removal or a renaming.
pub open spec fn action_outcome(r: Result<(), SftpFailure>) -> Result<(), SftpFailureView> {
    match r {
        Ok(_) => Ok(()),
        Err(f) => Err(f.deep_view()),
    }
}

/// The work of putting one staged file in its place.
pub struct Commit {
    path: String,
    stage: Stage,
}

impl Commit {
    /// The path of the file.
    pub closed spec fn path(&self) -> Seq<char> {
        self.path@
    }

    /// How far the work has come.
    pub closed spec fn view(&self) -> StageView {
        self.stage.deep_view()
    }

    /// Starts on a file.
    pub fn new(path: &str) -> (c: Self)
        ensures
            c.path() == path@,
            c@ == StageView::ProbeLive,
    {
        Commit { path: path.to_owned(), stage: Stage::ProbeLive }
    }

    /// The step that comes next.
    pub fn step(&self) -> (s: CommitStep)
        ensures
            s == next_step(self@),
    {
        match &self.stage {
            Stage::ProbeLive => CommitStep::Probe(Place::Live),
            Stage::ProbeBackup { live: _ } => CommitStep::Probe(Place::Backup),
            Stage::DropLeftover => CommitStep::Remove(Place::Backup),
            Stage::Recover => CommitStep::Rename { from: Place::Backup, to: Place::Live },
            Stage::ProbeAgain => CommitStep::Probe(Place::Live),
            Stage::Retire => CommitStep::Rename { from: Place::Live, to: Place::Backup },
            Stage::Promote { retired: _ } => CommitStep::Rename {
                from: Place::Staged,
                to: Place::Live,
            },
            Stage::DropBackup => CommitStep::Remove(Place::Backup),
            Stage::RollBack { failure: _ } => CommitStep::Rename {
                from: Place::Backup,
                to: Place::Live,
            },
            Stage::Finished(_) => CommitStep::Finished,
        }
    }

    /// The path of one of the files.
    pub fn path_of(&self, place: Place) -> (s: String)
        ensures
            s@ == path_at(self.path(), place),
    {
        match place {
            Place::Live => self.path.clone(),
            Place::Staged => sftp::staged_path(self.path.as_str()),
            Place::Backup => sftp::backup_path(self.path.as_str()),
        }
    }

    /// Takes in whether a file was there. A probe that failed counts as one that found nothing.
    pub fn probed(&mut self, present: bool)
        requires
            next_step(old(self)@) is Probe,
        ensures
            final(self).path() == old(self).path(),
            final(self)@ == after_probe(old(self)@, present),
    {
        self.stage = match &self.stage {
            Stage::ProbeLive => Stage::ProbeBackup { live: present },
            Stage::ProbeBackup { live } => if *live && present {
                Stage::DropLeftover
            } else if present {
                Stage::Recover
            } else {
                Stage::ProbeAgain
            },
            _ => if present {
                Stage::Retire
            } else {
                Stage::Promote { retired: false }
            },
        };
    }

    /// Takes in what came of a removal or a renaming.
    pub fn done(self, r: Result<(), SftpFailure>) -> (c: Self)
        requires
            next_step(self@) is Remove || next_step(self@) is Rename,
        ensures
            c.path() == self.path(),
            c@ == after_action(self.path(), self@, action_outcome(r)),
    {
        let Commit { path, stage } = self;
        let stage = match stage {
            Stage::DropLeftover => Stage::ProbeAgain,
            Stage::Recover => match r {
                Ok(_) => Stage::ProbeAgain,
                Err(f) => Stage::Finished(
                    Err(sftp::classify("recover(bak→live)", path.as_str(), &f)),
                ),
            },
            Stage::Retire => match r {
                Ok(_) => Stage::Promote { retired: true },
                Err(f) => Stage::Finished(Err(sftp::classify("rename(live→bak)", path.as_str(), &f))),
            },
            Stage::Promote { retired } => match r {
                Ok(_) => if retired {
                    Stage::DropBackup
                } else {
                    Stage::Finished(Ok(()))
                },
                Err(f) => if retired {
                    Stage::RollBack { failure: f }
                } else {
                    Stage::Finished(Err(sftp::classify("rename(tmp→live)", path.as_str(), &f)))
                },
            },
            Stage::DropBackup => Stage::Finished(Ok(())),
            Stage::RollBack { failure } => match r {
                Ok(_) => Stage::Finished(
                    Err(sftp::classify("rename(tmp→live)", path.as_str(), &failure)),
                ),
                Err(g) => {
                    let mut m = text::concat3("promotion failed for ", path.as_str(), " (");
                    m.append(failure.message.as_str());
                    m.append("); rollback also failed (");
                    m.append(g.message.as_str());
                    m.append("); previous file preserved at ");
                    let kept = sftp::backup_path(path.as_str());
                    m.append(kept.as_str());
                    Stage::Finished(Err(DeviceError::Other(m)))
                },
            },
            other => other,
        };
        Commit { path, stage }
    }

    /// What came of the work.
    pub fn finish(self) -> (r: Result<(), DeviceError>)
        requires
            next_step(self@) is Finished,
        ensures
            match r {
                Ok(_) => self@ == StageView::Finished(Ok(())),
                Err(e) => self@ == StageView::Finished(Err(e.deep_view())),
            },
    {
        match self.stage {
            Stage::Finished(r) => r,
            _ => Ok(()),
        }
    }
}

/// What the three files hold.
pub struct Files {
    pub live: Option<Seq<u8>>,
    pub staged: Option<Seq<u8>>,
    pub backup: Option<Seq<u8>>,
}

impl Files {
    /// What one of the files holds.
    pub open spec fn at(self, place: Place) -> Option<Seq<u8>> {
        match place {
            Place::Live => self.live,
            Place::Staged => self.staged,
            Place::Backup => self.backup,
        }
    }

    /// The files with one of them replaced.
    pub open spec fn with(self, place: Place, contents: Option<Seq<u8>>) -> Files {
        match place {
            Place::Live => Files { live: contents, ..self },
            Place::Staged => Files { staged: contents, ..self },
            Place::Backup => Files { backup: contents, ..self },
        }
    }
}

/// Whether a step can have led from one state of the files to another, given what the server
/// answered. The server finds only files that are there, and renames nothing onto a file. When
/// it reports a failure, the step may have been taken all the same, or not.
pub open spec fn can_lead_to(step: CommitStep, before: Files, after: Files, good: bool) -> bool {
    match step {
        CommitStep::Probe(p) => after == before && (good ==> before.at(p) is Some),
        CommitStep::Remove(p) => after == before.with(p, None) || (!good && after == before),
        CommitStep::Rename { from, to } => {
            ||| before.at(from) is Some && before.at(to) is None && after == before.with(
                to,
                before.at(from),
            ).with(from, None)
            ||| !good && after == before
        },
        CommitStep::Finished => after == before,
    }
}

/// What there was to lose: the file in its place, or the backup that an earlier attempt left.
pub open spec fn precious(f: Files) -> Option<Seq<u8>> {
    if f.live is Some {
        f.live
    } else {
        f.backup
    }
}

/// Whether nothing is lost: what there was to lose is still there, in its place or as the
/// backup, or the new file is in its place.
pub open spec fn nothing_lost(f: Files, old: Option<Seq<u8>>, fresh: Seq<u8>) -> bool {
    old is Some ==> f.live == old || f.backup == old || f.live == Some(fresh)
}

/// What holds at each stage, given what there was to lose and what the staged file held.
pub open spec fn guarded(stage: StageView, f: Files, old: Option<Seq<u8>>, fresh: Seq<u8>) -> bool {
    match stage {
        StageView::ProbeLive => f.staged == Some(fresh) && precious(f) == old,
        StageView::ProbeBackup { live } => f.staged == Some(fresh) && precious(f) == old && (live
            ==> f.live is Some),
        StageView::DropLeftover => f.staged == Some(fresh) && f.live is Some && f.live == old,
        StageView::Recover => f.staged == Some(fresh) && precious(f) == old,
        StageView::ProbeAgain => f.staged == Some(fresh) && precious(f) == old,
        StageView::Retire => f.staged == Some(fresh) && f.live is Some && f.live == old,
        StageView::Promote { retired } => f.staged == Some(fresh) && (if retired {
            f.backup == old
        } else {
            precious(f) == old
        }),
        StageView::DropBackup => f.live == Some(fresh),
        StageView::RollBack { failure: _ } => f.backup == old,
        StageView::Finished(Ok(_)) => f.live == Some(fresh),
        StageView::Finished(Err(_)) => nothing_lost(f, old, fresh),
    }
}

/// The first stage is guarded.
pub proof fn commit_starts_guarded(f: Files, fresh: Seq<u8>)
    requires
        f.staged == Some(fresh),
    ensures
        guarded(StageView::ProbeLive, f, precious(f), fresh),
{
}

/// Every stage that is guarded has lost nothing, whatever went wrong before; and the work ends
/// well only with the new file in its place.
pub proof fn guarded_means_nothing_lost(
    stage: StageView,
    f: Files,
    old: Option<Seq<u8>>,
    fresh: Seq<u8>,
)
    requires
        guarded(stage, f, old, fresh),
    ensures
        nothing_lost(f, old, fresh),
        stage matches StageView::Finished(Ok(_)) ==> f.live == Some(fresh),
{
}

/// A probe leads from a guarded stage to a guarded stage, even if it misses a file that is
/// there.
pub proof fn probe_stays_guarded(
    stage: StageView,
    f: Files,
    g: Files,
    old: Option<Seq<u8>>,
    fresh: Seq<u8>,
    present: bool,
)
    requires
        guarded(stage, f, old, fresh),
        next_step(stage) is Probe,
        can_lead_to(next_step(stage), f, g, present),
    ensures
        guarded(after_probe(stage, present), g, old, fresh),
{
}

/// A removal or a renaming leads from a guarded stage to a guarded stage, even if it fails, and
/// even if it was done and only its answer was lost. So at no point is the previous file lost
/// before the new one is in its place.
pub proof fn action_stays_guarded(
    path: Seq<char>,
    stage: StageView,
    f: Files,
    g: Files,
    old: Option<Seq<u8>>,
    fresh: Seq<u8>,
    r: Result<(), SftpFailureView>,
)
    requires
        guarded(stage, f, old, fresh),
        next_step(stage) is Remove || next_step(stage) is Rename,
        can_lead_to(next_step(stage), f, g, r is Ok),
    ensures
        guarded(after_action(path, stage, r), g, old, fresh),
{
}

/// The stage and the files after one step that the server takes without a fault: a probe finds a
/// file exactly if it is there, and what is to be removed or renamed is.
pub open spec fn after_good_step(path: Seq<char>, stage: StageView, f: Files) -> (StageView, Files) {
    match next_step(stage) {
        CommitStep::Probe(p) => (after_probe(stage, f.at(p) is Some), f),
        CommitStep::Remove(p) => (after_action(path, stage, Ok(())), f.with(p, None)),
        CommitStep::Rename { from, to } => (
            after_action(path, stage, Ok(())),
            f.with(to, f.at(from)).with(from, None),
        ),
        CommitStep::Finished => (stage, f),
    }
}

/// The stage and the files after so many steps without a fault.
pub open spec fn after_good_steps(
    path: Seq<char>,
    stage: StageView,
    f: Files,
    steps: nat,
) -> (StageView, Files)
    decreases steps,
{
    if steps == 0 {
        (stage, f)
    } else {
        let (s, g) = after_good_step(path, stage, f);
        after_good_steps(path, s, g, (steps - 1) as nat)
    }
}

/// Where nothing goes wrong, a staged file takes its place, whatever was there before: the work
/// ends well within seven steps, the new file is in its place, and neither the staged copy nor a
/// backup is left. Nothing is ever renamed onto a file that is there.
pub proof fn commit_without_fault_ends_well(path: Seq<char>, f: Files, fresh: Seq<u8>)
    requires
        f.staged == Some(fresh),
    ensures
        after_good_steps(path, StageView::ProbeLive, f, 7).0 == StageView::Finished(Ok(())),
        after_good_steps(path, StageView::ProbeLive, f, 7).1 == (Files {
            live: Some(fresh),
            staged: None,
            backup: None,
        }),
        forall|n: nat|
            n < 7 ==> (next_step(
                (#[trigger] after_good_steps(path, StageView::ProbeLive, f, n)).0,
            ) matches CommitStep::Rename { from, to } ==> {
                let files = after_good_steps(path, StageView::ProbeLive, f, n).1;
                files.at(from) is Some && files.at(to) is None
            }),
{
    reveal_with_fuel(after_good_steps, 8);
    assert forall|n: nat| n < 7 implies (next_step(
        (#[trigger] after_good_steps(path, StageView::ProbeLive, f, n)).0,
    ) matches CommitStep::Rename { from, to } ==> {
        let files = after_good_steps(path, StageView::ProbeLive, f, n).1;
        files.at(from) is Some && files.at(to) is None
    }) by {
        assert(n == 0 || n == 1 || n == 2 || n == 3 || n == 4 || n == 5 || n == 6);
    }
}

/// The stage and the files after so many steps, where the server refuses to put the staged file in
/// its place, leaves everything as it was, and takes every other step without a fault.
pub open spec fn after_refused_promotion(
    path: Seq<char>,
    stage: StageView,
    f: Files,
    failure: SftpFailureView,
    steps: nat,
) -> (StageView, Files)
    decreases steps,
{
    if steps == 0 {
        (stage, f)
    } else {
        let (s, g) = if next_step(stage) == (CommitStep::Rename {
            from: Place::Staged,
            to: Place::Live,
        }) {
            (after_action(path, stage, Err(failure)), f)
        } else {
            after_good_step(path, stage, f)
        };
        after_refused_promotion(path, s, g, failure, (steps - 1) as nat)
    }
}

/// Where the staged file cannot take its place, the file that was there, or the backup that an
/// earlier attempt left of it, is in its place when the work ends, and the failure is reported.
pub proof fn refused_promotion_is_undone(
    path: Seq<char>,
    f: Files,
    fresh: Seq<u8>,
    failure: SftpFailureView,
)
    requires
        f.staged == Some(fresh),
    ensures
        ({
            let (stage, files) = after_refused_promotion(
                path,
                StageView::ProbeLive,
                f,
                failure,
                7,
            );
            &&& stage == StageView::Finished(
                Err(sftp::classified("rename(tmp→live)"@, path, failure)),
            )
            &&& files == (Files {
                live: if f.live is Some {
                    f.live
                } else {
                    f.backup
                },
                staged: Some(fresh),
                backup: None,
            })
        }),
{
    reveal_with_fuel(after_refused_promotion, 8);
}

/// A step that fails is reported under what it was meant to do; a leftover or a backup that cannot
/// be removed does not matter. Where neither the new file nor the previous one can be put in its
/// place, the report says where the previous one is.
pub proof fn failed_steps_are_reported(path: Seq<char>, f: SftpFailureView, g: SftpFailureView)
    ensures
        after_action(path, StageView::DropLeftover, Err(f)) == after_action(
            path,
            StageView::DropLeftover,
            Ok(()),
        ),
        after_action(path, StageView::DropBackup, Err(f)) == StageView::Finished(Ok(())),
        after_action(path, StageView::Recover, Err(f)) == StageView::Finished(
            Err(sftp::classified("recover(bak→live)"@, path, f)),
        ),
        after_action(path, StageView::Retire, Err(f)) == StageView::Finished(
            Err(sftp::classified("rename(live→bak)"@, path, f)),
        ),
        after_action(path, StageView::RollBack { failure: f }, Err(g)) == StageView::Finished(
            Err(
                DeviceErrorView::Other(
                    "promotion failed for "@ + path + " ("@ + f.message
                        + "); rollback also failed ("@ + g.message
                        + "); previous file preserved at "@ + path_at(path, Place::Backup),
                ),
            ),
        ),
        path_at(path, Place::Live) == path,
        path_at(path, Place::Staged) == path + ".rehydrate-tmp"@,
        path_at(path, Place::Backup) == path + ".rehydrate-bak"@,
{
}

} // verus!
