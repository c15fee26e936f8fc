use vstd::prelude::*;

verus! {

/// The stage of a handled job, kept by the job in an atomic byte: it only ever moves
/// forward, each step taken with one atomic `fetch_max`.
#[derive(Copy, Clone, Debug, PartialEq, Eq, Structural)]
pub enum JobStage {
    /// The closure waits to be run.
    Pending,
    /// A worker took the closure and runs it.
    Executing,
    /// The result is stored and waits to be taken.
    Done,
    /// The result was handed to the handle.
    Taken,
}

/// The number a stage is stored as.
pub open spec fn stage_code(s: JobStage) -> u8 {
    match s {
        JobStage::Pending => 0,
        JobStage::Executing => 1,
        JobStage::Done => 2,
        JobStage::Taken => 3,
    }
}

impl JobStage {
    /// The number the stage is stored as.
    pub fn code(self) -> (r: u8)
        ensures
            r == stage_code(self),
    {
        match self {
            JobStage::Pending => 0,
            JobStage::Executing => 1,
            JobStage::Done => 2,
            JobStage::Taken => 3,
        }
    }

    /// The stage stored as `code`; codes above 3 only arise from a `fetch_max` with 3
    /// or less, so they do not occur, and read as `Taken`.
    pub fn from_code(code: u8) -> (r: JobStage)
        ensures
            code <= 3 ==> stage_code(r) == code,
            code > 3 ==> r == JobStage::Taken,
    {
        if code == 0 {
            JobStage::Pending
        } else if code == 1 {
            JobStage::Executing
        } else if code == 2 {
            JobStage::Done
        } else {
            JobStage::Taken
        }
    }
}

/// The outcome of `fetch_max(target)` on a stage: the stage afterwards.
pub open spec fn advanced(s: JobStage, target: JobStage) -> JobStage {
    if stage_code(s) >= stage_code(target) {
        s
    } else {
        target
    }
}

/// A worker asks to run the job: the stage moves to at least `Executing`, and the
/// worker runs the closure only where the stage it replaced was `Pending`.
pub fn begin_execute(previous: JobStage) -> (r: (JobStage, bool))
    ensures
        r.0 == advanced(previous, JobStage::Executing),
        r.1 == (previous == JobStage::Pending),
{
    match previous {
        JobStage::Pending => (JobStage::Executing, true),
        other => (other, false),
    }
}

/// The stage once the closure returned and its result is stored.
pub fn finish_execute(previous: JobStage) -> (r: JobStage)
    requires
        previous == JobStage::Executing,
    ensures
        r == JobStage::Done,
{
    JobStage::Done
}

/// Whether the result is stored (or was already taken).
pub fn is_finished(stage: JobStage) -> (r: bool)
    ensures
        r == (stage_code(stage) >= 2),
{
    match stage {
        JobStage::Done | JobStage::Taken => true,
        _ => false,
    }
}

/// The handle asks for the result: the stage moves to `Taken`, and the handle reads
/// the result only where the stage it replaced was `Done`.
pub fn begin_take(previous: JobStage) -> (r: (JobStage, bool))
    ensures
        r.0 == advanced(previous, JobStage::Taken),
        r.1 == (previous == JobStage::Done),
{
    match previous {
        JobStage::Done => (JobStage::Taken, true),
        other => (JobStage::Taken, false),
    }
}

/// The closure runs at most once: after one `begin_execute` that runs it, every later
/// one, whatever happened in between, does not.
pub proof fn law_execute_once(s: JobStage, t: JobStage)
    requires
        stage_code(t) >= stage_code(advanced(s, JobStage::Executing)),
    ensures
        s == JobStage::Pending ==> t != JobStage::Pending,
{
}

/// The result is read at most once: after one `begin_take`, the stage is `Taken` and
/// no later `begin_take` reads it.
pub proof fn law_take_once(s: JobStage)
    ensures
        advanced(s, JobStage::Taken) == JobStage::Taken,
        advanced(advanced(s, JobStage::Taken), JobStage::Taken) != JobStage::Done,
{
}


/// A job's closure and result, with the stage that guards them.
pub struct JobState<F, T> {
    stage: JobStage,
    f: Option<F>,
    result: Option<T>,
}

impl<F: FnOnce() -> T, T> JobState<F, T> {
    /// The stage.
    pub closed spec fn spec_stage(&self) -> JobStage {
        self.stage
    }

    /// The closure, while it waits to be run.
    pub closed spec fn closure(&self) -> Option<F> {
        self.f
    }

    /// The stored result, while it waits to be taken.
    pub closed spec fn stored(&self) -> Option<T> {
        self.result
    }

    pub closed spec fn wf(&self) -> bool {
        &&& (self.stage == JobStage::Pending <==> self.f is Some)
        &&& (self.stage == JobStage::Done <==> self.result is Some)
        &&& self.stage != JobStage::Executing
    }

    /// A job used through its methods holds its closure exactly while it is pending,
    /// its result exactly while it is done, and is never left executing.
    pub proof fn lemma_stage_holds(&self)
        requires
            self.wf(),
        ensures
            self.spec_stage() == JobStage::Pending <==> self.closure() is Some,
            self.spec_stage() == JobStage::Done <==> self.stored() is Some,
            self.spec_stage() != JobStage::Executing,
    {
    }

    /// A pending job that will run `f`.
    pub fn new(f: F) -> (r: Self)
        ensures
            r.wf(),
            r.spec_stage() == JobStage::Pending,
            r.closure() == Some(f),
    {
        Self { stage: JobStage::Pending, f: Some(f), result: None }
    }

    /// Runs the closure and stores its result, where the job is still pending; does
    /// nothing otherwise.
    pub fn try_execute(&mut self)
        requires
            old(self).wf(),
            old(self).spec_stage() == JobStage::Pending ==> call_requires(
                old(self).closure()->0,
                (),
            ),
        ensures
            final(self).wf(),
            old(self).spec_stage() == JobStage::Pending ==> final(self).spec_stage()
                == JobStage::Done && final(self).stored() is Some && call_ensures(
                old(self).closure()->0,
                (),
                final(self).stored()->0,
            ),
            old(self).spec_stage() != JobStage::Pending ==> final(self).spec_stage()
                == old(self).spec_stage() && final(self).stored() == old(self).stored(),
    {
        let (next, run) = begin_execute(self.stage);
        if !run {
            return;
        }
        self.stage = next;
        let f = self.f.take();
        match f {
            Some(f) => {
                let r = f();
                self.result = Some(r);
                self.stage = finish_execute(self.stage);
            },
            None => {
                self.stage = JobStage::Pending;
            },
        }
    }

    /// Whether the result is stored or was taken.
    pub fn is_finished(&self) -> (r: bool)
        ensures
            r == (stage_code(self.spec_stage()) >= 2),
    {
        is_finished(self.stage)
    }

    /// Hands out the stored result once: `Some` where the job is done and the result
    /// was not taken yet, `None` otherwise.
    pub fn try_take_result(&mut self) -> (r: Option<T>)
        requires
            old(self).wf(),
        ensures
            final(self).wf(),
            old(self).spec_stage() == JobStage::Done ==> r is Some && r == old(self).stored()
                && final(self).spec_stage() == JobStage::Taken,
            old(self).spec_stage() == JobStage::Pending ==> r is None && final(self).spec_stage()
                == JobStage::Pending && final(self).closure() == old(self).closure()
                && final(self).stored() == old(self).stored(),
            old(self).spec_stage() == JobStage::Taken ==> r is None && final(self).spec_stage()
                == JobStage::Taken,
    {
        if self.stage == JobStage::Pending {
            return None;
        }
        let (next, take) = begin_take(self.stage);
        self.stage = next;
        if take {
            self.result.take()
        } else {
            None
        }
    }
}

/// A counting semaphore's decision on `acquire`: with a permit left, take it (the
/// count afterwards); with none, wait (`None`).
pub fn semaphore_try_acquire(count: usize) -> (r: Option<usize>)
    ensures
        count == 0 ==> r is None,
        count > 0 ==> r == Some((count - 1) as usize),
{
    if count == 0 {
        None
    } else {
        Some(count - 1)
    }
}

/// A counting semaphore's count after `release`.
pub fn semaphore_release(count: usize) -> (r: usize)
    requires
        count < usize::MAX,
    ensures
        r == count + 1,
{
    count + 1
}

/// A release followed by an acquire leaves the count as it was.
pub proof fn law_release_then_acquire(count: usize)
    requires
        count < usize::MAX,
    ensures
        ({
            let c1 = (count + 1) as usize;
            c1 > 0 && (c1 - 1) as usize == count
        }),
{
}

} // verus!
