use vstd::prelude::*;

verus! {

/// Which background job may still report progress. Each job starts a new
/// epoch, so a job that was superseded or cancelled can neither update nor
/// finish the one that runs now. (The label and fraction shown for the live
/// job are kept beside this by the caller.)
#[derive(Debug, Clone, Copy)]
pub struct ProgressEpochs {
    epoch: u64,
    live: Option<u64>,
}

impl ProgressEpochs {
    /// The epoch of the newest job, or of the last cancel.
    pub closed spec fn epoch_spec(&self) -> u64 {
        self.epoch
    }

    /// The epoch of the job whose progress is shown, if one is.
    pub closed spec fn live_spec(&self) -> Option<u64> {
        self.live
    }

    /// No job yet.
    pub fn new() -> (p: Self)
        ensures
            p.epoch_spec() == 0,
            p.live_spec() is None,
    {
        ProgressEpochs { epoch: 0, live: None }
    }

    /// Starts a job: the next epoch (wrapping past `u64::MAX`), which becomes
    /// the one shown; returns it.
    pub fn begin(&mut self) -> (e: u64)
        ensures
            e == (if old(self).epoch_spec() == u64::MAX {
                0
            } else {
                old(self).epoch_spec() + 1
            }),
            final(self).epoch_spec() == e,
            final(self).live_spec() == Some(e),
    {
        self.epoch = self.epoch.wrapping_add(1);
        self.live = Some(self.epoch);
        self.epoch
    }

    /// Whether `epoch` is the newest one.
    pub fn is_epoch(&self, epoch: u64) -> (b: bool)
        ensures
            b == (self.epoch_spec() == epoch),
    {
        self.epoch == epoch
    }

    /// Whether the job of `epoch` may update the progress shown: it is the
    /// job shown.
    pub fn accepts(&self, epoch: u64) -> (b: bool)
        ensures
            b == (self.live_spec() == Some(epoch)),
    {
        match self.live {
            Some(e) => e == epoch,
            None => false,
        }
    }

    /// The job of `epoch` is done: the progress stops showing if it is that
    /// job's, else nothing changes.
    pub fn finish(&mut self, epoch: u64)
        ensures
            final(self).epoch_spec() == old(self).epoch_spec(),
            final(self).live_spec() == finish_live(old(self).live_spec(), epoch),
    {
        if self.accepts(epoch) {
            self.live = None;
        }
    }

    /// Drops the current job: a new epoch starts, so no running job can
    /// report or finish any more, and nothing is shown.
    pub fn cancel(&mut self)
        ensures
            final(self).epoch_spec() == (if old(self).epoch_spec() == u64::MAX {
                0
            } else {
                old(self).epoch_spec() + 1
            }),
            final(self).live_spec() is None,
    {
        self.epoch = self.epoch.wrapping_add(1);
        self.live = None;
    }

    /// Whether some job's progress is shown.
    pub fn is_active(&self) -> (b: bool)
        ensures
            b == (self.live_spec() is Some),
    {
        self.live.is_some()
    }
}

/// What finishing the job of `epoch` leaves shown, when `live` is shown.
pub open spec fn finish_live(live: Option<u64>, epoch: u64) -> Option<u64> {
    if live == Some(epoch) {
        None
    } else {
        live
    }
}

/// A job that another began after it can no longer update or finish the
/// progress: once `second` began after `first`, the epoch of `first` is not
/// accepted, and finishing it leaves `second`'s job shown. (Epochs wrap only
/// after `u64::MAX` jobs.)
pub proof fn law_superseded_job_is_ignored(
    before: ProgressEpochs,
    first: u64,
    middle: ProgressEpochs,
    second: u64,
    after: ProgressEpochs,
)
    requires
        before.epoch_spec() < u64::MAX - 1,
        first == before.epoch_spec() + 1,
        middle.epoch_spec() == first,
        middle.live_spec() == Some(first),
        second == middle.epoch_spec() + 1,
        after.epoch_spec() == second,
        after.live_spec() == Some(second),
    ensures
        after.live_spec() != Some(first),
        finish_live(after.live_spec(), first) == Some(second),
{
}

} // verus!
