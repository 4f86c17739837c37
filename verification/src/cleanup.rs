//! Which jobs are removed from the disk.

use vstd::prelude::*;

use crate::jobs;
use crate::jobs::JobMeta;
use crate::scalar::Scalar;

verus! {

/// What a clean-up did.
#[derive(Clone, Copy, Debug, PartialEq, Eq, Structural)]
pub struct CleanupStats {
    pub scanned: usize,
    pub deleted: usize,
    pub skipped_active: usize,
    pub skipped_young: usize,
    pub errors: usize,
}

/// A clean-up under way.
#[derive(Clone, Copy, Debug, PartialEq, Eq, Structural)]
pub struct CleanupRun {
    pub stats: CleanupStats,
    /// How long jobs are kept.
    pub retention_s: u64,
    /// How many are removed at most.
    pub max_delete: usize,
}

#[derive(Clone, Copy, Debug, PartialEq, Eq, Structural)]
pub enum Visit {
    /// The clean-up is over.
    Stop,
    Keep,
    Delete,
    /// The age of the directory decides.
    AskAge,
}

pub open spec fn one_more(n: usize) -> usize {
    if n == usize::MAX {
        n
    } else {
        (n + 1) as usize
    }
}

/// What happens to an entry of the jobs' directory, and what is counted. Entries
/// that are no directories are left alone. A job that is known is kept until it
/// has ended and the time has passed since.
pub open spec fn visited<S: Scalar>(run: CleanupRun, is_dir: bool, known: Option<JobMeta<S>>, now: S) -> (
    CleanupRun,
    Visit,
) {
    let scanned = CleanupStats { scanned: one_more(run.stats.scanned), ..run.stats };
    if !is_dir {
        (run, Visit::Keep)
    } else if run.stats.deleted >= run.max_delete {
        (CleanupRun { stats: scanned, ..run }, Visit::Stop)
    } else {
        match known {
            Some(m) => if !jobs::is_ended(m.status@) {
                (
                    CleanupRun {
                        stats: CleanupStats { skipped_active: one_more(run.stats.skipped_active), ..scanned },
                        ..run
                    },
                    Visit::Keep,
                )
            } else if now.rank() < m.last_time().plus_spec(S::whole_spec(run.retention_s as nat)).rank() {
                (
                    CleanupRun {
                        stats: CleanupStats { skipped_young: one_more(run.stats.skipped_young), ..scanned },
                        ..run
                    },
                    Visit::Keep,
                )
            } else {
                (CleanupRun { stats: scanned, ..run }, Visit::Delete)
            },
            None => (CleanupRun { stats: scanned, ..run }, Visit::AskAge),
        }
    }
}

impl CleanupRun {
    pub fn new(retention_s: u64, max_delete: usize) -> (r: Self)
        ensures
            r == (CleanupRun {
                stats: CleanupStats { scanned: 0, deleted: 0, skipped_active: 0, skipped_young: 0, errors: 0 },
                retention_s: if retention_s == 0 {
                    1
                } else {
                    retention_s
                },
                max_delete: if max_delete == 0 {
                    1
                } else {
                    max_delete
                },
            }),
    {
        CleanupRun {
            stats: CleanupStats { scanned: 0, deleted: 0, skipped_active: 0, skipped_young: 0, errors: 0 },
            retention_s: if retention_s == 0 {
                1
            } else {
                retention_s
            },
            max_delete: if max_delete == 0 {
                1
            } else {
                max_delete
            },
        }
    }

    /// Decides on an entry; `known` is what is known of the job, if anything is.
    pub fn visit<S: Scalar>(&mut self, is_dir: bool, known: Option<&JobMeta<S>>, now: S) -> (r: Visit)
        ensures
            (*final(self), r) == visited(
                *old(self),
                is_dir,
                match known {
                    None => None,
                    Some(m) => Some(*m),
                },
                now,
            ),
    {
        if !is_dir {
            return Visit::Keep;
        }
        self.stats.scanned = self.stats.scanned.saturating_add(1);
        if self.stats.deleted >= self.max_delete {
            return Visit::Stop;
        }
        match known {
            Some(m) => {
                if !jobs::has_ended(m.status.as_str()) {
                    self.stats.skipped_active = self.stats.skipped_active.saturating_add(1);
                    return Visit::Keep;
                }
                let last: S = match m.finished_at {
                    Some(t) => t,
                    None => m.updated_at,
                };
                if now.below(last.plus(S::whole(self.retention_s))) {
                    self.stats.skipped_young = self.stats.skipped_young.saturating_add(1);
                    return Visit::Keep;
                }
                Visit::Delete
            },
            None => Visit::AskAge,
        }
    }

    /// Decides on a job that nothing is known of, by the seconds since its
    /// directory changed.
    pub fn judge_age(&mut self, age_s: u64) -> (r: Visit)
        ensures
            r == (if age_s < old(self).retention_s {
                Visit::Keep
            } else {
                Visit::Delete
            }),
            *final(self) == (if age_s < old(self).retention_s {
                CleanupRun {
                    stats: CleanupStats {
                        skipped_young: one_more(old(self).stats.skipped_young),
                        ..old(self).stats
                    },
                    ..*old(self)
                }
            } else {
                *old(self)
            }),
    {
        if age_s < self.retention_s {
            self.stats.skipped_young = self.stats.skipped_young.saturating_add(1);
            Visit::Keep
        } else {
            Visit::Delete
        }
    }

    pub fn note_error(&mut self)
        ensures
            *final(self) == (CleanupRun {
                stats: CleanupStats { errors: one_more(old(self).stats.errors), ..old(self).stats },
                ..*old(self)
            }),
    {
        self.stats.errors = self.stats.errors.saturating_add(1);
    }

    /// Counts a directory that was to be removed. Returns whether its job is
    /// forgotten: only once the directory is gone.
    pub fn settle_removal(&mut self, removed: bool) -> (r: bool)
        ensures
            r == removed,
            *final(self) == (CleanupRun {
                stats: if removed {
                    CleanupStats { deleted: one_more(old(self).stats.deleted), ..old(self).stats }
                } else {
                    CleanupStats { errors: one_more(old(self).stats.errors), ..old(self).stats }
                },
                ..*old(self)
            }),
    {
        if removed {
            self.stats.deleted = self.stats.deleted.saturating_add(1);
        } else {
            self.note_error();
        }
        removed
    }

    /// Whether there is something to report.
    pub fn is_notable(&self) -> (r: bool)
        ensures
            r == (self.stats.deleted > 0 || self.stats.errors > 0),
    {
        self.stats.deleted > 0 || self.stats.errors > 0
    }
}

/// A job that has not ended is never removed.
pub proof fn law_active_jobs_are_kept<S: Scalar>(run: CleanupRun, is_dir: bool, known: JobMeta<S>, now: S)
    requires
        !jobs::is_ended(known.status@),
    ensures
        visited(run, is_dir, Some(known), now).1 == Visit::Keep || visited(run, is_dir, Some(known), now).1
            == Visit::Stop,
{
}

/// A job that ended, or changed last, less than the retention ago is not removed.
pub proof fn law_young_jobs_are_kept<S: Scalar>(run: CleanupRun, is_dir: bool, known: JobMeta<S>, now: S)
    requires
        now.rank() < known.last_time().plus_spec(S::whole_spec(run.retention_s as nat)).rank(),
    ensures
        visited(run, is_dir, Some(known), now).1 == Visit::Keep || visited(run, is_dir, Some(known), now).1
            == Visit::Stop,
{
}

/// A clean-up never goes on to remove more than it may.
pub proof fn law_removals_are_limited<S: Scalar>(run: CleanupRun, is_dir: bool, known: Option<JobMeta<S>>, now: S)
    ensures
        ({
            let (after, visit) = visited(run, is_dir, known, now);
            visit == Visit::Delete || visit == Visit::AskAge ==> after.stats.deleted < after.max_delete
        }),
{
}

/// How many seconds lie between two clean-ups: at least a minute.
pub fn cleanup_interval(interval_s: u64) -> (r: u64)
    ensures
        r == (if interval_s < 60 {
            60
        } else {
            interval_s
        }),
{
    if interval_s < 60 {
        60
    } else {
        interval_s
    }
}

/// A known job is removed exactly if it has ended, was kept for as long as it must be,
/// and the run may still remove one.
pub proof fn law_old_jobs_are_removed<S: Scalar>(run: CleanupRun, is_dir: bool, known: JobMeta<S>, now: S)
    ensures
        visited(run, is_dir, Some(known), now).1 == Visit::Delete <==> {
            &&& is_dir
            &&& run.stats.deleted < run.max_delete
            &&& known.status@ == "done"@ || known.status@ == "error"@
            &&& (match known.finished_at {
                Some(t) => t,
                None => known.updated_at,
            }).plus_spec(S::whole_spec(run.retention_s as nat)).rank() <= now.rank()
        },
{
}

/// Each directory is counted once: what is kept, as active or as young. Of a directory
/// that no job is known of, the age decides; a file is left alone.
pub proof fn law_visits_are_counted<S: Scalar>(run: CleanupRun, is_dir: bool, known: Option<JobMeta<S>>, now: S)
    requires
        run.stats.scanned < usize::MAX,
        run.stats.skipped_active < usize::MAX,
        run.stats.skipped_young < usize::MAX,
    ensures
        ({
            let (after, visit) = visited(run, is_dir, known, now);
            let a = after.stats;
            let b = run.stats;
            &&& !is_dir ==> after == run && visit == Visit::Keep
            &&& is_dir ==> a.scanned == b.scanned + 1
            &&& visit == Visit::Stop <==> is_dir && b.deleted >= run.max_delete
            &&& visit == Visit::AskAge <==> is_dir && b.deleted < run.max_delete && known is None
            &&& is_dir && visit == Visit::Keep ==> a.skipped_active + a.skipped_young == b.skipped_active
                + b.skipped_young + 1
            &&& visit != Visit::Keep ==> a.skipped_active == b.skipped_active && a.skipped_young == b.skipped_young
            &&& a.skipped_active == b.skipped_active + 1 <==> is_dir && b.deleted < run.max_delete && (known matches Some(
                m,
            ) && m.status@ != "done"@ && m.status@ != "error"@)
            &&& a.deleted == b.deleted && a.errors == b.errors
            &&& after.retention_s == run.retention_s && after.max_delete == run.max_delete
        }),
{
}

} // verus!
