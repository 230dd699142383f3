//! The recorded data as a whole: the tables, and the writer where one runs.
use vstd::prelude::*;
use vstd::string::*;

use crate::calendar;
use crate::config;
use crate::config::FocusFlowConfig;
use crate::db::archive;
use crate::db::archive::check_yearly_archive;
use crate::db::backup;
use crate::db::repair;
use crate::db::repair::heal_daily_consistency;
use crate::db::store;
use crate::db::store::{Store, StoreModel};
use crate::db::writer;
use crate::db::writer::DbWriter;
use crate::tally;

verus! {

/// Whether a part of the program came up.
pub struct CheckResult {
    pub step: String,
    pub ok: bool,
    pub detail: String,
}

/// The recorded data: the writer where one runs, and what came up with it.
pub struct Database {
    pub writer: Option<DbWriter>,
    pub startup_checks: Vec<CheckResult>,
}

/// The files after the work at start: healed, and with the days of past years moved to
/// their own year where that is switched on.
pub open spec fn after_start(st: StoreModel, archive_on: bool, year: i32) -> StoreModel {
    let h = repair::healed_store(st);
    match archive::first_stale(h, year) {
        Some(first) => if archive_on {
            archive::archived_years(h, year, first, year as int)
        } else {
            h
        },
        None => h,
    }
}

/// The notes of the start are handed out in `r`: all of them, and none is left.
pub open spec fn taken(before: Database, after: Database, r: Vec<CheckResult>) -> bool {
    &&& r == before.startup_checks
    &&& after.startup_checks@.len() == 0
    &&& after.writer == before.writer
}

/// The notes of the start are handed out once: a call after the first finds nothing.
pub proof fn lemma_checks_are_taken_once(
    a: Database,
    b: Database,
    c: Database,
    first: Vec<CheckResult>,
    later: Vec<CheckResult>,
)
    requires
        taken(a, b, first),
        taken(b, c, later),
    ensures
        first == a.startup_checks,
        later@.len() == 0,
        c.startup_checks@.len() == 0,
{
}

impl Database {
    /// Brings the files in order and starts with a writer.
    pub fn init(
        st: &mut Store,
        config: &FocusFlowConfig,
        current_year: i32,
        writer: DbWriter,
        startup_checks: Vec<CheckResult>,
    ) -> (r: Self)
        requires
            old(st).wf(),
            config.wf(),
            calendar::FIRST_YEAR <= current_year <= calendar::LAST_YEAR,
            forall|i: int|
                0 <= i < old(st)@.len() ==> ((#[trigger] old(st)@[i]).1 matches Some(y)
                    ==> tally::total(y.hourly) + tally::total(y.keys) <= i64::MAX),
            forall|y: i32|
                y < current_year ==> archive::can_receive(
                    #[trigger] store::tables_of(repair::healed_store(old(st)@), y),
                    store::tables_of(repair::healed_store(old(st)@), current_year),
                ),
        ensures
            final(st).wf(),
            final(st)@ == after_start(
                old(st)@,
                config::truth(config.value("database"@, "yearly_archive"@), true),
                current_year,
            ),
            r.writer == Some(writer),
            r.startup_checks == startup_checks,
    {
        heal_daily_consistency(st);
        let on = config.get_bool("database", "yearly_archive", true);
        let _moved = check_yearly_archive(st, on, current_year);
        Database { writer: Some(writer), startup_checks }
    }

    /// Starts without a writer, for reading only.
    pub fn init_readonly() -> (r: Self)
        ensures
            r.writer is None,
            r.startup_checks@.len() == 0,
    {
        Database { writer: None, startup_checks: Vec::new() }
    }

    /// Takes what came up and what did not; the next call finds nothing.
    pub fn take_startup_checks(&mut self) -> (r: Vec<CheckResult>)
        ensures
            taken(*old(self), *final(self), r),
    {
        let mut taken: Vec<CheckResult> = Vec::new();
        std::mem::swap(&mut taken, &mut self.startup_checks);
        taken
    }

    /// The writer, where one runs.
    pub fn writer(&self) -> (r: Option<&DbWriter>)
        ensures
            match r {
                Some(w) => self.writer == Some(*w),
                None => self.writer is None,
            },
    {
        match &self.writer {
            Some(w) => Some(w),
            None => None,
        }
    }

    /// Counts a key press. Without a writer nothing happens.
    pub fn record_key(&mut self, key_name: &str, timestamp: i64, day: u64, offset: i64)
        requires
            old(self).writer matches Some(w) ==> w.wf() && w.has_room(),
        ensures
            final(self).startup_checks == old(self).startup_checks,
            match old(self).writer {
                None => final(self).writer is None,
                Some(w) => final(self).writer matches Some(x) && writer::counted(
                    w,
                    x,
                    writer::recorded(w.agg@, key_name@, timestamp as int, offset as int),
                    1,
                    writer::gap(w.agg@.last_ts, timestamp as int),
                    day,
                ),
            },
    {
        let mut slot: Option<DbWriter> = None;
        std::mem::swap(&mut slot, &mut self.writer);
        if let Some(mut w) = slot {
            w.record(key_name, timestamp, day, offset);
            self.writer = Some(w);
        }
    }

    /// Brings the counts to the tables. Gives the recovery file that is no longer needed.
    /// Without a writer nothing happens.
    pub fn flush(&mut self, st: &mut Store, current_year: i32) -> (r: Option<String>)
        requires
            old(st).wf(),
            old(self).writer matches Some(w) ==> w.wf() && writer::flushable(
                old(st)@,
                w.agg@,
                current_year as int,
            ) && w.flush_seq + writer::MAX_PARTS <= u64::MAX,
        ensures
            final(st).wf(),
            final(self).startup_checks == old(self).startup_checks,
            match old(self).writer {
                None => final(self).writer is None && final(st)@ == old(st)@ && r is None,
                Some(w) => final(self).writer matches Some(x) && x.wf() && writer::carried_over(
                    w,
                    x,
                    old(st)@,
                    final(st)@,
                    current_year as int,
                    r,
                ),
            },
    {
        let mut slot: Option<DbWriter> = None;
        std::mem::swap(&mut slot, &mut self.writer);
        match slot {
            Some(mut w) => {
                let r = w.flush(st, current_year);
                self.writer = Some(w);
                r
            },
            None => None,
        }
    }

    /// Ends the work: brings the counts to the tables and stops the writer. Gives the
    /// recovery file that is no longer needed, and how many backups to keep where one is to
    /// be made now.
    pub fn shutdown(&mut self, st: &mut Store, current_year: i32, config: &FocusFlowConfig) -> (r: (
        Option<String>,
        Option<i64>,
    ))
        requires
            old(st).wf(),
            config.wf(),
            old(self).writer matches Some(w) ==> w.wf() && writer::flushable(
                old(st)@,
                w.agg@,
                current_year as int,
            ) && w.flush_seq + writer::MAX_PARTS <= u64::MAX,
        ensures
            final(st).wf(),
            final(self).startup_checks == old(self).startup_checks,
            match old(self).writer {
                None => final(self).writer is None && final(st)@ == old(st)@ && r.0 is None && r.1
                    is None,
                Some(w) => {
                    &&& final(self).writer matches Some(x) && x.wf() && !x.alive
                        && writer::carried_over(
                        w,
                        (DbWriter { alive: w.alive, ..x }),
                        old(st)@,
                        final(st)@,
                        current_year as int,
                        r.0,
                    )
                    &&& if config::truth(config.value("database"@, "backup_on_exit"@), true) {
                        r.1 matches Some(n) && n == backup::setting_at_least(
                            config.value("database"@, "max_backups"@),
                            5,
                            1,
                        )
                    } else {
                        r.1 is None
                    }
                },
            },
    {
        let left = self.flush(st, current_year);
        let ghost mid = self.writer;
        let mut slot: Option<DbWriter> = None;
        std::mem::swap(&mut slot, &mut self.writer);
        match slot {
            Some(mut w) => {
                w.stop();
                proof {
                    let x = mid->0;
                    assert((DbWriter { alive: x.alive, ..w }) == x);
                }
                self.writer = Some(w);
                let keep: Option<i64> = if config.get_bool("database", "backup_on_exit", true) {
                    let n = config.get_int("database", "max_backups", 5);
                    if n < 1 {
                        Some(1)
                    } else {
                        Some(n)
                    }
                } else {
                    None
                };
                (left, keep)
            },
            None => (left, None),
        }
    }
}

/// A start repairs every file and adds none: where past years are not archived, each file
/// keeps its keys, applications, seconds and devices as they are. Archiving only follows
/// where the repaired file of the year has days of past years.
pub proof fn lemma_start_repairs_files(st: StoreModel, year: i32, i: int)
    requires
        0 <= i < st.len(),
    ensures
        ({
            let a = after_start(st, false, year);
            &&& a.len() == st.len()
            &&& a[i].0 == st[i].0
            &&& a[i].1 is Some <==> st[i].1 is Some
            &&& st[i].1 matches Some(y) ==> a[i].1 matches Some(z) ==> z.keys == y.keys && z.apps
                == y.apps && z.seconds == y.seconds && z.devices == y.devices && z.device_counts
                == y.device_counts && z.device_keys == y.device_keys
        }),
        archive::first_stale(repair::healed_store(st), year) is None ==> after_start(st, true, year)
            == after_start(st, false, year),
        archive::first_stale(repair::healed_store(st), year) matches Some(f) ==> after_start(
            st,
            true,
            year,
        ) == archive::archived_years(after_start(st, false, year), year, f, year as int),
{
}

} // verus!
