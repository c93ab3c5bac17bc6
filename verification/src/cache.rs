//! Recomputation cache: decides from recorded modification stamps whether a
//! department's schedule must be rebuilt, and produces the refreshed record
//! after a successful rebuild.

use vstd::prelude::*;

verus! {

/// Modification stamps of the three shared input sources: the day-override
/// table, the holiday list and the institution-wide notices.
#[derive(Clone, Copy, Debug, PartialEq, Eq, Structural)]
pub struct GlobalStamps {
    pub days: u64,
    pub holidays: u64,
    pub central_notices: u64,
}

/// Per-department record: the last-seen stamp of the semester-start file and
/// of the local-notices file (`None` when that file did not exist).
#[derive(Clone, Copy, Debug)]
pub struct DeptRecord {
    pub semester: u64,
    pub notices: Option<u64>,
}

/// A department is stale when it has no record yet, or when any of its two
/// recorded stamps or the three recorded global stamps differs from the
/// current ones.
pub open spec fn stale_spec(
    rec: Option<DeptRecord>,
    stored: GlobalStamps,
    cur_sem: u64,
    cur_notices: Option<u64>,
    cur: GlobalStamps,
) -> bool {
    match rec {
        None => true,
        Some(r) => !(r.semester == cur_sem && r.notices == cur_notices && stored == cur),
    }
}

/// Whether the department whose stored record is `rec` must be recomputed,
/// given the current stamps of its two inputs and of the three shared ones.
pub fn is_stale(
    rec: Option<DeptRecord>,
    stored: GlobalStamps,
    cur_sem: u64,
    cur_notices: Option<u64>,
    cur: GlobalStamps,
) -> (r: bool)
    ensures
        r == stale_spec(rec, stored, cur_sem, cur_notices, cur),
{
    match rec {
        None => true,
        Some(record) => {
            let same_notices = match (record.notices, cur_notices) {
                (None, None) => true,
                (Some(a), Some(b)) => a == b,
                _ => false,
            };
            !(record.semester == cur_sem && same_notices && stored.days == cur.days
                && stored.holidays == cur.holidays && stored.central_notices
                == cur.central_notices)
        },
    }
}

/// The record and global stamps to store after a successful recomputation:
/// exactly the current stamps, so the department is no longer stale.
pub fn update(cur_sem: u64, cur_notices: Option<u64>, cur: GlobalStamps) -> (r: (
    DeptRecord,
    GlobalStamps,
))
    ensures
        r.0.semester == cur_sem,
        r.0.notices == cur_notices,
        r.1 == cur,
        !stale_spec(Some(r.0), r.1, cur_sem, cur_notices, cur),
{
    (DeptRecord { semester: cur_sem, notices: cur_notices }, cur)
}

/// Law: with an existing record, staleness holds exactly when one of the
/// five stamps changed; without a record the department is always stale.
pub proof fn lemma_cache_staleness(
    rec: DeptRecord,
    stored: GlobalStamps,
    cur_sem: u64,
    cur_notices: Option<u64>,
    cur: GlobalStamps,
)
    ensures
        stale_spec(Some(rec), stored, cur_sem, cur_notices, cur) <==> !(cur_sem == rec.semester
            && cur_notices == rec.notices && cur == stored),
        stale_spec(None, stored, cur_sem, cur_notices, cur),
{
}

} // verus!
