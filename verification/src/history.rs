//! The print history: records of finished jobs, newest first, at most
//! `MAX_RECORDS` of them.
use vstd::prelude::*;
use crate::calendar::{format_timestamp, timestamp_text};

verus! {

/// One finished (or cancelled) print job.
pub struct LogRecord {
    /// When the job ended, as `YYYY-MM-DD HH:MM:SS` (UTC).
    pub time: String,
    /// The printed file.
    pub file: String,
    /// Number of pages handled.
    pub pages: u32,
    /// How the job ended.
    pub status: String,
    /// How long the job took.
    pub duration: String,
}

/// The number of records the history keeps.
pub const MAX_RECORDS: usize = 100;

/// The history `h` after the record `r` is added: `r` first, then the older
/// records, cut to `MAX_RECORDS`.
pub open spec fn history_after_add(h: Seq<LogRecord>, r: LogRecord) -> Seq<LogRecord> {
    let all = seq![r] + h;
    if all.len() > MAX_RECORDS { all.take(MAX_RECORDS as int) } else { all }
}

/// The first `limit` records of `h` (all of them if there are fewer).
pub open spec fn first_records(h: Seq<LogRecord>, limit: nat) -> Seq<LogRecord> {
    if h.len() > limit { h.take(limit as int) } else { h }
}

/// Adds a record of a job on `file` that ended `now_secs` seconds after the
/// Unix epoch at the front of the history, and keeps the newest `MAX_RECORDS`.
pub fn add(
    records: &mut Vec<LogRecord>,
    file: &str,
    pages: u32,
    status: &str,
    duration: &str,
    now_secs: u64,
)
    ensures
        final(records)@ == history_after_add(old(records)@, final(records)@[0]),
        final(records)@[0].time@ == timestamp_text(now_secs as nat),
        final(records)@[0].file@ == file@,
        final(records)@[0].pages == pages,
        final(records)@[0].status@ == status@,
        final(records)@[0].duration@ == duration@,
{
    let record = LogRecord {
        time: format_timestamp(now_secs),
        file: String::from_str(file),
        pages,
        status: String::from_str(status),
        duration: String::from_str(duration),
    };
    let ghost r = record;
    records.insert(0, record);
    assert(records@ =~= seq![r] + old(records)@);
    records.truncate(MAX_RECORDS);
    assert(records@ =~= history_after_add(old(records)@, r));
}

/// The newest `limit` records of the history.
pub fn get_records(records: Vec<LogRecord>, limit: usize) -> (r: Vec<LogRecord>)
    ensures
        r@ == first_records(records@, limit as nat),
        r.len() == if limit < records.len() { limit as int } else { records.len() as int },
        forall|i: int| 0 <= i < r.len() ==> #[trigger] r@[i] == records@[i],
{
    let mut records = records;
    records.truncate(limit);
    records
}

/// Empties the history.
pub fn clear(records: &mut Vec<LogRecord>)
    ensures
        final(records)@ == Seq::<LogRecord>::empty(),
{
    records.clear();
}

/// Adding a record never lets the history grow past `MAX_RECORDS`, and a
/// history within the bound stays within it.
pub proof fn lemma_add_keeps_bound(h: Seq<LogRecord>, r: LogRecord)
    ensures
        history_after_add(h, r).len() <= MAX_RECORDS,
        h.len() < MAX_RECORDS ==> history_after_add(h, r).len() == h.len() + 1,
{
}

/// What is read back first after an add is the record just added.
pub proof fn lemma_read_after_add(h: Seq<LogRecord>, r: LogRecord, limit: nat)
    requires
        limit >= 1,
    ensures
        first_records(history_after_add(h, r), limit).len() >= 1,
        first_records(history_after_add(h, r), limit)[0] == r,
{
}

/// Adding a record keeps the older records, in order, behind the new one.
pub proof fn lemma_add_keeps_order(h: Seq<LogRecord>, r: LogRecord, i: int)
    requires
        0 <= i < h.len(),
        i + 1 < MAX_RECORDS,
    ensures
        history_after_add(h, r)[i + 1] == h[i],
{
}

/// Reading the newest `limit` records of any history gives its first
/// `min(limit, len)` records, in their order.
pub proof fn lemma_read_newest(h: Seq<LogRecord>, limit: nat)
    ensures
        first_records(h, limit).len() == if limit < h.len() { limit as int } else { h.len() as int },
        forall|i: int|
            0 <= i < first_records(h, limit).len() ==> #[trigger] first_records(h, limit)[i]
                == h[i],
{
}

/// After an add the history holds the new record, then the older records in
/// their order, as many as fit in `MAX_RECORDS`.
pub proof fn lemma_add_contents(h: Seq<LogRecord>, r: LogRecord)
    ensures
        history_after_add(h, r).len() == if h.len() < MAX_RECORDS {
            h.len() + 1int
        } else {
            MAX_RECORDS as int
        },
        history_after_add(h, r)[0] == r,
        forall|i: int|
            0 < i < history_after_add(h, r).len() ==> #[trigger] history_after_add(h, r)[i] == h[i
                - 1],
{
}

/// After clearing, nothing is read back.
pub proof fn lemma_read_after_clear(limit: nat)
    ensures
        first_records(Seq::<LogRecord>::empty(), limit) == Seq::<LogRecord>::empty(),
{
}

} // verus!
