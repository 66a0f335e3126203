use vstd::prelude::*;
use crate::clock::{utc_in_range, utc_text, utc_text_of};
use crate::datum::{finite_bits, Datum};
use crate::record::{encode_record, lemma_log_round_trip, log_bytes, log_records, record_bytes};
use crate::store::{appended, lemma_appends_in_order, points_of, SeriesStore};

verus! {

/// What the persistence worker is handed after a write: the series' points as
/// they stood right after the append.
pub struct WriteJob {
    pub series_name: String,
    pub points: Vec<Datum>,
}

/// The answer to a read.
#[derive(Clone, Copy, Debug, PartialEq, Eq, Structural)]
pub enum ReadOutcome {
    Found { count: usize },
    NotFound,
}

/// Why a write was turned down before the store was touched.
#[derive(Clone, Copy, Debug, PartialEq, Eq, Structural)]
pub enum Rejected {
    /// The value is infinite or NaN.
    NonFiniteValue,
    /// The timestamp lies outside the calendar that can be written out.
    TimestampOutOfRange,
}

/// A write that went through.
pub struct Accepted {
    /// The number of points the series holds now.
    pub point_count: usize,
    /// The timestamp of the point, written out in UTC.
    pub time_text: String,
    /// The job to hand to the persistence worker.
    pub job: WriteJob,
}

/// Looks `name` up; reading never changes the store.
pub fn handle_read(store: &SeriesStore, name: &String) -> (r: ReadOutcome)
    requires
        store.wf(),
    ensures
        match store.spec_get(name@) {
            Some(v) => r matches ReadOutcome::Found { count } && count as int == v.points.len()
                && count >= 1,
            None => r == ReadOutcome::NotFound,
        },
{
    match store.count(name) {
        Some(count) => ReadOutcome::Found { count },
        None => ReadOutcome::NotFound,
    }
}

/// Takes one point for `name`. `now` is the modification time to record and
/// `time_text` the point's timestamp written out, if it could be. A write with
/// a non-finite value, or whose timestamp could not be written out, is
/// rejected and leaves the store as it was; any other is appended and yields
/// the job that carries the series' points after the append.
pub fn handle_write(
    store: &mut SeriesStore,
    name: &String,
    datum: Datum,
    now: i64,
    time_text: Option<String>,
) -> (r: Result<Accepted, Rejected>)
    requires
        old(store).wf(),
    ensures
        final(store).wf(),
        !finite_bits(datum.value_bits) ==> r == Err::<Accepted, Rejected>(Rejected::NonFiniteValue),
        finite_bits(datum.value_bits) && time_text is None ==> r == Err::<Accepted, Rejected>(
            Rejected::TimestampOutOfRange,
        ),
        r is Err ==> *final(store) == *old(store),
        finite_bits(datum.value_bits) && time_text is Some ==> r is Ok,
        r matches Ok(a) ==> {
            &&& appended(*old(store), *final(store), name@, datum, now)
            &&& a.job.series_name@ == name@
            &&& a.job.points@ == points_of(old(store).spec_get(name@)).push(datum)
            &&& a.point_count == a.job.points@.len()
            &&& a.time_text@ == time_text.unwrap()@
        },
{
    if !datum.has_finite_value() {
        return Err(Rejected::NonFiniteValue);
    }
    let time_text = match time_text {
        Some(t) => t,
        None => {
            return Err(Rejected::TimestampOutOfRange);
        },
    };
    let points = store.append(name, datum, now);
    let point_count = points.len();
    Ok(Accepted { point_count, time_text, job: WriteJob { series_name: name.clone(), points } })
}

/// Takes one point for `name`, recorded as modified at `now`: the outcome of
/// `handle_write` with the point's timestamp written out in UTC. A finite
/// value whose timestamp chrono can hold is always accepted.
pub fn ingest(store: &mut SeriesStore, name: &String, datum: Datum, now: i64) -> (r: Result<
    Accepted,
    Rejected,
>)
    requires
        old(store).wf(),
    ensures
        final(store).wf(),
        !finite_bits(datum.value_bits) ==> r == Err::<Accepted, Rejected>(Rejected::NonFiniteValue),
        finite_bits(datum.value_bits) && !utc_in_range(datum.timestamp as int) ==> r == Err::<
            Accepted,
            Rejected,
        >(Rejected::TimestampOutOfRange),
        finite_bits(datum.value_bits) && utc_in_range(datum.timestamp as int) ==> r is Ok,
        r is Err ==> *final(store) == *old(store),
        r matches Ok(a) ==> {
            &&& appended(*old(store), *final(store), name@, datum, now)
            &&& a.job.series_name@ == name@
            &&& a.job.points@ == points_of(old(store).spec_get(name@)).push(datum)
            &&& a.point_count == a.job.points@.len()
            &&& a.time_text@ == utc_text_of(datum.timestamp as int)
        },
{
    if !datum.has_finite_value() {
        return Err(Rejected::NonFiniteValue);
    }
    let time_text = utc_text(datum.timestamp);
    handle_write(store, name, datum, now, time_text)
}

/// The point a job brings: the last of its snapshot, the earlier ones being
/// already in the log.
pub fn new_point(job: &WriteJob) -> (r: Option<Datum>)
    ensures
        job.points@.len() == 0 ==> r is None,
        job.points@.len() > 0 ==> r == Some(job.points@.last()),
{
    if job.points.len() == 0 {
        None
    } else {
        Some(job.points[job.points.len() - 1])
    }
}

/// A value text that can stand in a log line: it holds no newline.
pub open spec fn line_safe(value_text: Seq<u8>) -> bool {
    forall|j: int| 0 <= j < value_text.len() ==> value_text[j] != 10u8
}

/// The one line the worker appends for `job`: the record of its new point,
/// with the value written as `value_text`. There is none for an empty job, or
/// for a value text that would break the line.
pub fn persist_line(job: &WriteJob, value_text: &Vec<u8>) -> (r: Option<Vec<u8>>)
    ensures
        r is Some <==> job.points@.len() > 0 && line_safe(value_text@),
        r matches Some(line) ==> line@ == record_bytes(
            job.points@.last().timestamp as int,
            value_text@,
        ),
{
    let mut j: usize = 0;
    while j < value_text.len()
        invariant
            j <= value_text@.len(),
            forall|k: int| 0 <= k < j ==> value_text@[k] != 10u8,
        decreases value_text@.len() - j,
    {
        if value_text[j] == 10u8 {
            return None;
        }
        j = j + 1;
    }
    match new_point(job) {
        Some(d) => Some(encode_record(d.timestamp, value_text)),
        None => None,
    }
}

/// The log lines of `points`, each value written as the matching entry of `texts`.
pub open spec fn lines_of(points: Seq<Datum>, texts: Seq<Seq<u8>>) -> Seq<(int, Seq<u8>)> {
    Seq::new(points.len(), |i: int| (points[i].timestamp as int, texts[i]))
}

/// No write is lost: after `ds.len()` successive writes to a series that was
/// unknown, the series holds exactly `ds.len()` points, and the log that gets
/// the line `persist_line` gives for each job (it gives one exactly for
/// line-safe value texts) reads back as exactly as many records, with the
/// same timestamps and value texts in the same order.
pub proof fn lemma_no_lost_writes(
    stores: Seq<SeriesStore>,
    name: Seq<char>,
    ds: Seq<Datum>,
    nows: Seq<i64>,
    texts: Seq<Seq<u8>>,
)
    requires
        stores.len() == ds.len() + 1,
        nows.len() == ds.len(),
        texts.len() == ds.len(),
        stores[0].spec_get(name) is None,
        forall|i: int| 0 <= i < ds.len() ==> appended(stores[i], stores[i + 1], name, #[trigger] ds[i], nows[i]),
        forall|i: int| 0 <= i < texts.len() ==> line_safe(#[trigger] texts[i]),
    ensures
        points_of(stores[ds.len() as int].spec_get(name)).len() == ds.len(),
        log_records(log_bytes(lines_of(points_of(stores[ds.len() as int].spec_get(name)), texts)))
            == Some(lines_of(ds, texts)),
{
    lemma_appends_in_order(stores, name, ds, nows);
    let rs = lines_of(ds, texts);
    assert forall|i: int| 0 <= i < rs.len() implies i64::MIN <= #[trigger] rs[i].0 <= i64::MAX by {}
    assert forall|i: int, j: int| 0 <= i < rs.len() && 0 <= j < rs[i].1.len() implies rs[i].1[j] != 10u8 by {
        assert(rs[i].1 == texts[i]);
        assert(line_safe(texts[i]));
    }
    lemma_log_round_trip(rs);
}

} // verus!
