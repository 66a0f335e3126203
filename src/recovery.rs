use vstd::prelude::*;
use crate::datum::Datum;
use crate::store::{lemma_no_empty_series, points_of, SeriesStore, SeriesView};

verus! {

/// The largest timestamp among `points`, or the least 64-bit integer when
/// there is none.
pub open spec fn max_timestamp(points: Seq<Datum>) -> i64
    decreases points.len(),
{
    if points.len() == 0 {
        i64::MIN
    } else {
        let m = max_timestamp(points.drop_last());
        if m < points.last().timestamp {
            points.last().timestamp
        } else {
            m
        }
    }
}

/// The points read from one series log, under the series' name.
pub struct SeriesLog {
    pub name: String,
    pub points: Vec<Datum>,
}

/// What the logs say of the series `name`: the last non-empty log under that
/// name, with the largest timestamp in it as its modification time.
pub open spec fn recovered_view(logs: Seq<SeriesLog>, name: Seq<char>) -> Option<SeriesView>
    decreases logs.len(),
{
    if logs.len() == 0 {
        None
    } else {
        let e = logs.last();
        if e.name@ == name && e.points@.len() > 0 {
            Some(SeriesView { points: e.points@, last_modified: max_timestamp(e.points@) })
        } else {
            recovered_view(logs.drop_last(), name)
        }
    }
}

/// The modification time of a recovered series: its largest timestamp.
pub fn latest_timestamp(points: &Vec<Datum>) -> (r: i64)
    ensures
        r == max_timestamp(points@),
{
    let mut m: i64 = i64::MIN;
    let mut i: usize = 0;
    while i < points.len()
        invariant
            i <= points@.len(),
            m == max_timestamp(points@.take(i as int)),
        decreases points@.len() - i,
    {
        proof {
            assert(points@.take(i + 1).drop_last() =~= points@.take(i as int));
        }
        if m < points[i].timestamp {
            m = points[i].timestamp;
        }
        i = i + 1;
    }
    assert(points@.take(i as int) =~= points@);
    m
}

/// Builds the store from the logs found at start-up, in the order given. An
/// empty log makes no series.
pub fn recover_all(logs: &Vec<SeriesLog>) -> (r: SeriesStore)
    ensures
        r.wf(),
        forall|n: Seq<char>| r.spec_get(n) == recovered_view(logs@, n),
{
    let mut store = SeriesStore::new();
    let mut i: usize = 0;
    while i < logs.len()
        invariant
            i <= logs@.len(),
            store.wf(),
            forall|n: Seq<char>| store.spec_get(n) == recovered_view(logs@.take(i as int), n),
        decreases logs@.len() - i,
    {
        let e = &logs[i];
        let ghost before = store;
        if e.points.len() > 0 {
            let last_modified = latest_timestamp(&e.points);
            let points = e.points.clone();
            assert(points@ =~= e.points@);
            store.restore(e.name.clone(), points, last_modified);
        }
        proof {
            let t = logs@.take(i + 1);
            assert(t.drop_last() =~= logs@.take(i as int));
            assert(t.last() == logs@[i as int]);
        }
        i = i + 1;
    }
    assert(logs@.take(i as int) =~= logs@);
    store
}

/// Recovery depends on the logs alone: two stores recovered from logs that
/// hold the same names and points hold the same series, with the same point
/// counts and modification times.
pub proof fn lemma_recovery_idempotent(
    logs_a: Seq<SeriesLog>,
    logs_b: Seq<SeriesLog>,
    a: SeriesStore,
    b: SeriesStore,
)
    requires
        logs_a.len() == logs_b.len(),
        forall|i: int|
            0 <= i < logs_a.len() ==> logs_a[i].name@ == logs_b[i].name@ && logs_a[i].points@
                == logs_b[i].points@,
        forall|n: Seq<char>| a.spec_get(n) == recovered_view(logs_a, n),
        forall|n: Seq<char>| b.spec_get(n) == recovered_view(logs_b, n),
    ensures
        forall|n: Seq<char>| a.spec_get(n) == b.spec_get(n),
{
    assert forall|n: Seq<char>| recovered_view(logs_a, n) == recovered_view(logs_b, n) by {
        lemma_recovered_view_same(logs_a, logs_b, n);
    }
}

proof fn lemma_recovered_view_same(logs_a: Seq<SeriesLog>, logs_b: Seq<SeriesLog>, n: Seq<char>)
    requires
        logs_a.len() == logs_b.len(),
        forall|i: int|
            0 <= i < logs_a.len() ==> logs_a[i].name@ == logs_b[i].name@ && logs_a[i].points@
                == logs_b[i].points@,
    ensures
        recovered_view(logs_a, n) == recovered_view(logs_b, n),
    decreases logs_a.len(),
{
    if logs_a.len() > 0 {
        lemma_recovered_view_same(logs_a.drop_last(), logs_b.drop_last(), n);
    }
}

/// No two logs carry the same name.
pub open spec fn log_names_distinct(logs: Seq<SeriesLog>) -> bool {
    forall|i: int, j: int|
        0 <= i < logs.len() && 0 <= j < logs.len() && i != j ==> logs[i].name@ != logs[j].name@
}

/// What recovery makes of one non-empty log.
pub open spec fn log_view(e: SeriesLog) -> SeriesView {
    SeriesView { points: e.points@, last_modified: max_timestamp(e.points@) }
}

/// With distinct names, recovery gives each name what its own log holds,
/// wherever that log stands among the others.
pub proof fn lemma_recovered_view_at(logs: Seq<SeriesLog>, i: int)
    requires
        log_names_distinct(logs),
        0 <= i < logs.len(),
    ensures
        recovered_view(logs, logs[i].name@) == if logs[i].points@.len() > 0 {
            Some(log_view(logs[i]))
        } else {
            None
        },
    decreases logs.len(),
{
    let n = logs[i].name@;
    if i < logs.len() - 1 {
        let init = logs.drop_last();
        assert(logs.last().name@ != n);
        lemma_recovered_view_at(init, i);
    } else {
        if logs[i].points@.len() == 0 {
            let init = logs.drop_last();
            lemma_recovered_view_empty(init, n);
        }
    }
}

/// A name whose logs are all empty, or that no log carries, gets no series.
pub proof fn lemma_recovered_view_empty(logs: Seq<SeriesLog>, n: Seq<char>)
    requires
        forall|i: int| 0 <= i < logs.len() && logs[i].name@ == n ==> logs[i].points@.len() == 0,
    ensures
        recovered_view(logs, n) is None,
    decreases logs.len(),
{
    if logs.len() > 0 {
        lemma_recovered_view_empty(logs.drop_last(), n);
    }
}

/// Recovery does not depend on the order in which the logs are found: two
/// lists of logs with distinct names that hold the same logs give the same
/// series.
pub proof fn lemma_recovery_order_free(logs_a: Seq<SeriesLog>, logs_b: Seq<SeriesLog>)
    requires
        log_names_distinct(logs_a),
        log_names_distinct(logs_b),
        forall|i: int|
            0 <= i < logs_a.len() ==> exists|j: int|
                0 <= j < logs_b.len() && logs_b[j].name@ == #[trigger] logs_a[i].name@
                    && logs_b[j].points@ == logs_a[i].points@,
        forall|j: int|
            0 <= j < logs_b.len() ==> exists|i: int|
                0 <= i < logs_a.len() && logs_a[i].name@ == #[trigger] logs_b[j].name@,
    ensures
        forall|n: Seq<char>| recovered_view(logs_a, n) == recovered_view(logs_b, n),
{
    assert forall|n: Seq<char>| recovered_view(logs_a, n) == recovered_view(logs_b, n) by {
        if exists|i: int| 0 <= i < logs_a.len() && logs_a[i].name@ == n {
            let i = choose|i: int| 0 <= i < logs_a.len() && logs_a[i].name@ == n;
            let j = choose|j: int|
                0 <= j < logs_b.len() && logs_b[j].name@ == logs_a[i].name@ && logs_b[j].points@
                    == logs_a[i].points@;
            lemma_recovered_view_at(logs_a, i);
            lemma_recovered_view_at(logs_b, j);
        } else {
            assert forall|j: int| 0 <= j < logs_b.len() implies logs_b[j].name@ != n by {
                let i = choose|i: int| 0 <= i < logs_a.len() && logs_a[i].name@ == logs_b[j].name@;
            }
            lemma_recovered_view_empty(logs_a, n);
            lemma_recovered_view_empty(logs_b, n);
        }
    }
}

/// A restart keeps every series: when each series of `before` has a log that
/// holds exactly its points, and every other log is empty, the store
/// recovered from those logs holds the same names with the same points, in
/// the same order, and so the same counts.
pub proof fn lemma_restart_keeps_points(before: SeriesStore, logs: Seq<SeriesLog>, after: SeriesStore)
    requires
        before.wf(),
        log_names_distinct(logs),
        forall|n: Seq<char>|
            #[trigger] before.spec_get(n) is Some ==> exists|i: int|
                0 <= i < logs.len() && logs[i].name@ == n && logs[i].points@ == before.spec_get(
                    n,
                ).unwrap().points,
        forall|i: int|
            0 <= i < logs.len() && logs[i].points@.len() > 0 ==> before.spec_get(logs[i].name@) is Some,
        forall|n: Seq<char>| after.spec_get(n) == recovered_view(logs, n),
    ensures
        forall|n: Seq<char>|
            (after.spec_get(n) is Some <==> before.spec_get(n) is Some) && points_of(after.spec_get(n))
                == points_of(before.spec_get(n)),
{
    assert forall|n: Seq<char>|
        (after.spec_get(n) is Some <==> before.spec_get(n) is Some) && points_of(after.spec_get(n))
            == points_of(before.spec_get(n)) by {
        if before.spec_get(n) is Some {
            let i = choose|i: int|
                0 <= i < logs.len() && logs[i].name@ == n && logs[i].points@ == before.spec_get(
                    n,
                ).unwrap().points;
            lemma_no_empty_series(before, n);
            lemma_recovered_view_at(logs, i);
        } else {
            lemma_recovered_view_empty(logs, n);
        }
    }
}

} // verus!
