use vstd::prelude::*;
use crate::datum::Datum;
use crate::name_order::{
    bytes_lt, lemma_lex_irreflexive, lemma_lex_total, lemma_lex_transitive,
    lemma_name_key_injective, lex_lt, name_key,
};

verus! {

/// A named series: its points in arrival order and the instant (seconds
/// since the epoch) it was last modified.
pub struct Series {
    pub name: String,
    pub points: Vec<Datum>,
    pub last_modified: i64,
}

/// What a series holds, as seen by contracts.
pub struct SeriesView {
    pub points: Seq<Datum>,
    pub last_modified: i64,
}

impl Series {
    pub open spec fn spec_view(&self) -> SeriesView {
        SeriesView { points: self.points@, last_modified: self.last_modified }
    }
}

/// No two entries carry the same name.
pub open spec fn names_unique(s: Seq<Series>) -> bool {
    forall|i: int, j: int|
        0 <= i < s.len() && 0 <= j < s.len() && i != j ==> s[i].name@ != s[j].name@
}

/// Entries stand in ascending order of their names.
pub open spec fn names_sorted(s: Seq<Series>) -> bool {
    forall|i: int, j: int|
        0 <= i < j < s.len() ==> lex_lt(name_key(s[i].name@), name_key(s[j].name@))
}

pub open spec fn has_name(s: Seq<Series>, name: Seq<char>) -> bool {
    exists|i: int| 0 <= i < s.len() && s[i].name@ == name
}

/// The series that carries `name`, if any.
pub open spec fn lookup(s: Seq<Series>, name: Seq<char>) -> Option<SeriesView> {
    if has_name(s, name) {
        let i = choose|i: int| 0 <= i < s.len() && s[i].name@ == name;
        Some(s[i].spec_view())
    } else {
        None
    }
}

pub proof fn lemma_lookup_at(s: Seq<Series>, i: int)
    requires
        names_unique(s),
        0 <= i < s.len(),
    ensures
        lookup(s, s[i].name@) == Some(s[i].spec_view()),
{
    let n = s[i].name@;
    assert(has_name(s, n));
    let j = choose|j: int| 0 <= j < s.len() && s[j].name@ == n;
    assert(j == i);
}

/// The name of a series with its number of points and modification time.
pub struct SeriesSummary {
    pub name: String,
    pub count: usize,
    pub last_modified: i64,
}

/// The points of a series, or none for an unknown one.
pub open spec fn points_of(v: Option<SeriesView>) -> Seq<Datum> {
    match v {
        Some(v) => v.points,
        None => Seq::empty(),
    }
}

/// `after` is `before` with `datum` appended to the series `name` at time
/// `now`, the series created if it was unknown, and every other series as it was.
pub open spec fn appended(
    before: SeriesStore,
    after: SeriesStore,
    name: Seq<char>,
    datum: Datum,
    now: i64,
) -> bool {
    &&& after.spec_get(name) == Some(
        SeriesView { points: points_of(before.spec_get(name)).push(datum), last_modified: now },
    )
    &&& forall|n: Seq<char>| n != name ==> after.spec_get(n) == before.spec_get(n)
}

/// A series that a well-formed store holds is never empty: series come into
/// being with their first point.
pub proof fn lemma_no_empty_series(store: SeriesStore, name: Seq<char>)
    requires
        store.wf(),
        store.spec_get(name) is Some,
    ensures
        store.spec_get(name).unwrap().points.len() > 0,
{
    let s = store.entries@;
    let i = choose|i: int| 0 <= i < s.len() && s[i].name@ == name;
    lemma_lookup_at(s, i);
}

/// After `ds.len()` successive appends of the points `ds` to a series `name`
/// that was unknown, the series holds exactly those points, in arrival order.
pub proof fn lemma_appends_in_order(
    stores: Seq<SeriesStore>,
    name: Seq<char>,
    ds: Seq<Datum>,
    nows: Seq<i64>,
)
    requires
        stores.len() == ds.len() + 1,
        nows.len() == ds.len(),
        stores[0].spec_get(name) is None,
        forall|i: int| 0 <= i < ds.len() ==> appended(stores[i], stores[i + 1], name, #[trigger] ds[i], nows[i]),
    ensures
        points_of(stores[ds.len() as int].spec_get(name)) == ds,
        points_of(stores[ds.len() as int].spec_get(name)).len() == ds.len(),
    decreases ds.len(),
{
    if ds.len() == 0 {
        assert(points_of(stores[0].spec_get(name)) =~= ds);
    } else {
        let k = ds.len() - 1;
        lemma_appends_in_order(stores.drop_last(), name, ds.drop_last(), nows.drop_last());
        assert(appended(stores[k], stores[k + 1], name, ds[k], nows[k]));
        assert(ds.drop_last().push(ds[k]) =~= ds);
    }
}

/// The in-memory mapping from series name to series. A name denotes at most
/// one series, and a series is created with its first point, so none is empty.
/// Entries are kept in ascending order of name.
pub struct SeriesStore {
    entries: Vec<Series>,
}

impl SeriesStore {
    pub closed spec fn wf(&self) -> bool {
        &&& names_unique(self.entries@)
        &&& names_sorted(self.entries@)
        &&& forall|i: int| 0 <= i < self.entries@.len() ==> self.entries@[i].points@.len() > 0
    }

    /// The series that `name` denotes, if any.
    pub closed spec fn spec_get(&self, name: Seq<char>) -> Option<SeriesView> {
        lookup(self.entries@, name)
    }

    pub fn new() -> (r: SeriesStore)
        ensures
            r.wf(),
            forall|n: Seq<char>| r.spec_get(n) is None,
    {
        SeriesStore { entries: Vec::new() }
    }

    fn find(&self, name: &String) -> (r: Option<usize>)
        requires
            self.wf(),
        ensures
            match r {
                Some(i) => i < self.entries@.len() && self.entries@[i as int].name@ == name@,
                None => !has_name(self.entries@, name@),
            },
    {
        let mut i: usize = 0;
        while i < self.entries.len()
            invariant
                i <= self.entries@.len(),
                forall|k: int| 0 <= k < i ==> self.entries@[k].name@ != name@,
            decreases self.entries@.len() - i,
        {
            if self.entries[i].name == *name {
                return Some(i);
            }
            i = i + 1;
        }
        None
    }

    /// The number of points of the series `name`, or `None` for an unknown name.
    pub fn count(&self, name: &String) -> (r: Option<usize>)
        requires
            self.wf(),
        ensures
            match self.spec_get(name@) {
                Some(v) => r matches Some(c) && c as int == v.points.len() && c >= 1,
                None => r is None,
            },
    {
        match self.find(name) {
            Some(i) => {
                proof {
                    lemma_lookup_at(self.entries@, i as int);
                    lemma_no_empty_series(*self, name@);
                }
                Some(self.entries[i].points.len())
            },
            None => None,
        }
    }

    /// Puts `series` in place of the one with its name, or adds it as a new entry.
    fn put(&mut self, series: Series)
        requires
            old(self).wf(),
            series.points@.len() > 0,
        ensures
            final(self).wf(),
            final(self).spec_get(series.name@) == Some(series.spec_view()),
            forall|n: Seq<char>| n != series.name@ ==> final(self).spec_get(n) == old(self).spec_get(n),
    {
        let ghost s = self.entries@;
        let ghost name = series.name@;
        match self.find(&series.name) {
            Some(i) => {
                self.entries.set(i, series);
                let ghost t = self.entries@;
                proof {
                    assert(names_unique(t));
                    lemma_lookup_at(t, i as int);
                    assert forall|n: Seq<char>| n != name implies lookup(t, n) == lookup(s, n) by {
                        if has_name(s, n) {
                            let j = choose|j: int| 0 <= j < s.len() && s[j].name@ == n;
                            lemma_lookup_at(s, j);
                            lemma_lookup_at(t, j);
                        } else {
                            assert(!has_name(t, n));
                        }
                    }
                }
            },
            None => {
                let mut p: usize = 0;
                while p < self.entries.len() && bytes_lt(
                    self.entries[p].name.as_str().as_bytes(),
                    series.name.as_str().as_bytes(),
                )
                    invariant
                        self.entries@ == s,
                        name == series.name@,
                        p <= s.len(),
                        forall|k: int| 0 <= k < p ==> lex_lt(name_key(s[k].name@), name_key(name)),
                    decreases s.len() - p,
                {
                    p = p + 1;
                }
                let ghost pos = p as int;
                self.entries.insert(p, series);
                let ghost t = self.entries@;
                proof {
                    assert(t =~= s.insert(pos, series));
                    if pos < s.len() {
                        lemma_name_key_injective(s[pos].name@, name);
                        lemma_lex_total(name_key(s[pos].name@), name_key(name));
                    }
                    assert forall|j: int| pos <= j < s.len() implies lex_lt(name_key(name), name_key(s[j].name@)) by {
                        if j > pos {
                            lemma_lex_transitive(name_key(name), name_key(s[pos].name@), name_key(s[j].name@));
                        }
                    }
                    assert forall|i: int, j: int| 0 <= i < j < t.len() implies lex_lt(
                        name_key(t[i].name@),
                        name_key(t[j].name@),
                    ) by {
                        if j == pos {
                        } else if i == pos {
                        } else if i < pos && j > pos {
                            lemma_lex_transitive(name_key(s[i].name@), name_key(name), name_key(s[j - 1].name@));
                        }
                    }
                    assert forall|i: int, j: int| 0 <= i < t.len() && 0 <= j < t.len() && i != j implies t[i].name@ != t[j].name@ by {
                        if i < j {
                            lemma_lex_irreflexive(name_key(t[i].name@));
                        } else {
                            lemma_lex_irreflexive(name_key(t[j].name@));
                        }
                    }
                    lemma_lookup_at(t, pos);
                    assert forall|n: Seq<char>| n != name implies lookup(t, n) == lookup(s, n) by {
                        if has_name(s, n) {
                            let j = choose|j: int| 0 <= j < s.len() && s[j].name@ == n;
                            lemma_lookup_at(s, j);
                            if j < pos {
                                lemma_lookup_at(t, j);
                            } else {
                                lemma_lookup_at(t, j + 1);
                            }
                        } else {
                            assert(!has_name(t, n));
                        }
                    }
                }
            },
        }
    }

    /// Appends `datum` to the series `name` under the modification time `now`,
    /// creating the series with this single point when the name is unknown.
    /// Returns the points of the series as they stand after the append.
    pub fn append(&mut self, name: &String, datum: Datum, now: i64) -> (r: Vec<Datum>)
        requires
            old(self).wf(),
        ensures
            final(self).wf(),
            appended(*old(self), *final(self), name@, datum, now),
            r@ == points_of(old(self).spec_get(name@)).push(datum),
    {
        let mut points = match self.find(name) {
            Some(i) => {
                proof { lemma_lookup_at(self.entries@, i as int); }
                self.entries[i].points.clone()
            },
            None => Vec::new(),
        };
        assert(points@ =~= points_of(self.spec_get(name@)));
        points.push(datum);
        let snapshot = points.clone();
        assert(snapshot@ =~= points@);
        self.put(Series { name: name.clone(), points, last_modified: now });
        snapshot
    }

    /// Puts the series `name` in place with the given points and modification
    /// time, replacing whatever the name denoted before.
    pub fn restore(&mut self, name: String, points: Vec<Datum>, last_modified: i64)
        requires
            old(self).wf(),
            points@.len() > 0,
        ensures
            final(self).wf(),
            final(self).spec_get(name@) == Some(SeriesView { points: points@, last_modified }),
            forall|n: Seq<char>| n != name@ ==> final(self).spec_get(n) == old(self).spec_get(n),
    {
        self.put(Series { name, points, last_modified });
    }

    /// One summary per series held, in ascending order of name (the order
    /// of `String`s).
    pub fn list(&self) -> (r: Vec<SeriesSummary>)
        requires
            self.wf(),
        ensures
            forall|n: Seq<char>|
                (self.spec_get(n) is Some) <==> (exists|k: int| 0 <= k < r@.len() && r@[k].name@ == n),
            forall|k: int|
                0 <= k < r@.len() ==> self.spec_get(r@[k].name@) == Some(
                    SeriesView {
                        points: self.spec_get(r@[k].name@).unwrap().points,
                        last_modified: r@[k].last_modified,
                    },
                ) && self.spec_get(r@[k].name@).unwrap().points.len() == r@[k].count,
            forall|j: int, k: int|
                0 <= j < k < r@.len() ==> lex_lt(name_key(r@[j].name@), name_key(r@[k].name@)),
    {
        let mut r: Vec<SeriesSummary> = Vec::new();
        let mut i: usize = 0;
        while i < self.entries.len()
            invariant
                self.wf(),
                i <= self.entries@.len(),
                r@.len() == i,
                forall|k: int|
                    0 <= k < i ==> r@[k].name@ == self.entries@[k].name@
                        && r@[k].count == self.entries@[k].points@.len()
                        && r@[k].last_modified == self.entries@[k].last_modified,
            decreases self.entries@.len() - i,
        {
            let e = &self.entries[i];
            r.push(SeriesSummary { name: e.name.clone(), count: e.points.len(), last_modified: e.last_modified });
            i = i + 1;
        }
        proof {
            let s = self.entries@;
            assert forall|k: int| 0 <= k < r@.len() implies self.spec_get(r@[k].name@) == Some(
                SeriesView {
                    points: self.spec_get(r@[k].name@).unwrap().points,
                    last_modified: r@[k].last_modified,
                },
            ) && self.spec_get(r@[k].name@).unwrap().points.len() == r@[k].count by {
                lemma_lookup_at(s, k);
            }
            assert forall|n: Seq<char>| (self.spec_get(n) is Some) implies (exists|k: int| 0 <= k < r@.len() && r@[k].name@ == n) by {
                let j = choose|j: int| 0 <= j < s.len() && s[j].name@ == n;
                assert(r@[j].name@ == n);
            }
            assert forall|n: Seq<char>| (exists|k: int| 0 <= k < r@.len() && r@[k].name@ == n) implies (self.spec_get(n) is Some) by {
                let k = choose|k: int| 0 <= k < r@.len() && r@[k].name@ == n;
                assert(s[k].name@ == n);
            }
        }
        r
    }
}

} // verus!
