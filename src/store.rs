//! The aggregated page-view table: one row per (domain, page, date) with a
//! running view count, the insert-or-increment that records one view, and
//! the migration of a per-event log into that table.
use vstd::prelude::*;
use crate::date::{civil_from_days, lemma_civil_from_days_injective, utc_date_of, Date, SECONDS_PER_DAY};

verus! {

/// Stored for a request that names no domain.
pub const UNKNOWN_DOMAIN: &'static str = "unknown";

/// Stored for a request that names no page.
pub const UNKNOWN_PAGE: &'static str = "/unknown";

/// The natural key of an aggregate row.
#[derive(Clone, Debug)]
pub struct ViewKey {
    pub domain: String,
    pub page: String,
    pub date: Date,
}

/// One row of the aggregated table.
#[derive(Clone, Debug)]
pub struct PageviewAggregate {
    pub domain: String,
    pub page: String,
    pub date: Date,
    pub view_count: u64,
}

/// One row of the superseded per-event table.
#[derive(Clone, Debug)]
pub struct LegacyEvent {
    pub timestamp: i64,
    pub domain: String,
    pub page: String,
}

/// Why a per-event log could not be migrated.
#[derive(Clone, Copy, Debug, PartialEq, Eq, Structural)]
pub enum MigrationError {
    /// An event's timestamp has no UTC date with a four-digit year.
    TimestampOutOfRange { timestamp: i64 },
}

/// A key as the contracts compare it.
pub type KeyView = (Seq<char>, Seq<char>, Date);

impl ViewKey {
    pub open spec fn key(self) -> KeyView {
        (self.domain@, self.page@, self.date)
    }
}

impl PageviewAggregate {
    pub open spec fn key(self) -> KeyView {
        (self.domain@, self.page@, self.date)
    }
}

/// The text stored for a request's value: the value itself, or the
/// sentinel where it is absent or empty.
pub open spec fn or_sentinel(v: Option<Seq<char>>, sentinel: Seq<char>) -> Seq<char> {
    match v {
        Some(s) => if s.len() == 0 { sentinel } else { s },
        None => sentinel,
    }
}

pub open spec fn opt_view(v: Option<String>) -> Option<Seq<char>> {
    match v {
        Some(s) => Some(s@),
        None => None,
    }
}

/// The key under which a view of `domain` and `page` at Unix time `ts` is
/// counted, where that time has a four-digit UTC year.
pub open spec fn spec_view_key(domain: Option<Seq<char>>, page: Option<Seq<char>>, ts: int) -> Option<KeyView> {
    match utc_date_of(ts) {
        Some(d) => Some((or_sentinel(domain, UNKNOWN_DOMAIN@), or_sentinel(page, UNKNOWN_PAGE@), d)),
        None => None,
    }
}

/// The views counted under `k` in `rows`.
pub open spec fn views_of(rows: Seq<PageviewAggregate>, k: KeyView) -> nat
    decreases rows.len(),
{
    if rows.len() == 0 {
        0
    } else {
        views_of(rows.drop_last(), k) + (if rows.last().key() == k { rows.last().view_count as nat } else { 0 })
    }
}

/// The number of rows with key `k`.
pub open spec fn rows_with_key(rows: Seq<PageviewAggregate>, k: KeyView) -> nat
    decreases rows.len(),
{
    if rows.len() == 0 {
        0
    } else {
        rows_with_key(rows.drop_last(), k) + (if rows.last().key() == k { 1nat } else { 0 })
    }
}

/// Rows form a well-formed aggregated table: keys are unique, each count
/// is at least one, each date is a calendar date.
pub open spec fn table_wf(rows: Seq<PageviewAggregate>) -> bool {
    &&& forall|i: int, j: int| 0 <= i < j < rows.len() ==> rows[i].key() != rows[j].key()
    &&& forall|i: int| 0 <= i < rows.len() ==> #[trigger] rows[i].view_count >= 1 && rows[i].date.wf()
}

/// `after` is `before` with one more view recorded under `k`: the count of
/// `k` rises by one, every other count stays, and a row is added exactly
/// when `k` had none.
pub open spec fn records_one_view(before: Seq<PageviewAggregate>, k: KeyView, after: Seq<PageviewAggregate>) -> bool {
    &&& table_wf(after)
    &&& forall|k2: KeyView| #[trigger] views_of(after, k2) == views_of(before, k2) + (if k2 == k { 1nat } else { 0 })
    &&& after.len() == before.len() + (if views_of(before, k) == 0 { 1int } else { 0 })
}

/// The number of events among `evs` that count under `k`.
pub open spec fn events_under(evs: Seq<LegacyEvent>, k: KeyView) -> nat
    decreases evs.len(),
{
    if evs.len() == 0 {
        0
    } else {
        events_under(evs.drop_last(), k) + (if event_key(evs.last()) == Some(k) { 1nat } else { 0 })
    }
}

/// The key an event counts under, where its timestamp has a date.
pub open spec fn event_key(e: LegacyEvent) -> Option<KeyView> {
    match utc_date_of(e.timestamp as int) {
        Some(d) => Some((e.domain@, e.page@, d)),
        None => None,
    }
}

pub open spec fn all_events_dated(evs: Seq<LegacyEvent>) -> bool {
    forall|i: int| 0 <= i < evs.len() ==> (#[trigger] event_key(evs[i])) is Some
}

proof fn lemma_views_update(rows: Seq<PageviewAggregate>, i: int, r: PageviewAggregate, k: KeyView)
    requires
        0 <= i < rows.len(),
    ensures
        views_of(rows.update(i, r), k) + (if rows[i].key() == k { rows[i].view_count as nat } else { 0 })
            == views_of(rows, k) + (if r.key() == k { r.view_count as nat } else { 0 }),
    decreases rows.len(),
{
    let u = rows.update(i, r);
    if i == rows.len() - 1 {
        assert(u.drop_last() =~= rows.drop_last());
    } else {
        assert(u.drop_last() =~= rows.drop_last().update(i, r));
        lemma_views_update(rows.drop_last(), i, r, k);
    }
}

proof fn lemma_views_of_unique(rows: Seq<PageviewAggregate>, i: int, k: KeyView)
    requires
        table_wf(rows),
        0 <= i < rows.len(),
        rows[i].key() == k,
    ensures
        views_of(rows, k) == rows[i].view_count,
    decreases rows.len(),
{
    if i == rows.len() - 1 {
        lemma_views_of_absent(rows.drop_last(), k);
    } else {
        lemma_views_of_unique(rows.drop_last(), i, k);
    }
}

proof fn lemma_views_of_absent(rows: Seq<PageviewAggregate>, k: KeyView)
    requires
        forall|j: int| 0 <= j < rows.len() ==> rows[j].key() != k,
    ensures
        views_of(rows, k) == 0,
        rows_with_key(rows, k) == 0,
    decreases rows.len(),
{
    if rows.len() > 0 {
        lemma_views_of_absent(rows.drop_last(), k);
    }
}

proof fn lemma_one_row_per_key(rows: Seq<PageviewAggregate>, k: KeyView)
    requires
        table_wf(rows),
    ensures
        rows_with_key(rows, k) == (if views_of(rows, k) == 0 { 0nat } else { 1 }),
    decreases rows.len(),
{
    if rows.len() > 0 {
        let p = rows.drop_last();
        lemma_one_row_per_key(p, k);
        if rows.last().key() == k {
            lemma_views_of_absent(p, k);
        }
    }
}

/// The text stored for a request's value: `value`, or `sentinel` where it
/// is absent or empty.
pub fn value_or_sentinel(value: Option<String>, sentinel: &str) -> (r: String)
    ensures
        r@ == or_sentinel(opt_view(value), sentinel@),
{
    match value {
        Some(s) => {
            if s.as_str().unicode_len() == 0 {
                sentinel.to_string()
            } else {
                s
            }
        },
        None => sentinel.to_string(),
    }
}

/// The key under which a view of `domain` and `page` at Unix time
/// `timestamp` is counted: absent or empty names become the sentinels, the
/// date is the UTC date of the timestamp. `None` where that date has no
/// four-digit year.
pub fn view_key(domain: Option<String>, page: Option<String>, timestamp: i64) -> (r: Option<ViewKey>)
    ensures
        spec_view_key(opt_view(domain), opt_view(page), timestamp as int) == (match r {
            Some(k) => Some(k.key()),
            None => None,
        }),
        r matches Some(k) ==> k.date.wf(),
{
    match Date::from_timestamp(timestamp) {
        Some(date) => {
            let domain = value_or_sentinel(domain, UNKNOWN_DOMAIN);
            let page = value_or_sentinel(page, UNKNOWN_PAGE);
            proof {
                reveal_strlit("unknown");
                reveal_strlit("/unknown");
            }
            Some(ViewKey { domain, page, date })
        },
        None => None,
    }
}

/// The aggregated page-view table.
pub struct AggregateTable {
    rows: Vec<PageviewAggregate>,
}

impl AggregateTable {
    pub closed spec fn rows_view(&self) -> Seq<PageviewAggregate> {
        self.rows@
    }

    pub open spec fn wf(&self) -> bool {
        table_wf(self.rows_view())
    }

    /// The views counted under `k`.
    pub open spec fn views(&self, k: KeyView) -> nat {
        views_of(self.rows_view(), k)
    }

    /// An empty table.
    pub fn new() -> (r: AggregateTable)
        ensures
            r.wf(),
            r.rows_view().len() == 0,
            forall|k: KeyView| #[trigger] r.views(k) == 0,
    {
        AggregateTable { rows: Vec::new() }
    }

    /// The rows, in no particular order.
    pub fn rows(&self) -> (r: &Vec<PageviewAggregate>)
        ensures
            r@ == self.rows_view(),
    {
        &self.rows
    }

    /// Gives up the table for its rows.
    pub fn into_rows(self) -> (r: Vec<PageviewAggregate>)
        ensures
            r@ == self.rows_view(),
    {
        self.rows
    }

    /// The index of the row with key `key`, if there is one.
    fn find(&self, key: &ViewKey) -> (r: Option<usize>)
        ensures
            r matches Some(i) ==> i < self.rows@.len() && self.rows@[i as int].key() == key.key(),
            r is None ==> forall|j: int| 0 <= j < self.rows@.len() ==> self.rows@[j].key() != key.key(),
    {
        let mut i: usize = 0;
        while i < self.rows.len()
            invariant
                i <= self.rows@.len(),
                forall|j: int| 0 <= j < i ==> self.rows@[j].key() != key.key(),
            decreases self.rows@.len() - i,
        {
            let row = &self.rows[i];
            if row.domain == key.domain && row.page == key.page && row.date == key.date {
                return Some(i);
            }
            i = i + 1;
        }
        None
    }

    /// Records one view under `key`: inserts the row with a count of one
    /// where the key has none, and increments its count otherwise.
    pub fn record(&mut self, key: ViewKey)
        requires
            old(self).wf(),
            key.date.wf(),
            old(self).views(key.key()) < u64::MAX,
        ensures
            final(self).wf(),
            records_one_view(old(self).rows_view(), key.key(), final(self).rows_view()),
    {
        let ghost before = self.rows@;
        let ghost k = key.key();
        match self.find(&key) {
            Some(i) => {
                proof {
                    lemma_views_of_unique(before, i as int, k);
                }
                let old_row = self.rows.remove(i);
                let row = PageviewAggregate {
                    domain: old_row.domain,
                    page: old_row.page,
                    date: old_row.date,
                    view_count: old_row.view_count + 1,
                };
                self.rows.insert(i, row);
                proof {
                    assert(self.rows@ =~= before.update(i as int, row));
                    assert forall|k2: KeyView| #[trigger] views_of(self.rows@, k2) == views_of(before, k2) + (
                    if k2 == k { 1nat } else { 0 }) by {
                        lemma_views_update(before, i as int, row, k2);
                    }
                }
            },
            None => {
                proof {
                    lemma_views_of_absent(before, k);
                }
                let row = PageviewAggregate { domain: key.domain, page: key.page, date: key.date, view_count: 1 };
                self.rows.push(row);
                proof {
                    assert(self.rows@.drop_last() =~= before);
                }
            },
        }
    }
}

proof fn lemma_views_along(states: Seq<Seq<PageviewAggregate>>, k: KeyView, i: int)
    requires
        0 <= i < states.len(),
        views_of(states[0], k) == 0,
        forall|j: int| 0 <= j < states.len() - 1 ==> records_one_view(#[trigger] states[j], k, states[j + 1]),
    ensures
        views_of(states[i], k) == i,
    decreases i,
{
    if i > 0 {
        lemma_views_along(states, k, i - 1);
        assert(records_one_view(states[i - 1], k, states[i]));
    }
}

proof fn lemma_row_of_key(rows: Seq<PageviewAggregate>, k: KeyView)
    requires
        table_wf(rows),
        views_of(rows, k) > 0,
    ensures
        exists|j: int| 0 <= j < rows.len() && rows[j].key() == k && rows[j].view_count == views_of(rows, k),
{
    if forall|j: int| 0 <= j < rows.len() ==> rows[j].key() != k {
        lemma_views_of_absent(rows, k);
    } else {
        let j = choose|j: int| 0 <= j < rows.len() && rows[j].key() == k;
        lemma_views_of_unique(rows, j, k);
    }
}

/// Recording a view of one key `n` times in a row, starting from a table
/// without that key, leaves exactly one row for the key, and its count is `n`.
pub proof fn law_repeated_views(states: Seq<Seq<PageviewAggregate>>, k: KeyView)
    requires
        states.len() >= 2,
        table_wf(states[0]),
        views_of(states[0], k) == 0,
        forall|j: int| 0 <= j < states.len() - 1 ==> records_one_view(#[trigger] states[j], k, states[j + 1]),
    ensures
        rows_with_key(states.last(), k) == 1,
        exists|j: int|
            0 <= j < states.last().len() && states.last()[j].key() == k && states.last()[j].view_count
                == states.len() - 1,
{
    let n = states.len() - 1;
    lemma_views_along(states, k, n);
    assert(records_one_view(states[n - 1], k, states[n]));
    assert(states.last() == states[n]);
    lemma_one_row_per_key(states.last(), k);
    lemma_row_of_key(states.last(), k);
}

/// Two views of one domain and page at times on different UTC days, each
/// recorded once into a table without them, give two rows, one per date,
/// each with a count of one.
pub proof fn law_day_boundary(
    t0: Seq<PageviewAggregate>,
    t1: Seq<PageviewAggregate>,
    t2: Seq<PageviewAggregate>,
    domain: Option<Seq<char>>,
    page: Option<Seq<char>>,
    ts1: int,
    ts2: int,
)
    requires
        table_wf(t0),
        utc_date_of(ts1) is Some,
        utc_date_of(ts2) is Some,
        ts1 / (SECONDS_PER_DAY as int) != ts2 / (SECONDS_PER_DAY as int),
        views_of(t0, spec_view_key(domain, page, ts1).unwrap()) == 0,
        views_of(t0, spec_view_key(domain, page, ts2).unwrap()) == 0,
        records_one_view(t0, spec_view_key(domain, page, ts1).unwrap(), t1),
        records_one_view(t1, spec_view_key(domain, page, ts2).unwrap(), t2),
    ensures
        ({
            let k1 = spec_view_key(domain, page, ts1).unwrap();
            let k2 = spec_view_key(domain, page, ts2).unwrap();
            &&& k1 != k2
            &&& k1.0 == k2.0 && k1.1 == k2.1
            &&& t2.len() == t0.len() + 2
            &&& rows_with_key(t2, k1) == 1 && views_of(t2, k1) == 1
            &&& rows_with_key(t2, k2) == 1 && views_of(t2, k2) == 1
        }),
{
    let k1 = spec_view_key(domain, page, ts1).unwrap();
    let k2 = spec_view_key(domain, page, ts2).unwrap();
    if utc_date_of(ts1) == utc_date_of(ts2) {
        let c1 = civil_from_days(ts1 / (SECONDS_PER_DAY as int));
        let c2 = civil_from_days(ts2 / (SECONDS_PER_DAY as int));
        assert(c1 == c2);
        lemma_civil_from_days_injective(ts1 / (SECONDS_PER_DAY as int), ts2 / (SECONDS_PER_DAY as int));
    }
    assert(k1.2 != k2.2);
    assert(views_of(t1, k1) == 1);
    assert(views_of(t1, k2) == 0);
    assert(views_of(t2, k1) == 1);
    assert(views_of(t2, k2) == 1);
    lemma_one_row_per_key(t2, k1);
    lemma_one_row_per_key(t2, k2);
}

/// Builds the aggregated table from a per-event log: one row per
/// (domain, page, UTC date) of the events, counting the events in it. Fails
/// on the first event whose timestamp has no four-digit UTC year.
pub fn migrate_events(events: &Vec<LegacyEvent>) -> (r: Result<AggregateTable, MigrationError>)
    ensures
        r is Ok == all_events_dated(events@),
        r matches Ok(t) ==> t.wf() && forall|k: KeyView| #[trigger] t.views(k) == events_under(events@, k),
        r matches Err(MigrationError::TimestampOutOfRange { timestamp }) ==> exists|i: int|
            0 <= i < events@.len() && events@[i].timestamp == timestamp && (#[trigger] event_key(events@[i])) is None,
{
    let mut table = AggregateTable::new();
    let mut i: usize = 0;
    while i < events.len()
        invariant
            i <= events@.len(),
            table.wf(),
            all_events_dated(events@.subrange(0, i as int)),
            forall|k: KeyView| #[trigger] table.views(k) == events_under(events@.subrange(0, i as int), k),
            forall|k: KeyView| #[trigger] table.views(k) <= i,
        decreases events@.len() - i,
    {
        let e = &events[i];
        let ghost prefix = events@.subrange(0, i as int);
        let ghost next = events@.subrange(0, i + 1);
        proof {
            assert(next.drop_last() =~= prefix);
        }
        match Date::from_timestamp(e.timestamp) {
            Some(date) => {
                let key = ViewKey { domain: e.domain.clone(), page: e.page.clone(), date };
                let ghost k = key.key();
                let ghost t0 = table.rows_view();
                proof {
                    assert(table.views(k) <= i);
                    assert forall|k2: KeyView| #[trigger] views_of(t0, k2) == events_under(prefix, k2) && views_of(t0, k2) <= i by {
                        assert(table.views(k2) <= i);
                    }
                }
                table.record(key);
                proof {
                    assert forall|j: int| 0 <= j < next.len() implies (#[trigger] event_key(next[j])) is Some by {
                        if j < i {
                            assert(next[j] == prefix[j]);
                        }
                    }
                    assert(event_key(next.last()) == Some(k));
                    assert forall|k2: KeyView| #[trigger] table.views(k2) == events_under(next, k2) by {
                        assert(views_of(table.rows_view(), k2) == views_of(t0, k2) + (if k2 == k { 1nat } else { 0 }));
                        assert(events_under(next, k2) == events_under(prefix, k2) + (if event_key(next.last()) == Some(k2) { 1nat } else { 0 }));
                    }
                    assert forall|k2: KeyView| #[trigger] table.views(k2) <= i + 1 by {
                        assert(views_of(table.rows_view(), k2) == views_of(t0, k2) + (if k2 == k { 1nat } else { 0 }));
                        assert(views_of(t0, k2) <= i);
                    }
                }
            },
            None => {
                proof {
                    assert(event_key(events@[i as int]) is None);
                }
                return Err(MigrationError::TimestampOutOfRange { timestamp: e.timestamp });
            },
        }
        i = i + 1;
    }
    proof {
        assert(events@.subrange(0, events@.len() as int) =~= events@);
    }
    Ok(table)
}

} // verus!
