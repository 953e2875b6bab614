use pageview_stats::date::{Date, LAST_TIMESTAMP, FIRST_TIMESTAMP};
use pageview_stats::export::{export, summarize, Summary};
use pageview_stats::schema::{schema_action, contains_text, SchemaAction, CREATE_AGGREGATE_TABLE, LEGACY_MARKER};
use pageview_stats::store::{
    migrate_events, value_or_sentinel, view_key, AggregateTable, LegacyEvent, MigrationError, PageviewAggregate,
    ViewKey, UNKNOWN_DOMAIN, UNKNOWN_PAGE,
};

const DAY: i64 = 86400;
// 2024-05-17T12:00:00Z
const NOON: i64 = 1_715_947_200;

fn key(domain: &str, page: &str, ts: i64) -> ViewKey {
    view_key(Some(domain.to_string()), Some(page.to_string()), ts).unwrap()
}

fn row(domain: &str, page: &str, date: (u16, u8, u8), count: u64) -> PageviewAggregate {
    PageviewAggregate {
        domain: domain.to_string(),
        page: page.to_string(),
        date: Date::new(date.0, date.1, date.2).unwrap(),
        view_count: count,
    }
}

fn ymd(d: &Date) -> (u16, u8, u8) {
    (d.year, d.month, d.day)
}

#[test]
fn date_text_has_fixed_width() {
    assert_eq!(Date::new(2024, 3, 5).unwrap().to_text(), "2024-03-05");
    assert_eq!(Date::new(7, 12, 31).unwrap().to_text(), "0007-12-31");
    assert_eq!(Date::new(9999, 1, 10).unwrap().to_text(), "9999-01-10");
}

#[test]
fn date_rejects_impossible_days() {
    assert!(Date::new(2024, 2, 29).is_some());
    assert!(Date::new(2023, 2, 29).is_none());
    assert!(Date::new(1900, 2, 29).is_none());
    assert!(Date::new(2000, 2, 29).is_some());
    assert!(Date::new(2024, 4, 31).is_none());
    assert!(Date::new(2024, 13, 1).is_none());
    assert!(Date::new(2024, 0, 1).is_none());
    assert!(Date::new(10000, 1, 1).is_none());
}

#[test]
fn date_parse_reads_its_own_text() {
    let d = Date::new(2019, 11, 30).unwrap();
    assert_eq!(Date::parse(&d.to_text()), Some(d));
    assert_eq!(Date::parse("0000-01-01"), Date::new(0, 1, 1));
}

#[test]
fn date_parse_rejects_other_shapes() {
    assert_eq!(Date::parse("2024-3-05"), None);
    assert_eq!(Date::parse("2024/03/05"), None);
    assert_eq!(Date::parse("2024-02-30"), None);
    assert_eq!(Date::parse("2024-00-10"), None);
    assert_eq!(Date::parse("20x4-01-10"), None);
    assert_eq!(Date::parse(""), None);
    assert_eq!(Date::parse("2024-01-101"), None);
}

#[test]
fn timestamps_map_to_utc_dates() {
    assert_eq!(Date::from_timestamp(0).map(|d| ymd(&d)), Some((1970, 1, 1)));
    assert_eq!(Date::from_timestamp(DAY - 1).map(|d| ymd(&d)), Some((1970, 1, 1)));
    assert_eq!(Date::from_timestamp(DAY).map(|d| ymd(&d)), Some((1970, 1, 2)));
    assert_eq!(Date::from_timestamp(-1).map(|d| ymd(&d)), Some((1969, 12, 31)));
    assert_eq!(Date::from_timestamp(1_546_300_800).map(|d| ymd(&d)), Some((2019, 1, 1)));
    assert_eq!(Date::from_timestamp(951_782_400).map(|d| ymd(&d)), Some((2000, 2, 29)));
    assert_eq!(Date::from_timestamp(NOON).map(|d| ymd(&d)), Some((2024, 5, 17)));
}

#[test]
fn timestamps_outside_four_digit_years_have_no_date() {
    assert_eq!(Date::from_timestamp(LAST_TIMESTAMP).map(|d| ymd(&d)), Some((9999, 12, 31)));
    assert_eq!(Date::from_timestamp(FIRST_TIMESTAMP).map(|d| ymd(&d)), Some((0, 1, 1)));
    assert!(Date::from_timestamp(LAST_TIMESTAMP + 1).is_none());
    assert!(Date::from_timestamp(FIRST_TIMESTAMP - 1).is_none());
    assert!(Date::from_timestamp(i64::MAX).is_none());
    assert!(Date::from_timestamp(i64::MIN).is_none());
}

#[test]
fn calendar_order() {
    let a = Date::new(2024, 5, 17).unwrap();
    let b = Date::new(2024, 5, 18).unwrap();
    let c = Date::new(2023, 12, 31).unwrap();
    assert!(b.is_on_or_after(&a));
    assert!(!a.is_on_or_after(&b));
    assert!(a.is_on_or_after(&a));
    assert!(a.is_on_or_after(&c));
}

#[test]
fn absent_or_empty_names_become_sentinels() {
    let k = view_key(None, None, NOON).unwrap();
    assert_eq!(k.domain, "unknown");
    assert_eq!(k.page, "/unknown");
    let k = view_key(Some(String::new()), Some(String::new()), NOON).unwrap();
    assert_eq!(k.domain, UNKNOWN_DOMAIN);
    assert_eq!(k.page, UNKNOWN_PAGE);
    let k = view_key(Some("a.b".to_string()), None, NOON).unwrap();
    assert_eq!(k.domain, "a.b");
    assert_eq!(k.page, "/unknown");
    assert_eq!(value_or_sentinel(Some("x\ty".to_string()), "unknown"), "x\ty");
}

#[test]
fn view_key_carries_the_utc_date() {
    let k = key("example.com", "/home", NOON);
    assert_eq!(ymd(&k.date), (2024, 5, 17));
    assert!(view_key(None, None, LAST_TIMESTAMP + 1).is_none());
}

#[test]
fn repeated_views_share_one_row() {
    let mut t = AggregateTable::new();
    for _ in 0..5 {
        t.record(key("example.com", "/a", NOON));
    }
    assert_eq!(t.rows().len(), 1);
    assert_eq!(t.rows()[0].view_count, 5);
    assert_eq!(t.rows()[0].domain, "example.com");
    assert_eq!(t.rows()[0].page, "/a");
}

#[test]
fn new_day_starts_new_row() {
    let mut t = AggregateTable::new();
    let midnight = NOON + DAY / 2;
    t.record(key("d", "/p", midnight - 1));
    t.record(key("d", "/p", midnight));
    t.record(key("d", "/p", midnight));
    let rows = t.into_rows();
    assert_eq!(rows.len(), 2);
    assert_eq!(ymd(&rows[0].date), (2024, 5, 17));
    assert_eq!(rows[0].view_count, 1);
    assert_eq!(ymd(&rows[1].date), (2024, 5, 18));
    assert_eq!(rows[1].view_count, 2);
}

#[test]
fn distinct_keys_count_apart() {
    let mut t = AggregateTable::new();
    t.record(key("d1", "/a", NOON));
    t.record(key("d2", "/a", NOON));
    t.record(key("d1", "/b", NOON));
    t.record(key("d1", "/a", NOON));
    let rows = t.into_rows();
    assert_eq!(rows.len(), 3);
    assert_eq!(rows[0].view_count, 2);
    assert_eq!(rows[1].view_count, 1);
    assert_eq!(rows[2].view_count, 1);
}

#[test]
fn export_filters_by_domain() {
    let rows = vec![
        row("a.com", "/x", (2024, 1, 1), 1),
        row("b.com", "/x", (2024, 1, 2), 2),
        row("a.com", "/y", (2024, 1, 3), 3),
        row("A.com", "/z", (2024, 1, 4), 4),
    ];
    let r = export(rows, Some("a.com".to_string()));
    assert_eq!(r.pageviews.len(), 2);
    assert!(r.pageviews.iter().all(|p| p.domain == "a.com"));
    assert_eq!(r.summary, Summary { unique_pages: 2, total_views: 4, total_records: 2 });
}

#[test]
fn export_without_filter_keeps_all_rows() {
    let rows = vec![
        row("a.com", "/x", (2024, 1, 1), 1),
        row("b.com", "/x", (2024, 1, 2), 2),
        row("c.com", "/y", (2024, 1, 3), 3),
    ];
    let r = export(rows, None);
    assert_eq!(r.pageviews.len(), 3);
    assert_eq!(r.summary, Summary { unique_pages: 2, total_views: 6, total_records: 3 });
}

#[test]
fn export_unknown_domain_is_empty() {
    let rows = vec![row("a.com", "/x", (2024, 1, 1), 1)];
    let r = export(rows, Some("z.com".to_string()));
    assert!(r.pageviews.is_empty());
    assert_eq!(r.summary, Summary { unique_pages: 0, total_views: 0, total_records: 0 });
    let r = export(Vec::new(), None);
    assert_eq!(r.summary, Summary { unique_pages: 0, total_views: 0, total_records: 0 });
}

#[test]
fn export_orders_newest_first() {
    let rows = vec![
        row("a", "/1", (2023, 12, 31), 1),
        row("a", "/2", (2024, 2, 1), 1),
        row("a", "/3", (2024, 1, 15), 1),
        row("a", "/4", (2024, 2, 1), 1),
        row("a", "/5", (2022, 6, 30), 1),
    ];
    let r = export(rows, None);
    let dates: Vec<String> = r.pageviews.iter().map(|p| p.date.to_text()).collect();
    assert_eq!(dates, vec!["2024-02-01", "2024-02-01", "2024-01-15", "2023-12-31", "2022-06-30"]);
}

#[test]
fn summary_counts_distinct_pages_and_sums_views() {
    let rows = vec![
        row("a", "/x", (2024, 1, 1), 10),
        row("b", "/x", (2024, 1, 1), 20),
        row("a", "/x", (2024, 1, 2), 30),
        row("a", "/y", (2024, 1, 2), 40),
    ];
    assert_eq!(summarize(&rows), Summary { unique_pages: 2, total_views: 100, total_records: 4 });
}

#[test]
fn summary_total_does_not_overflow() {
    let rows = vec![
        row("a", "/x", (2024, 1, 1), u64::MAX),
        row("a", "/y", (2024, 1, 1), u64::MAX),
    ];
    assert_eq!(summarize(&rows).total_views, 2 * (u64::MAX as u128));
}

fn event(ts: i64, domain: &str, page: &str) -> LegacyEvent {
    LegacyEvent { timestamp: ts, domain: domain.to_string(), page: page.to_string() }
}

#[test]
fn migration_groups_events_by_day() {
    let day1 = NOON;
    let day2 = NOON + DAY;
    let events = vec![
        event(day1, "d1", "/a"),
        event(day1 + 60, "d1", "/a"),
        event(day2, "d1", "/a"),
        event(day1, "d2", "/b"),
    ];
    let rows = migrate_events(&events).unwrap().into_rows();
    let mut got: Vec<(String, String, String, u64)> =
        rows.iter().map(|r| (r.domain.clone(), r.page.clone(), r.date.to_text(), r.view_count)).collect();
    got.sort();
    assert_eq!(
        got,
        vec![
            ("d1".to_string(), "/a".to_string(), "2024-05-17".to_string(), 2),
            ("d1".to_string(), "/a".to_string(), "2024-05-18".to_string(), 1),
            ("d2".to_string(), "/b".to_string(), "2024-05-17".to_string(), 1),
        ]
    );
}

#[test]
fn migration_keeps_names_verbatim() {
    let events = vec![event(NOON, "", "")];
    let rows = migrate_events(&events).unwrap().into_rows();
    assert_eq!(rows.len(), 1);
    assert_eq!(rows[0].domain, "");
    assert_eq!(rows[0].page, "");
}

#[test]
fn migration_of_nothing_is_empty() {
    assert!(migrate_events(&Vec::new()).unwrap().rows().is_empty());
}

#[test]
fn migration_fails_on_undated_timestamp() {
    let events = vec![event(NOON, "d", "/a"), event(i64::MAX, "d", "/a")];
    assert_eq!(
        migrate_events(&events).err(),
        Some(MigrationError::TimestampOutOfRange { timestamp: i64::MAX })
    );
}

const LEGACY_TABLE: &str = "CREATE TABLE pageviews (
            id INTEGER PRIMARY KEY AUTOINCREMENT,
            ts INTEGER NOT NULL,
            domain TEXT NOT NULL,
            page TEXT NOT NULL
        )";

#[test]
fn schema_action_per_catalog_state() {
    assert_eq!(schema_action(None), SchemaAction::Create);
    assert_eq!(schema_action(Some(LEGACY_TABLE)), SchemaAction::Migrate);
    assert_eq!(schema_action(Some(CREATE_AGGREGATE_TABLE)), SchemaAction::Keep);
}

#[test]
fn schema_second_run_keeps_table() {
    let first = schema_action(Some(LEGACY_TABLE));
    assert_eq!(first, SchemaAction::Migrate);
    // after the migration the catalog holds the aggregated definition
    assert_eq!(schema_action(Some(CREATE_AGGREGATE_TABLE)), SchemaAction::Keep);
    assert_eq!(schema_action(Some(CREATE_AGGREGATE_TABLE)), SchemaAction::Keep);
}

#[test]
fn substring_search() {
    assert!(contains_text("abc ts INTEGER x", LEGACY_MARKER));
    assert!(!contains_text("view_count INTEGER", LEGACY_MARKER));
    assert!(contains_text("abc", ""));
    assert!(!contains_text("ab", "abc"));
    assert!(contains_text("abc", "abc"));
}

#[test]
fn three_views_then_export() {
    let mut t = AggregateTable::new();
    for _ in 0..3 {
        t.record(view_key(Some("example.com".to_string()), Some("/home".to_string()), NOON).unwrap());
    }
    let r = export(t.into_rows(), None);
    assert_eq!(r.summary, Summary { unique_pages: 1, total_views: 3, total_records: 1 });
    assert_eq!(r.pageviews.len(), 1);
    assert_eq!(r.pageviews[0].domain, "example.com");
    assert_eq!(r.pageviews[0].page, "/home");
    assert_eq!(r.pageviews[0].date.to_text(), "2024-05-17");
    assert_eq!(r.pageviews[0].view_count, 3);
}
