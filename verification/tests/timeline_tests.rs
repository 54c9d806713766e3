use recur::clock::LocalStamp;
use recur::cron::{CronJob, CronSource};
use recur::timeline::{
    build_timeline, expand_dow_field, expand_field, expand_schedule, field_expandable,
    format_minute, parse_dow_value, parse_month_name, schedule_is_expandable, sort_events,
    timeline_at, timeline_from, DayTable, TimelineEvent,
};

fn make_job(schedule: &str, command: &str) -> CronJob {
    CronJob {
        user: "test".to_string(),
        schedule: schedule.to_string(),
        command: command.to_string(),
        description: String::new(),
        source: CronSource::UserCrontab,
    }
}

#[test]
fn expand_star() {
    assert_eq!(expand_field("*", 0, 59).len(), 60);
}

#[test]
fn expand_step() {
    assert_eq!(expand_field("*/15", 0, 59), vec![0, 15, 30, 45]);
}

#[test]
fn expand_range() {
    assert_eq!(expand_field("1-5", 0, 6), vec![1, 2, 3, 4, 5]);
}

#[test]
fn expand_list() {
    assert_eq!(expand_field("1,3,5", 0, 6), vec![1, 3, 5]);
}

#[test]
fn expand_dow_sunday() {
    let values = expand_dow_field("0");
    assert!(values.contains(&0));
    let values = expand_dow_field("7");
    assert!(values.contains(&0));
}

#[test]
fn expand_combined_list_and_range() {
    assert_eq!(expand_field("1-3,7,10-12", 0, 12), vec![1, 2, 3, 7, 10, 11, 12]);
}

#[test]
fn expand_step_from_range() {
    assert_eq!(expand_field("*/10", 0, 59), vec![0, 10, 20, 30, 40, 50]);
}

#[test]
fn expand_month_names() {
    assert_eq!(expand_field("jan", 1, 12), vec![1]);
    assert_eq!(expand_field("dec", 1, 12), vec![12]);
}

#[test]
fn expand_dow_names() {
    let values = expand_dow_field("mon");
    assert_eq!(values, vec![1]);
    let values = expand_dow_field("fri");
    assert_eq!(values, vec![5]);
}

#[test]
fn expand_dow_range_names() {
    let values = expand_dow_field("mon-fri");
    assert_eq!(values, vec![1, 2, 3, 4, 5]);
}

#[test]
fn timeline_has_events() {
    let jobs = vec![make_job("* * * * *", "echo hello")];
    let timeline = build_timeline(&jobs, 1).unwrap();
    assert!(!timeline.events.is_empty());
}

#[test]
fn timeline_empty_for_no_jobs() {
    let timeline = build_timeline(&vec![], 24).unwrap();
    assert!(timeline.events.is_empty());
}

#[test]
fn timeline_events_are_sorted() {
    let jobs = vec![make_job("0 * * * *", "hourly_job"), make_job("30 * * * *", "half_hour_job")];
    let timeline = build_timeline(&jobs, 3).unwrap();
    for window in timeline.events.windows(2) {
        assert!(window[0].time <= window[1].time);
    }
}

#[test]
fn timeline_respects_hours_bound() {
    let jobs = vec![make_job("0 * * * *", "hourly")];
    let timeline = build_timeline(&jobs, 2).unwrap();
    assert!(timeline.events.len() <= 2);
}

#[test]
fn expand_empty_field_returns_empty() {
    assert!(expand_field("", 0, 59).is_empty());
}

#[test]
fn expand_invalid_field_returns_empty() {
    assert!(expand_field("abc", 0, 59).is_empty());
}

#[test]
fn expand_star_anywhere_gives_everything() {
    assert_eq!(expand_field("5,*", 1, 3), vec![1, 2, 3]);
    assert_eq!(expand_field("*/5", 1, 12), vec![1, 6, 11]);
    assert_eq!(expand_field("5-3", 0, 9), Vec::<u32>::new());
    assert_eq!(expand_field("JaN,+2,1-2-3", 1, 12), vec![1, 2]);
}

#[test]
fn expand_dow_variants() {
    assert_eq!(expand_dow_field("*"), vec![0, 1, 2, 3, 4, 5, 6]);
    assert_eq!(expand_dow_field("*/3"), vec![0, 3, 6]);
    assert_eq!(expand_dow_field("5-x"), vec![5, 6]);
    assert_eq!(expand_dow_field("x-2"), vec![0, 1, 2]);
    assert_eq!(expand_dow_field("6,7"), vec![6, 7, 0]);
    assert_eq!(expand_dow_field("0,7"), vec![0, 7]);
    assert_eq!(parse_dow_value("SuN"), Some(0));
    assert_eq!(parse_dow_value("12"), Some(12));
    assert_eq!(parse_month_name("Dec"), Some(12));
    assert_eq!(parse_month_name("12"), None);
}

fn stamp(year: i32, month: u32, day: u32, hour: u32, minute: u32) -> LocalStamp {
    LocalStamp { year, month, day, hour, minute, day_number: 0, timestamp: 0, nanos: 0 }
}

#[test]
fn minute_text_format() {
    assert_eq!(format_minute(&stamp(2026, 3, 7, 9, 5)), "2026-03-07T09:05");
    assert_eq!(format_minute(&stamp(7, 12, 31, 23, 59)), "0007-12-31T23:59");
    assert_eq!(format_minute(&stamp(12345, 1, 1, 0, 0)), "+12345-01-01T00:00");
    assert_eq!(format_minute(&stamp(-44, 1, 1, 0, 0)), "-0044-01-01T00:00");
}

fn event(time: &str, command: &str) -> TimelineEvent {
    TimelineEvent {
        time: time.to_string(),
        user: "u".to_string(),
        command: command.to_string(),
        schedule: "* * * * *".to_string(),
    }
}

#[test]
fn sort_is_stable_by_time() {
    let sorted = sort_events(vec![
        event("2026-01-01T10:00", "a"),
        event("2026-01-01T09:00", "b"),
        event("2026-01-01T10:00", "c"),
        event("2026-01-01T09:00", "d"),
    ]);
    let cmds: Vec<&str> = sorted.iter().map(|e| e.command.as_str()).collect();
    assert_eq!(cmds, vec!["b", "d", "a", "c"]);
}

#[test]
fn timeline_every_minute_has_one_event_per_minute() {
    let jobs = vec![make_job("* * * * *", "x")];
    let timeline = build_timeline(&jobs, 1).unwrap();
    assert!(timeline.events.len() >= 59 && timeline.events.len() <= 60);
    assert_eq!(timeline.hours, 1);
    assert!(timeline.start < timeline.end);
}

#[test]
fn expandable_schedules() {
    assert!(schedule_is_expandable("*/5 * * * *"));
    assert!(schedule_is_expandable("0 3 * * 1-5"));
    assert!(schedule_is_expandable("not a schedule"));
    assert!(!schedule_is_expandable("*/0 * * * *"));
    assert!(!schedule_is_expandable("0 */0 * * *"));
    assert!(!schedule_is_expandable("0 0 * * */0"));
    assert!(field_expandable("1-5,*,*/0", 0, 59));
    assert!(!field_expandable("1-5,*/0,*", 0, 59));
    assert!(field_expandable("*/7", 0, 59));
}

#[test]
fn expand_schedule_fields() {
    let x = expand_schedule("0 3 * jan 1-5").unwrap();
    assert_eq!(x.minutes, vec![0]);
    assert_eq!(x.hours, vec![3]);
    assert_eq!(x.doms.len(), 31);
    assert_eq!(x.months, vec![1]);
    assert_eq!(x.dows, vec![1, 2, 3, 4, 5]);
    assert!(expand_schedule("0 3 * *").is_none());
}

/// 2024-01-01 00:00 UTC, and its day number counted from the common era.
const BASE_SECS: i64 = 1_704_067_200;
const BASE_DAY: i32 = 738_886;

fn utc_stamp(hour: u32, minute: u32) -> LocalStamp {
    LocalStamp {
        year: 2024,
        month: 1,
        day: 1,
        hour,
        minute,
        day_number: BASE_DAY,
        timestamp: BASE_SECS + i64::from(hour) * 3600 + i64::from(minute) * 60,
        nanos: 0,
    }
}

fn utc_table() -> DayTable {
    let grid = (0..24)
        .map(|h| (0..60).map(|m| Some(utc_stamp(h, m))).collect())
        .collect();
    DayTable { day_number: BASE_DAY, grid }
}

#[test]
fn timeline_at_reads_the_tables() {
    let jobs = vec![make_job("0 3 * * *", "a"), make_job("*/30 * * * *", "b")];
    let now = utc_stamp(2, 30);
    let end = utc_stamp(3, 30);
    let tl = timeline_at(&jobs, 1, &now, &end, &vec![utc_table()]);
    assert_eq!(tl.start, "2024-01-01T02:30");
    assert_eq!(tl.end, "2024-01-01T03:30");
    assert_eq!(tl.hours, 1);
    let got: Vec<(&str, &str)> =
        tl.events.iter().map(|e| (e.time.as_str(), e.command.as_str())).collect();
    assert_eq!(
        got,
        vec![("2024-01-01T02:30", "b"), ("2024-01-01T03:00", "a"), ("2024-01-01T03:00", "b")]
    );
}

#[test]
fn timeline_at_skips_days_without_a_table_or_a_match() {
    let jobs = vec![make_job("0 3 2 * *", "second-of-month"), make_job("0 3 * * *", "daily")];
    let now = utc_stamp(0, 0);
    let end = utc_stamp(23, 59);
    let tl = timeline_at(&jobs, 24, &now, &end, &vec![]);
    assert!(tl.events.is_empty());
    let tl = timeline_at(&jobs, 24, &now, &end, &vec![utc_table()]);
    let got: Vec<&str> = tl.events.iter().map(|e| e.command.as_str()).collect();
    assert_eq!(got, vec!["daily"]);
}

#[test]
fn timeline_from_fails_only_past_the_calendar() {
    let jobs = vec![make_job("* * * * *", "x")];
    let now = utc_stamp(0, 0);
    // About 490,000 years on: past the last calendar day.
    assert!(timeline_from(&jobs, u32::MAX, &now).is_none());
    let tl = timeline_from(&jobs, 0, &now).unwrap();
    assert_eq!(tl.start, "2024-01-01T00:00");
    assert_eq!(tl.end, "2024-01-01T00:00");
    assert_eq!(tl.hours, 0);
    assert!(tl.events.is_empty());
    assert!(timeline_from(&jobs, 48, &now).is_some());
}

#[test]
fn build_timeline_of_no_hours_is_empty() {
    let jobs = vec![make_job("* * * * *", "x")];
    let tl = build_timeline(&jobs, 0).unwrap();
    assert_eq!(tl.start, tl.end);
    assert!(tl.events.is_empty());
}

#[test]
fn expand_field_holds_each_value_once() {
    assert_eq!(expand_field("1,1", 0, 59), vec![1]);
    assert_eq!(expand_field("1-3,2", 0, 59), vec![1, 2, 3]);
    assert_eq!(expand_field("5,1-3,5,*/20", 0, 59), vec![5, 1, 2, 3, 0, 20, 40]);
    assert_eq!(expand_dow_field("7,sun,0"), vec![7, 0]);
    assert_eq!(expand_dow_field("7,7"), vec![7, 0]);
}

#[test]
fn repeated_minutes_give_one_event() {
    let jobs = vec![make_job("0,0 3 * * *", "a")];
    let now = utc_stamp(2, 0);
    let end = utc_stamp(4, 0);
    let tl = timeline_at(&jobs, 2, &now, &end, &vec![utc_table()]);
    let got: Vec<&str> = tl.events.iter().map(|e| e.time.as_str()).collect();
    assert_eq!(got, vec!["2024-01-01T03:00"]);
}
