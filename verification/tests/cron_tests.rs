use recur::cron::{
    crontab_listing, explain_months, explain_schedule, is_cron_d_file_wanted, month_name,
    parse_crontab_line, parse_system_crontab, parse_system_crontab_line, parse_user_crontab,
    CronSource,
};

#[test]
fn explain_every_minute() {
    assert_eq!(explain_schedule("* * * * *"), "every minute");
}

#[test]
fn explain_every_hour() {
    assert_eq!(explain_schedule("0 * * * *"), "every hour");
}

#[test]
fn explain_daily_midnight() {
    assert_eq!(explain_schedule("0 0 * * *"), "daily at midnight");
}

#[test]
fn explain_every_5_minutes() {
    assert_eq!(explain_schedule("*/5 * * * *"), "every 5 minutes");
}

#[test]
fn explain_specific_time() {
    assert_eq!(explain_schedule("30 2 * * *"), "at 02:30");
}

#[test]
fn explain_weekly_monday() {
    assert_eq!(explain_schedule("0 0 * * 1"), "weekly on Monday at midnight");
}

#[test]
fn explain_monthly() {
    assert_eq!(explain_schedule("0 0 1 * *"), "monthly on the 1st at midnight");
}

#[test]
fn explain_specific_day_and_time() {
    assert_eq!(
        explain_schedule("0 3 * * 1,3,5"),
        "at 03:00, on Monday, Wednesday, Friday"
    );
}

#[test]
fn explain_complex() {
    assert_eq!(explain_schedule("30 4 1,15 * *"), "at 04:30, on days 1,15");
}

#[test]
fn explain_yearly() {
    assert_eq!(explain_schedule("0 0 1 1 *"), "yearly on Jan 1st at midnight");
}

#[test]
fn explain_weekday_range() {
    assert_eq!(
        explain_schedule("0 9 * * 1-5"),
        "at 09:00, on Monday through Friday"
    );
}

#[test]
fn explain_with_month() {
    assert_eq!(explain_schedule("0 6 * 3 *"), "at 06:00, in March");
}

#[test]
fn parse_crontab_line_valid() {
    let job = parse_crontab_line(
        "*/5 * * * * /usr/local/bin/backup.sh",
        "ruben",
        CronSource::UserCrontab,
    );
    assert!(job.is_some());
    let job = job.unwrap();
    assert_eq!(job.schedule, "*/5 * * * *");
    assert_eq!(job.command, "/usr/local/bin/backup.sh");
    assert_eq!(job.user, "ruben");
    assert_eq!(job.description, "every 5 minutes");
}

#[test]
fn parse_crontab_line_skips_comments() {
    assert!(parse_crontab_line("# this is a comment", "ruben", CronSource::UserCrontab).is_none());
}

#[test]
fn parse_crontab_line_skips_env_vars() {
    assert!(parse_crontab_line("SHELL=/bin/bash", "ruben", CronSource::UserCrontab).is_none());
}

#[test]
fn parse_crontab_line_skips_empty() {
    assert!(parse_crontab_line("", "ruben", CronSource::UserCrontab).is_none());
}

#[test]
fn parse_system_line_valid() {
    let job = parse_system_crontab_line(
        "0 3 * * * root /usr/sbin/logrotate",
        CronSource::SystemCrontab,
    );
    assert!(job.is_some());
    let job = job.unwrap();
    assert_eq!(job.user, "root");
    assert_eq!(job.command, "/usr/sbin/logrotate");
    assert_eq!(job.schedule, "0 3 * * *");
}

#[test]
fn explain_invalid_field_count() {
    assert_eq!(explain_schedule("* * * *"), "invalid cron expression");
    assert_eq!(explain_schedule("* * * * * *"), "invalid cron expression");
    assert_eq!(explain_schedule(""), "invalid cron expression");
}

#[test]
fn explain_extra_whitespace_is_ignored() {
    assert_eq!(explain_schedule("  */5   *  * * *  "), "every 5 minutes");
}

#[test]
fn explain_weekly_sunday() {
    assert_eq!(explain_schedule("0 0 * * 0"), "weekly on Sunday at midnight");
}

#[test]
fn explain_minute_every_hour() {
    assert_eq!(explain_schedule("15 * * * *"), "at minute 15, every hour");
}

#[test]
fn explain_during_hour() {
    assert_eq!(explain_schedule("* 5 * * *"), "during hour 5");
}

#[test]
fn explain_step_minutes_with_hour() {
    assert_eq!(
        explain_schedule("*/10 5 * * *"),
        "every 10 minutes, at hour 5"
    );
}

#[test]
fn explain_step_hours() {
    assert_eq!(explain_schedule("0 */2 * * *"), "at minute 0, every 2 hours");
}

#[test]
fn explain_non_numeric_hour() {
    assert_eq!(explain_schedule("0 1-5 * * *"), "at minute 0, at hour 1-5");
}

#[test]
fn explain_non_numeric_minute_with_hour() {
    assert_eq!(explain_schedule("1,2 3 * * *"), "at minute 1,2, at hour 3");
}

#[test]
fn explain_day_and_month_fields() {
    assert_eq!(explain_schedule("0 1 */3 * *"), "at 01:00, every 3 days");
    assert_eq!(explain_schedule("0 1 5 * *"), "at 01:00, on day 5");
    assert_eq!(explain_schedule("0 1 * 1,jun,13 *"), "at 01:00, in months January, June, 13");
    assert_eq!(explain_schedule("0 1 * 13 *"), "at 01:00, in month 13");
    assert_eq!(explain_schedule("0 1 * DEC *"), "at 01:00, in December");
}

#[test]
fn explain_dow_variants() {
    assert_eq!(explain_schedule("0 1 * * 7"), "at 01:00, on Sunday");
    assert_eq!(explain_schedule("0 1 * * 9"), "at 01:00, on weekday 9");
    assert_eq!(explain_schedule("0 1 * * mon-x"), "at 01:00, on Monday through x");
    assert_eq!(explain_schedule("0 1 * * 1-2-3"), "at 01:00");
}

#[test]
fn explain_plus_sign_is_a_number() {
    assert_eq!(explain_schedule("+5 +7 * * *"), "at 07:05");
}

#[test]
fn month_names() {
    assert_eq!(month_name("feb"), Some("February".to_string()));
    assert_eq!(month_name("Feb"), None);
    assert_eq!(explain_months("1,x"), "January, x");
}

#[test]
fn parse_crontab_line_runs_of_blanks_separate_fields() {
    let job = parse_crontab_line("0  3 * * *\t /usr/bin/x", "ruben", CronSource::UserCrontab).unwrap();
    assert_eq!(job.schedule, "0 3 * * *");
    assert_eq!(job.command, "/usr/bin/x");
    assert_eq!(job.description, "at 03:00");
    assert!(parse_crontab_line("0 3 * * *", "u", CronSource::UserCrontab).is_none());
    assert!(parse_crontab_line("0 3 * * *   ", "u", CronSource::UserCrontab).is_none());
    let job = parse_system_crontab_line("0 3  * * *  root   run  it", CronSource::SystemCrontab)
        .unwrap();
    assert_eq!(job.schedule, "0 3 * * *");
    assert_eq!(job.user, "root");
    assert_eq!(job.command, "run  it");
}

#[test]
fn parse_crontab_line_keeps_commands_with_equals() {
    let job = parse_crontab_line(
        "*/5 * * * * curl -s http://localhost/ping?id=1 > /dev/null",
        "ruben",
        CronSource::UserCrontab,
    )
    .unwrap();
    assert_eq!(job.command, "curl -s http://localhost/ping?id=1 > /dev/null");
    assert_eq!(job.description, "every 5 minutes");
    assert!(parse_crontab_line("MAILTO=root", "u", CronSource::UserCrontab).is_none());
    assert!(parse_crontab_line("PATH=/bin:/usr/bin x y z w v", "u", CronSource::UserCrontab).is_none());
    assert!(parse_system_crontab_line("SHELL=/bin/sh", CronSource::SystemCrontab).is_none());
}

#[test]
fn parse_crontab_line_keeps_command_rest() {
    let job = parse_crontab_line("  0 3 * * *   a b  c  ", "u", CronSource::UserCrontab).unwrap();
    assert_eq!(job.command, "a b  c");
    assert_eq!(job.schedule, "0 3 * * *");
    assert_eq!(job.description, "at 03:00");
}

#[test]
fn parse_user_crontab_lines() {
    let text = "# m h dom mon dow command\nMAILTO=x\n\n0 1 * * * one\r\n*/2 * * * * two";
    let jobs = parse_user_crontab(text, "alice");
    assert_eq!(jobs.len(), 2);
    assert_eq!(jobs[0].command, "one");
    assert_eq!(jobs[1].command, "two");
    assert_eq!(jobs[1].user, "alice");
    assert_eq!(jobs[1].source, CronSource::UserCrontab);
}

#[test]
fn parse_system_crontab_lines() {
    let src = CronSource::CronD("backup".to_string());
    let jobs = parse_system_crontab("0 1 * * * root run\n0 2 * * * short\n", &src);
    assert_eq!(jobs.len(), 1);
    assert_eq!(jobs[0].user, "root");
    assert_eq!(jobs[0].source.label(), "/etc/cron.d/backup");
}

#[test]
fn source_labels() {
    assert_eq!(CronSource::UserCrontab.label(), "crontab");
    assert_eq!(CronSource::SystemCrontab.label(), "/etc/crontab");
}

#[test]
fn cron_d_files() {
    assert!(is_cron_d_file_wanted("backup"));
    assert!(!is_cron_d_file_wanted(".placeholder"));
    assert!(!is_cron_d_file_wanted("backup~"));
    assert!(!is_cron_d_file_wanted("backup.dpkg-old"));
}

#[test]
fn crontab_listing_outcomes() {
    let ok = crontab_listing(true, "0 1 * * * x\n", "", "bob").unwrap();
    assert_eq!(ok.len(), 1);
    let none = crontab_listing(false, "", "no crontab for bob\n", "bob").unwrap();
    assert!(none.is_empty());
    let err = crontab_listing(false, "", "  permission denied \n", "bob").unwrap_err();
    assert_eq!(err, "crontab -l failed: permission denied");
}

#[test]
fn invalid_text_only_for_wrong_field_counts() {
    assert_eq!(explain_schedule(""), "invalid cron expression");
    assert_eq!(explain_schedule("1 2 3 4 5 6"), "invalid cron expression");
    assert_ne!(explain_schedule("invalid cron expression x y"), "invalid cron expression");
    assert!(!explain_schedule("x y z w v").is_empty());
}
