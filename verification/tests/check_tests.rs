use recur::check::{
    check_exit_code, check_jobs, count_severities, extract_executable, probed_path, truncate, Issue,
    PathState, Severity,
};
use recur::cli::{json_output_wanted, OutputFormat};
use recur::cron::{CronJob, CronSource};

fn make_job(schedule: &str, command: &str, user: &str) -> CronJob {
    CronJob {
        user: user.to_string(),
        schedule: schedule.to_string(),
        command: command.to_string(),
        description: String::new(),
        source: CronSource::UserCrontab,
    }
}

fn any(issues: &[Issue], text: &str) -> bool {
    issues.iter().any(|i| i.message.contains(text))
}

#[test]
fn detects_missing_executable() {
    let jobs = vec![make_job("0 * * * *", "/nonexistent/path/script.sh", "ruben")];
    let issues = check_jobs(&jobs, &vec![PathState::Missing]);
    assert!(any(&issues, "executable not found"));
}

#[test]
fn warns_every_minute() {
    let jobs = vec![make_job("* * * * *", "echo hello", "ruben")];
    let issues = check_jobs(&jobs, &vec![PathState::NotAFile; jobs.len()]);
    assert!(any(&issues, "runs every minute"));
}

#[test]
fn warns_no_output_redirect() {
    let jobs = vec![make_job("0 * * * *", "/usr/bin/something", "ruben")];
    let issues = check_jobs(&jobs, &vec![PathState::NotAFile; jobs.len()]);
    assert!(any(&issues, "output will be mailed"));
}

#[test]
fn no_warning_with_redirect() {
    let jobs = vec![make_job("0 * * * *", "/usr/bin/something > /dev/null 2>&1", "ruben")];
    let issues = check_jobs(&jobs, &vec![PathState::NotAFile; jobs.len()]);
    assert!(!any(&issues, "output will be mailed"));
}

#[test]
fn detects_overlapping_schedules() {
    let jobs = vec![
        make_job("0 3 * * *", "/usr/bin/job1", "ruben"),
        make_job("0 3 * * *", "/usr/bin/job2", "ruben"),
    ];
    let issues = check_jobs(&jobs, &vec![PathState::NotAFile; jobs.len()]);
    assert!(any(&issues, "same schedule"));
}

#[test]
fn no_overlap_different_users() {
    let jobs = vec![
        make_job("0 3 * * *", "/usr/bin/job1", "ruben"),
        make_job("0 3 * * *", "/usr/bin/job2", "root"),
    ];
    let issues = check_jobs(&jobs, &vec![PathState::NotAFile; jobs.len()]);
    assert!(!any(&issues, "same schedule"));
}

#[test]
fn extract_executable_simple() {
    assert_eq!(extract_executable("/usr/bin/backup.sh --full"), Some("/usr/bin/backup.sh"));
}

#[test]
fn extract_executable_with_cd() {
    assert_eq!(extract_executable("cd /var/app && /usr/bin/run.sh"), Some("/usr/bin/run.sh"));
}

#[test]
fn extract_executable_with_sudo() {
    assert_eq!(extract_executable("sudo /usr/bin/cleanup.sh"), Some("/usr/bin/cleanup.sh"));
}

#[test]
fn extract_executable_shell_wrappers() {
    assert_eq!(extract_executable("/bin/sh -c '/opt/x.sh arg'"), Some("/opt/x.sh"));
    assert_eq!(extract_executable("nice /bin/bash -c \"run now\""), Some("run"));
    assert_eq!(extract_executable("cd /tmp"), Some("cd"));
    assert_eq!(extract_executable("cd /a && b && c"), Some("b"));
    assert_eq!(extract_executable("   "), None);
}

#[test]
fn probed_paths() {
    assert_eq!(probed_path("/usr/bin/x -v"), Some("/usr/bin/x"));
    assert_eq!(probed_path("echo hi"), None);
    assert_eq!(probed_path("$HOME/bin/x"), None);
}

#[test]
fn not_executable_file() {
    let jobs = vec![make_job("0 1 * * *", "/opt/run.sh > /dev/null", "u")];
    let issues = check_jobs(&jobs, &vec![PathState::File { mode: 0o644 }]);
    assert_eq!(issues.len(), 1);
    assert_eq!(issues[0].severity, Severity::Error);
    assert_eq!(issues[0].message, "file not executable: /opt/run.sh");
    let ok = check_jobs(&jobs, &vec![PathState::File { mode: 0o755 }]);
    assert!(ok.is_empty());
}

#[test]
fn exact_issue_list() {
    let jobs = vec![
        make_job("* * * * *", "/a", "u"),
        make_job("* * * * *", "sleep 5; /b >x", "u"),
    ];
    let issues = check_jobs(&jobs, &vec![PathState::Missing, PathState::NotAFile]);
    let msgs: Vec<&str> = issues.iter().map(|i| i.message.as_str()).collect();
    assert_eq!(
        msgs,
        vec![
            "executable not found: /a",
            "runs every minute — is this intentional?",
            "no output redirection — output will be mailed",
            "same schedule as another job: sleep 5; /b >x",
        ]
    );
    assert_eq!(issues[3].job_command, "/a");
    assert_eq!(issues[3].user, "u");
    assert_eq!(issues[0].severity.label(), "ERROR");
    assert_eq!(issues[1].severity.label(), "WARN");
}

#[test]
fn truncate_long_and_short() {
    assert_eq!(truncate("abcdef", 3), "abc...");
    assert_eq!(truncate("abc", 3), "abc");
    assert_eq!(truncate("héllo", 3), "hé...");
}

fn issue(severity: Severity) -> Issue {
    Issue {
        severity,
        job_command: "cmd".to_string(),
        user: "u".to_string(),
        message: "m".to_string(),
    }
}

#[test]
fn exit_code_and_counts() {
    assert_eq!(check_exit_code(&vec![]), 0);
    let issues = vec![issue(Severity::Warning), issue(Severity::Error), issue(Severity::Warning)];
    assert_eq!(check_exit_code(&issues), 2);
    assert_eq!(count_severities(&issues), (1, 2));
    assert_eq!(count_severities(&vec![]), (0, 0));
    assert_eq!(Severity::Error.label(), "ERROR");
    assert_eq!(Severity::Warning.label(), "WARN");
}

#[test]
fn json_output_choice() {
    assert!(!json_output_wanted(false, false, OutputFormat::Auto, true));
    assert!(json_output_wanted(false, false, OutputFormat::Auto, false));
    assert!(json_output_wanted(true, false, OutputFormat::Auto, true));
    assert!(json_output_wanted(false, true, OutputFormat::Auto, true));
    assert!(json_output_wanted(false, false, OutputFormat::Json, true));
    assert!(!json_output_wanted(false, false, OutputFormat::Text, false));
    assert!(json_output_wanted(true, false, OutputFormat::Text, false));
    assert!(json_output_wanted(false, true, OutputFormat::Text, false));
}
