use session_analytics::analysis::{get_step_analysis, grouped_sessions_to_session_analysis, StepAnalysis};
use session_analytics::error::DataError;
use session_analytics::percentage::Percentage;
use session_analytics::report::{Report, ReportInfo, Tag};
use session_analytics::session::{GroupedSession, Session, Step};
use session_analytics::steps_analytics::TagGroupFrequency;
use session_analytics::tag_group::{match_tag_group, TagGroup};
use session_analytics::user::{LoginInfo, User};
use uuid::Uuid;

fn names(tags: &[&str]) -> Vec<String> {
    tags.iter().map(|t| t.to_string()).collect()
}

fn group(id: i32, tags: &[&str]) -> TagGroup {
    TagGroup { id, tags_names: names(tags) }
}

fn report(time_ms: i64, tags: &[&str]) -> ReportInfo {
    ReportInfo {
        access_key: Uuid::nil(),
        session_id: Uuid::from_u128(7),
        time_ms,
        tags: names(tags),
    }
}

fn session(reports: Vec<ReportInfo>) -> Session {
    Session { session_id: Uuid::from_u128(7), reports }
}

fn step(n: usize, g: Option<TagGroup>, duration_ms: u64) -> Step {
    Step { step_number: n, tag_group: g, duration_ms }
}

fn ids(groups: &[TagGroup]) -> Vec<i32> {
    groups.iter().map(|g| g.id).collect()
}

#[test]
fn contains_any_finds_shared_tag() {
    let g = group(1, &["a", "b"]);
    assert!(g.contains_any(&names(&["x", "b"])));
    assert!(!g.contains_any(&names(&["x", "y"])));
    assert!(!g.contains_any(&[]));
}

#[test]
fn untagged_report_matches_no_group() {
    let groups = vec![group(1, &["a"]), group(2, &["b"])];
    assert_eq!(match_tag_group(&[], &groups), None);
}

#[test]
fn overlapping_groups_first_listed_wins() {
    let groups = vec![group(1, &["x", "a"]), group(2, &["a", "b"])];
    assert_eq!(match_tag_group(&names(&["a"]), &groups), Some(0));
    let swapped = vec![group(2, &["a", "b"]), group(1, &["x", "a"])];
    assert_eq!(match_tag_group(&names(&["a"]), &swapped), Some(0));
    assert_eq!(match_tag_group(&names(&["b"]), &groups), Some(1));
    assert_eq!(match_tag_group(&names(&["z"]), &groups), None);
}

#[test]
fn single_run_session_has_no_steps() {
    let groups = vec![group(1, &["A"]), group(2, &["B"])];
    let s = session(vec![report(0, &["A"]), report(10, &["A"]), report(20, &["A"])]);
    assert!(s.into_grouped_session(&groups).steps.is_empty());
    let one = session(vec![report(5, &["B"])]);
    assert!(one.into_grouped_session(&groups).steps.is_empty());
}

#[test]
fn empty_session_has_no_steps() {
    let groups = vec![group(1, &["A"])];
    assert!(session(vec![]).into_grouped_session(&groups).steps.is_empty());
}

#[test]
fn example_two_runs_give_one_step() {
    let groups = vec![group(1, &["A"]), group(2, &["B"])];
    let s = session(vec![
        report(0, &["A"]),
        report(100, &["A"]),
        report(150, &["B"]),
        report(400, &["B"]),
    ]);
    let gs = s.into_grouped_session(&groups);
    assert_eq!(gs.steps.len(), 1);
    assert_eq!(gs.steps[0].step_number, 0);
    let g = gs.steps[0].tag_group.as_ref().unwrap();
    assert_eq!(g.id, 2);
    assert_eq!(g.tags_names, names(&["B"]));
    assert_eq!(gs.steps[0].duration_ms, 300);
}

#[test]
fn out_of_order_timestamps_give_non_negative_durations() {
    let groups = vec![group(1, &["A"]), group(2, &["B"])];
    let s = session(vec![report(500, &["A"]), report(100, &["B"]), report(-50, &["A"])]);
    let gs = s.into_grouped_session(&groups);
    assert_eq!(gs.steps.len(), 2);
    assert_eq!(gs.steps[0].duration_ms, 400);
    assert_eq!(gs.steps[1].duration_ms, 150);
}

#[test]
fn extreme_timestamps_do_not_overflow() {
    let groups = vec![group(1, &["A"]), group(2, &["B"])];
    let s = session(vec![report(i64::MIN, &["A"]), report(i64::MAX, &["B"])]);
    let gs = s.into_grouped_session(&groups);
    assert_eq!(gs.steps[0].duration_ms, u64::MAX);
}

#[test]
fn reentering_a_stage_makes_a_new_step() {
    let groups = vec![group(1, &["A"]), group(2, &["B"])];
    let s = session(vec![
        report(10, &["A"]),
        report(30, &["B"]),
        report(35, &["B"]),
        report(90, &["A"]),
    ]);
    let gs = s.into_grouped_session(&groups);
    assert_eq!(gs.steps.len(), 2);
    assert_eq!(gs.steps[0].tag_group.as_ref().unwrap().id, 2);
    assert_eq!(gs.steps[0].duration_ms, 25);
    assert_eq!(gs.steps[1].step_number, 1);
    assert_eq!(gs.steps[1].tag_group.as_ref().unwrap().id, 1);
    assert_eq!(gs.steps[1].duration_ms, 55);
}

#[test]
fn unmatched_run_is_a_step_without_group() {
    let groups = vec![group(1, &["A"])];
    let s = session(vec![report(10, &["A"]), report(40, &["other"]), report(45, &[])]);
    let gs = s.into_grouped_session(&groups);
    assert_eq!(gs.steps.len(), 1);
    assert!(gs.steps[0].tag_group.is_none());
    assert_eq!(gs.steps[0].duration_ms, 35);
}

#[test]
fn analysis_of_no_sessions_is_empty() {
    assert!(grouped_sessions_to_session_analysis(&[]).is_empty());
}

#[test]
fn percentages_without_sessions_fail() {
    let groups = vec![group(1, &["a"])];
    assert!(matches!(Session::get_percentages(&[], &groups), Err(DataError::NoSessionFound)));
}

#[test]
fn percentages_example() {
    let groups = vec![group(1, &["checkout"]), group(2, &["paid"])];
    let sessions = vec![
        session(vec![report(0, &["checkout"]), report(10, &["paid"])]),
        session(vec![report(0, &["checkout"])]),
    ];
    let p = Session::get_percentages(&sessions, &groups).unwrap();
    let values: Vec<u32> = p.iter().map(|x| x.value()).collect();
    assert_eq!(values, vec![100, 50]);
}

#[test]
fn percentages_round_to_nearest() {
    let groups = vec![group(1, &["a"]), group(2, &["b"]), group(3, &["zzz"])];
    let sessions = vec![
        session(vec![report(0, &["a"])]),
        session(vec![report(0, &["b"])]),
        session(vec![report(0, &["b", "c"])]),
    ];
    let p = Session::get_percentages(&sessions, &groups).unwrap();
    let values: Vec<u32> = p.iter().map(|x| x.value()).collect();
    assert_eq!(values, vec![33, 67, 0]);
}

#[test]
fn percentages_round_halves_up() {
    let groups = vec![group(1, &["a"])];
    let mut sessions = vec![session(vec![report(0, &["a"])])];
    for _ in 0..7 {
        sessions.push(session(vec![report(0, &["b"])]));
    }
    let p = Session::get_percentages(&sessions, &groups).unwrap();
    assert_eq!(p[0].value(), 13);
}

#[test]
fn percentage_bounds() {
    assert!(Percentage::new(101).is_none());
    assert_eq!(Percentage::new(100).unwrap().value(), 100);
    assert_eq!(Percentage::new(0).unwrap().value(), 0);
}

#[test]
fn session_count_with_group() {
    let sessions = vec![
        session(vec![report(0, &["a"]), report(1, &["b"])]),
        session(vec![report(0, &["c"])]),
        session(vec![report(0, &["b"])]),
    ];
    let g = group(1, &["b"]);
    assert!(sessions[0].contains_tag_group(&g));
    assert!(!sessions[1].contains_tag_group(&g));
    assert_eq!(Session::count_sessions_with_tag_group(&sessions, &g), 2);
}

#[test]
fn average_session_duration_uses_first_two_reports() {
    let sessions = vec![
        session(vec![report(0, &["a"]), report(1000, &["a"])]),
        session(vec![report(500, &["a"]), report(700, &["a"]), report(9000, &["a"])]),
        session(vec![report(3, &["a"])]),
    ];
    assert_eq!(sessions[1].get_session_duration(), 200);
    assert_eq!(sessions[2].get_session_duration(), 0);
    assert_eq!(Session::get_average_session_duration(&sessions), 400);
    assert_eq!(Session::get_average_session_duration(&[]), 0);
}

#[test]
fn step_analysis_ranks_least_frequent_first() {
    let a = group(1, &["a"]);
    let b = group(2, &["b"]);
    let c = group(3, &["c"]);
    let sessions = vec![
        GroupedSession { steps: vec![step(0, Some(b.clone()), 10), step(1, Some(a.clone()), 5)] },
        GroupedSession { steps: vec![step(0, Some(b.clone()), 20)] },
        GroupedSession { steps: vec![step(0, Some(c.clone()), 31)] },
        GroupedSession { steps: vec![step(0, Some(a.clone()), 40)] },
        GroupedSession { steps: vec![step(0, None, 1)] },
        GroupedSession { steps: vec![] },
    ];
    let first: StepAnalysis = get_step_analysis(&sessions, 0);
    assert_eq!(first.step_number, 0);
    assert_eq!(first.average_duration_ms, 20);
    assert_eq!(ids(&first.tag_groups_sorted), vec![1, 3, 2]);
    let second = get_step_analysis(&sessions, 1);
    assert_eq!(second.average_duration_ms, 5);
    assert_eq!(ids(&second.tag_groups_sorted), vec![1]);
    let beyond = get_step_analysis(&sessions, 5);
    assert_eq!(beyond.average_duration_ms, 0);
    assert!(beyond.tag_groups_sorted.is_empty());
}

#[test]
fn session_analysis_covers_every_reached_step() {
    let a = group(1, &["a"]);
    let b = group(2, &["b"]);
    let sessions = vec![
        GroupedSession { steps: vec![step(0, Some(a.clone()), 10)] },
        GroupedSession {
            steps: vec![step(0, Some(b.clone()), 30), step(1, Some(a.clone()), 7), step(2, Some(b.clone()), 9)],
        },
    ];
    let all = grouped_sessions_to_session_analysis(&sessions);
    assert_eq!(all.len(), 3);
    let numbers: Vec<usize> = all.iter().map(|s| s.step_number).collect();
    assert_eq!(numbers, vec![0, 1, 2]);
    assert_eq!(all[0].average_duration_ms, 20);
    assert_eq!(ids(&all[0].tag_groups_sorted), vec![1, 2]);
    assert_eq!(all[2].average_duration_ms, 9);
}

#[test]
fn frequency_merge_keeps_running_mean() {
    let g = group(4, &["x"]);
    let mut f = TagGroupFrequency::new(&step(0, Some(g.clone()), 100));
    assert_eq!(f.count(), 1);
    assert_eq!(f.average_duration_ms(), 100);
    f.merge(&step(0, Some(g.clone()), 200));
    assert_eq!(f.count(), 2);
    assert_eq!(f.average_duration_ms(), 150);
    f.merge(&step(0, Some(g), 0));
    assert_eq!(f.count(), 3);
    assert_eq!(f.average_duration_ms(), 100);
    assert_eq!(f.tag_group().as_ref().unwrap().id, 4);
}

#[test]
fn report_info_takes_tag_names() {
    let r = Report { report_id: 3, session_id: Uuid::from_u128(9), project_id: 1, timestamp: 1234 };
    let tags = vec![Tag { tag_id: 1, name: "x".to_string() }, Tag { tag_id: 2, name: "y".to_string() }];
    let info = r.into_report_info(tags);
    assert_eq!(info.time_ms, 1234);
    assert_eq!(info.session_id, Uuid::from_u128(9));
    assert_eq!(info.tags, names(&["x", "y"]));
    assert!(info.access_key.is_nil());
}

#[test]
fn login_checks_password() {
    let user = User::new("ann".to_string(), "ann@example.com".to_string(), "pw".to_string());
    let good = LoginInfo { email: "ann@example.com".to_string(), password: "pw".to_string() };
    let bad = LoginInfo { email: "ann@example.com".to_string(), password: "nope".to_string() };
    assert!(user.validate_login_info(&good).is_ok());
    assert!(matches!(user.validate_login_info(&bad), Err(DataError::WrongPassword)));
}

fn analysis_to_json(all: &[StepAnalysis]) -> serde_json::Value {
    serde_json::Value::Array(
        all.iter()
            .map(|a| {
                serde_json::Value::Array(vec![
                    serde_json::Value::from(a.step_number as u64),
                    serde_json::Value::from(a.average_duration_ms),
                    serde_json::Value::Array(
                        a.tag_groups_sorted.iter().map(|g| serde_json::Value::from(g.id as i64)).collect(),
                    ),
                ])
            })
            .collect(),
    )
}

#[test]
fn analysis_json_round_trip_keeps_order() {
    let a = group(1, &["a"]);
    let b = group(2, &["b"]);
    let c = group(3, &["c"]);
    let sessions = vec![
        GroupedSession { steps: vec![step(0, Some(c.clone()), 10), step(1, Some(b.clone()), 3)] },
        GroupedSession { steps: vec![step(0, Some(c.clone()), 10), step(1, Some(a.clone()), 3)] },
        GroupedSession { steps: vec![step(0, Some(a.clone()), 10)] },
    ];
    let all = grouped_sessions_to_session_analysis(&sessions);
    let text = serde_json::to_string(&analysis_to_json(&all)).unwrap();
    let back: serde_json::Value = serde_json::from_str(&text).unwrap();
    let rows = back.as_array().unwrap();
    let numbers: Vec<u64> = rows.iter().map(|r| r[0].as_u64().unwrap()).collect();
    assert_eq!(numbers, vec![0, 1]);
    let first: Vec<i64> = rows[0][2].as_array().unwrap().iter().map(|v| v.as_i64().unwrap()).collect();
    assert_eq!(first, vec![1, 3]);
    let second: Vec<i64> = rows[1][2].as_array().unwrap().iter().map(|v| v.as_i64().unwrap()).collect();
    assert_eq!(second, vec![1, 2]);
}

#[test]
fn sessions_with_tag_group_keep_order() {
    let sessions = vec![
        Session { session_id: Uuid::from_u128(1), reports: vec![report(0, &["b"])] },
        Session { session_id: Uuid::from_u128(2), reports: vec![report(0, &["c"])] },
        Session { session_id: Uuid::from_u128(3), reports: vec![report(0, &["a"]), report(5, &["b"])] },
    ];
    let kept = Session::get_sessions_with_tag_group(sessions, &group(1, &["b"]));
    let kept_ids: Vec<Uuid> = kept.iter().map(|s| s.session_id).collect();
    assert_eq!(kept_ids, vec![Uuid::from_u128(1), Uuid::from_u128(3)]);
}
