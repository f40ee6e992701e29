use timetracker::store::RECENT_NAME_LIMIT;
use timetracker::text::{date_part, is_after, midnight_of};
use timetracker::{Favourite, Task, TimeStore};

fn ids(v: &[Task]) -> Vec<i64> {
    v.iter().map(|t| t.id).collect()
}

fn fav_ids(v: &[Favourite]) -> Vec<i64> {
    v.iter().map(|f| f.id).collect()
}

fn task(id: i64, name: &str, created_at: &str) -> Task {
    Task {
        id,
        name: name.to_string(),
        total_seconds: 0,
        created_at: created_at.to_string(),
        note: None,
    }
}

#[test]
fn writing_session_scenario() {
    let mut s = TimeStore::new();
    let t = s
        .create_task("Writing".to_string(), "2024-03-01".to_string(), None)
        .unwrap();
    assert_eq!(t.id, 1);
    assert_eq!(t.total_seconds, 0);
    assert_eq!(t.created_at, "2024-03-01 00:00:00");
    s.add_time_to_task(1, 1500).unwrap();
    assert_eq!(s.get_task_by_id(1).unwrap().unwrap().total_seconds, 1500);
    s.adjust_task_time(1, -300).unwrap();
    assert_eq!(s.get_task_by_id(1).unwrap().unwrap().total_seconds, 1200);
    let day = s.get_tasks_for_date("2024-03-01".to_string()).unwrap();
    assert_eq!(day.len(), 1);
    assert_eq!(day[0].id, 1);
    assert_eq!(day[0].total_seconds, 1200);
    assert_eq!(day[0].name, "Writing");
}

#[test]
fn create_then_get_keeps_date_and_initial_seconds() {
    let mut s = TimeStore::new();
    let t = s
        .create_task("Review".to_string(), "2023-12-31".to_string(), Some(90))
        .unwrap();
    let got = s.get_task_by_id(t.id).unwrap().unwrap();
    assert_eq!(got.created_at, "2023-12-31 00:00:00");
    assert_eq!(got.total_seconds, 90);
    assert_eq!(got.name, "Review");
    assert!(got.note.is_none());
    assert!(s.get_task_by_id(t.id + 1).unwrap().is_none());
}

#[test]
fn ids_increase_and_are_not_reused() {
    let mut s = TimeStore::new();
    let a = s.create_task("a".to_string(), "2024-01-01".to_string(), None).unwrap();
    let b = s.create_task("b".to_string(), "2024-01-01".to_string(), None).unwrap();
    assert_eq!((a.id, b.id), (1, 2));
    s.delete_task(2).unwrap();
    let c = s.create_task("c".to_string(), "2024-01-01".to_string(), None).unwrap();
    assert_eq!(c.id, 3);
}

#[test]
fn add_and_adjust_agree() {
    let mut s = TimeStore::new();
    s.create_task("x".to_string(), "2024-01-01".to_string(), Some(100)).unwrap();
    s.create_task("y".to_string(), "2024-01-01".to_string(), Some(100)).unwrap();
    s.add_time_to_task(1, -40).unwrap();
    s.adjust_task_time(2, -40).unwrap();
    assert_eq!(s.get_task_by_id(1).unwrap().unwrap().total_seconds, 60);
    assert_eq!(s.get_task_by_id(2).unwrap().unwrap().total_seconds, 60);
}

#[test]
fn update_time_sets_exact_value() {
    let mut s = TimeStore::new();
    s.create_task("x".to_string(), "2024-01-01".to_string(), Some(777)).unwrap();
    s.update_task_time(1, 42).unwrap();
    assert_eq!(s.get_task_by_id(1).unwrap().unwrap().total_seconds, 42);
    s.update_task_time(1, -5).unwrap();
    assert_eq!(s.get_task_by_id(1).unwrap().unwrap().total_seconds, -5);
}

#[test]
fn overflowing_add_is_an_error_and_changes_nothing() {
    let mut s = TimeStore::new();
    s.create_task("x".to_string(), "2024-01-01".to_string(), Some(i64::MAX - 1)).unwrap();
    assert!(s.add_time_to_task(1, 2).is_err());
    assert_eq!(s.get_task_by_id(1).unwrap().unwrap().total_seconds, i64::MAX - 1);
    assert!(s.adjust_task_time(1, 1).is_ok());
    assert_eq!(s.get_task_by_id(1).unwrap().unwrap().total_seconds, i64::MAX);
    s.update_task_time(1, i64::MIN).unwrap();
    assert!(s.adjust_task_time(1, -1).is_err());
    // a missing id cannot overflow
    assert!(s.add_time_to_task(9, i64::MAX).is_ok());
}

#[test]
fn list_for_date_only_that_date_newest_first() {
    let mut s = TimeStore::new();
    s.create_task("a".to_string(), "2024-03-01".to_string(), None).unwrap();
    s.create_task("b".to_string(), "2024-03-02".to_string(), None).unwrap();
    s.create_task("c".to_string(), "2024-03-01".to_string(), None).unwrap();
    s.restore_task(task(10, "d", "2024-03-01 09:30:00")).unwrap();
    let day = s.get_tasks_for_date("2024-03-01".to_string()).unwrap();
    assert_eq!(ids(&day), vec![10, 3, 1]);
    let other = s.get_tasks_for_date("2024-03-02".to_string()).unwrap();
    assert_eq!(ids(&other), vec![2]);
    assert!(s.get_tasks_for_date("2024-03-03".to_string()).unwrap().is_empty());
}

#[test]
fn range_is_union_of_days_newest_first() {
    let mut s = TimeStore::new();
    for d in ["2024-02-28", "2024-03-01", "2024-02-29", "2024-03-02", "2024-02-27"] {
        s.create_task(d.to_string(), d.to_string(), None).unwrap();
    }
    let r = s
        .get_tasks_in_range("2024-02-28".to_string(), "2024-03-01".to_string())
        .unwrap();
    assert_eq!(ids(&r), vec![2, 3, 1]);
    let all = s
        .get_tasks_in_range("2024-01-01".to_string(), "2024-12-31".to_string())
        .unwrap();
    assert_eq!(ids(&all), vec![4, 2, 3, 1, 5]);
    let one = s
        .get_tasks_in_range("2024-03-02".to_string(), "2024-03-02".to_string())
        .unwrap();
    assert_eq!(ids(&one), vec![4]);
    let none = s
        .get_tasks_in_range("2024-03-02".to_string(), "2024-03-01".to_string())
        .unwrap();
    assert!(none.is_empty());
}

#[test]
fn deleting_missing_ids_changes_nothing() {
    let mut s = TimeStore::new();
    s.create_task("a".to_string(), "2024-03-01".to_string(), None).unwrap();
    let f = s.create_favourite("Pomodoro".to_string(), 1500).unwrap();
    s.delete_task(99).unwrap();
    s.delete_favourite(99).unwrap();
    assert_eq!(ids(&s.get_tasks_for_date("2024-03-01".to_string()).unwrap()), vec![1]);
    assert_eq!(fav_ids(&s.get_favourites().unwrap()), vec![f]);
    s.delete_task(1).unwrap();
    assert!(s.get_task_by_id(1).unwrap().is_none());
}

#[test]
fn unique_names_are_distinct_recent_and_capped() {
    let mut s = TimeStore::new();
    for i in 0..60 {
        let day = format!("2024-01-{:02}", 1 + i % 28);
        s.create_task(format!("task {}", i), day, None).unwrap();
    }
    let names = s.get_unique_task_names().unwrap();
    assert_eq!(names.len(), RECENT_NAME_LIMIT);
    let mut sorted = names.clone();
    sorted.sort();
    sorted.dedup();
    assert_eq!(sorted.len(), names.len());
}

#[test]
fn unique_names_collapse_duplicates_by_most_recent() {
    let mut s = TimeStore::new();
    s.create_task("Email".to_string(), "2024-01-01".to_string(), None).unwrap();
    s.create_task("Coding".to_string(), "2024-01-02".to_string(), None).unwrap();
    s.create_task("Email".to_string(), "2024-01-03".to_string(), None).unwrap();
    let names = s.get_unique_task_names().unwrap();
    assert_eq!(names, vec!["Email".to_string(), "Coding".to_string()]);
    assert!(TimeStore::new().get_unique_task_names().unwrap().is_empty());
}

#[test]
fn favourite_round_trip() {
    let mut s = TimeStore::new();
    let a = s.create_favourite("Short".to_string(), 300).unwrap();
    let b = s.create_favourite("Long".to_string(), 3600).unwrap();
    assert_eq!((a, b), (1, 2));
    let all = s.get_favourites().unwrap();
    let matching: Vec<&Favourite> = all.iter().filter(|f| f.id == b).collect();
    assert_eq!(matching.len(), 1);
    assert_eq!(matching[0].name, "Long");
    assert_eq!(matching[0].duration_seconds, 3600);
    s.delete_favourite(b).unwrap();
    assert_eq!(fav_ids(&s.get_favourites().unwrap()), vec![a]);
    assert_eq!(s.create_favourite("Again".to_string(), 60).unwrap(), 3);
}

#[test]
fn rename_and_note() {
    let mut s = TimeStore::new();
    s.create_task("a".to_string(), "2024-03-01".to_string(), None).unwrap();
    s.update_task_name(1, "b".to_string()).unwrap();
    s.update_task_note(1, Some("remember".to_string())).unwrap();
    let t = s.get_task_by_id(1).unwrap().unwrap();
    assert_eq!(t.name, "b");
    assert_eq!(t.note.as_deref(), Some("remember"));
    s.update_task_note(1, None).unwrap();
    assert!(s.get_task_by_id(1).unwrap().unwrap().note.is_none());
    s.update_task_name(7, "ghost".to_string()).unwrap();
    assert!(s.get_task_by_id(7).unwrap().is_none());
}

#[test]
fn restore_rejects_bad_rows() {
    let mut s = TimeStore::new();
    assert!(s.restore_task(task(0, "zero", "2024-01-01 00:00:00")).is_err());
    s.restore_task(task(5, "five", "2024-01-01 00:00:00")).unwrap();
    assert!(s.restore_task(task(5, "again", "2024-01-02 00:00:00")).is_err());
    let next = s.create_task("next".to_string(), "2024-01-01".to_string(), None).unwrap();
    assert_eq!(next.id, 6);
    let f = Favourite { id: 4, name: "f".to_string(), duration_seconds: 10 };
    s.restore_favourite(f.clone()).unwrap();
    assert!(s.restore_favourite(f).is_err());
    assert_eq!(s.create_favourite("g".to_string(), 20).unwrap(), 5);
}

#[test]
fn todays_tasks_use_local_date() {
    let mut s = TimeStore::new();
    let today = chrono::Local::now().format("%Y-%m-%d").to_string();
    s.create_task("now".to_string(), today.clone(), None).unwrap();
    s.create_task("old".to_string(), "1999-01-01".to_string(), None).unwrap();
    let got = s.get_todays_tasks().unwrap();
    // the clock may pass midnight between the two reads
    if chrono::Local::now().format("%Y-%m-%d").to_string() == today {
        assert_eq!(ids(&got), vec![1]);
    }
}

#[test]
fn text_helpers() {
    assert_eq!(midnight_of("2024-03-01"), "2024-03-01 00:00:00");
    assert_eq!(date_part("2024-03-01 12:34:56"), "2024-03-01");
    assert_eq!(date_part("2024-03-01"), "2024-03-01");
    assert!(is_after("2024-03-02", "2024-03-01"));
    assert!(!is_after("2024-03-01", "2024-03-01"));
    assert!(is_after("2024-03-01 00:00:01", "2024-03-01"));
    assert!(!is_after("2024-02-29", "2024-03-01"));
}

#[test]
fn create_ignores_time_of_day_in_date() {
    let mut s = TimeStore::new();
    let t = s
        .create_task("Late".to_string(), "2024-03-01 15:30:00".to_string(), None)
        .unwrap();
    assert_eq!(t.created_at, "2024-03-01 00:00:00");
    let day = s.get_tasks_for_date("2024-03-01".to_string()).unwrap();
    assert_eq!(ids(&day), vec![t.id]);
}
