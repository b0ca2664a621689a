use desktop_find::schedule::{
    check_create_input, create_schedule, delete_schedule, generate_id, list_schedules,
    normalize_status, schedule_id_from_millis, schedule_id_from_reading, toggle_schedule_done, update_schedule,
    validate_required, CreateScheduleInput, ScheduleItem, UpdateScheduleInput,
};

fn entry(id: &str, title: &str, date: &str, start: &str) -> ScheduleItem {
    ScheduleItem {
        id: id.to_string(),
        title: title.to_string(),
        date: date.to_string(),
        start_time: start.to_string(),
        end_time: String::new(),
        status: "todo".to_string(),
        note: String::new(),
    }
}

fn ids(items: &[ScheduleItem]) -> Vec<&str> {
    items.iter().map(|i| i.id.as_str()).collect()
}

#[test]
fn normalize_status_rejects_unknown_status() {
    assert_eq!(normalize_status("done"), "done");
    assert_eq!(normalize_status("anything"), "todo");
}

#[test]
fn validate_required_rejects_empty_title() {
    assert!(validate_required("", "标题").is_err());
    assert!(validate_required("写代码", "标题").is_ok());
}

#[test]
fn validate_required_names_the_field() {
    assert_eq!(validate_required(" \t\u{3000}", "标题"), Err("标题不能为空".to_string()));
    assert_eq!(validate_required("\n", "日期"), Err("日期不能为空".to_string()));
    assert_eq!(validate_required(" x ", "日期"), Ok(()));
    assert_eq!(normalize_status("Done"), "todo");
    assert_eq!(normalize_status(""), "todo");
}

#[test]
fn ids_are_prefixed_millisecond_counts() {
    assert_eq!(schedule_id_from_millis(0), "schedule-0");
    assert_eq!(schedule_id_from_millis(1234), "schedule-1234");
    assert_eq!(schedule_id_from_millis(1_700_000_000_123), "schedule-1700000000123");
    assert_eq!(
        schedule_id_from_millis(u128::MAX),
        format!("schedule-{}", u128::MAX)
    );
    let id = generate_id();
    let digits = id.strip_prefix("schedule-").unwrap();
    assert!(!digits.is_empty());
    assert!(digits.chars().all(|c| c.is_ascii_digit()));
    assert!(digits.parse::<u128>().unwrap() > 1_600_000_000_000);
}

#[test]
fn create_trims_title_and_appends() {
    let mut list = vec![entry("s1", "a", "2024-05-01", "09:00")];
    let input = CreateScheduleInput {
        title: "  写代码 \u{3000}".to_string(),
        date: "2024-05-02".to_string(),
        start_time: "10:00".to_string(),
        end_time: "11:00".to_string(),
        note: None,
    };
    let item = create_schedule(&mut list, input).unwrap();
    assert_eq!(item.title, "写代码");
    assert_eq!(item.status, "todo");
    assert_eq!(item.note, "");
    assert_eq!(item.date, "2024-05-02");
    assert!(item.id.starts_with("schedule-"));
    assert_eq!(list.len(), 2);
    assert_eq!(list[1], item);
}

#[test]
fn create_checks_title_before_date() {
    let mut list = Vec::new();
    let input = CreateScheduleInput {
        title: " ".to_string(),
        date: String::new(),
        start_time: String::new(),
        end_time: String::new(),
        note: Some("n".to_string()),
    };
    assert_eq!(check_create_input(&input), Err("标题不能为空".to_string()));
    assert_eq!(create_schedule(&mut list, input), Err("标题不能为空".to_string()));
    let input = CreateScheduleInput {
        title: "t".to_string(),
        date: " ".to_string(),
        start_time: String::new(),
        end_time: String::new(),
        note: Some("n".to_string()),
    };
    assert_eq!(create_schedule(&mut list, input), Err("日期不能为空".to_string()));
    assert!(list.is_empty());
}

#[test]
fn update_rewrites_first_item_with_id() {
    let mut list = vec![entry("a", "one", "d1", "08"), entry("b", "two", "d1", "09"), entry("b", "three", "d2", "10")];
    let input = UpdateScheduleInput {
        id: "b".to_string(),
        title: " new ".to_string(),
        date: "d3".to_string(),
        start_time: "07".to_string(),
        end_time: "08".to_string(),
        status: "finished".to_string(),
        note: "memo".to_string(),
    };
    let updated = update_schedule(&mut list, input).unwrap();
    assert_eq!(updated.title, "new");
    assert_eq!(updated.status, "todo");
    assert_eq!(list[1], updated);
    assert_eq!(list[2].title, "three");
    assert_eq!(list[0].title, "one");
}

#[test]
fn update_reports_missing_or_blank_fields() {
    let mut list = vec![entry("a", "one", "d1", "08")];
    let mut input = UpdateScheduleInput {
        id: "zz".to_string(),
        title: "t".to_string(),
        date: "d".to_string(),
        start_time: String::new(),
        end_time: String::new(),
        status: "done".to_string(),
        note: String::new(),
    };
    assert_eq!(update_schedule(&mut list, input.clone()), Err("未找到日程：zz".to_string()));
    input.id = " ".to_string();
    assert_eq!(update_schedule(&mut list, input.clone()), Err("ID不能为空".to_string()));
    input.id = "a".to_string();
    input.date = String::new();
    assert_eq!(update_schedule(&mut list, input), Err("日期不能为空".to_string()));
    assert_eq!(list[0].title, "one");
}

#[test]
fn delete_removes_every_item_with_id() {
    let mut list = vec![entry("a", "1", "d", "1"), entry("b", "2", "d", "2"), entry("a", "3", "d", "3")];
    assert_eq!(delete_schedule(&mut list, "a"), Ok(()));
    assert_eq!(ids(&list), vec!["b"]);
    assert_eq!(delete_schedule(&mut list, "a"), Err("未找到日程：a".to_string()));
    assert_eq!(delete_schedule(&mut list, ""), Err("ID不能为空".to_string()));
    assert_eq!(ids(&list), vec!["b"]);
}

#[test]
fn toggle_twice_restores_status() {
    let mut list = vec![entry("a", "1", "d", "1"), entry("b", "2", "d", "2")];
    let first = toggle_schedule_done(&mut list, "b").unwrap();
    assert_eq!(first.status, "done");
    assert_eq!(list[1].status, "done");
    let second = toggle_schedule_done(&mut list, "b").unwrap();
    assert_eq!(second.status, "todo");
    assert_eq!(list, vec![entry("a", "1", "d", "1"), entry("b", "2", "d", "2")]);
    list[0].status = "later".to_string();
    assert_eq!(toggle_schedule_done(&mut list, "a").unwrap().status, "done");
    assert_eq!(toggle_schedule_done(&mut list, "c"), Err("未找到日程：c".to_string()));
}

#[test]
fn list_filters_by_date_and_sorts_stably() {
    let list = vec![
        entry("1", "b", "2024-05-02", "09:00"),
        entry("2", "a", "2024-05-01", "10:00"),
        entry("3", "a", "2024-05-02", "09:00"),
        entry("4", "z", "2024-05-02", "08:00"),
        entry("5", "a", "2024-05-02", "09:00"),
    ];
    let day = list_schedules(list.clone(), Some("2024-05-02".to_string()));
    assert_eq!(ids(&day), vec!["4", "3", "5", "1"]);
    let all = list_schedules(list, None);
    assert_eq!(ids(&all), vec!["2", "4", "3", "5", "1"]);
    assert!(list_schedules(Vec::new(), Some("x".to_string())).is_empty());
}

#[test]
fn updating_twice_equals_updating_once() {
    let mut list = vec![entry("a", "one", "d1", "08"), entry("b", "two", "d1", "09")];
    let input = UpdateScheduleInput {
        id: "a".to_string(),
        title: "\tx\u{3000}".to_string(),
        date: "d2".to_string(),
        start_time: "1".to_string(),
        end_time: "2".to_string(),
        status: "done".to_string(),
        note: "n".to_string(),
    };
    update_schedule(&mut list, input.clone()).unwrap();
    let once = list.clone();
    update_schedule(&mut list, input).unwrap();
    assert_eq!(list, once);
    assert_eq!(list[0].title, "x");
    assert_eq!(list[0].status, "done");
    assert_eq!(normalize_status(&normalize_status("whatever")), normalize_status("whatever"));
    assert_eq!(normalize_status(&normalize_status("done")), "done");
}

#[test]
fn clock_reading_before_epoch_counts_as_zero() {
    assert_eq!(schedule_id_from_reading(None), "schedule-0");
    assert_eq!(schedule_id_from_reading(Some(42)), "schedule-42");
}

#[test]
fn created_item_is_listed_on_its_date() {
    let mut list = vec![entry("s1", "a", "2024-05-01", "09:00")];
    let input = CreateScheduleInput {
        title: "新".to_string(),
        date: "2024-05-01".to_string(),
        start_time: "08:00".to_string(),
        end_time: String::new(),
        note: None,
    };
    let item = create_schedule(&mut list, input).unwrap();
    assert!(list_schedules(list.clone(), Some(item.date.clone())).contains(&item));
    assert!(list_schedules(list, None).contains(&item));
}
