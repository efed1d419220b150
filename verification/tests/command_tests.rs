use doem::codec::encode_tasks;
use doem::command::{apply, Action, Command};
use doem::task::{Task, Urgency};

fn task(title: &str, content: &str, urgency: Urgency) -> Task {
    Task::new(title.to_string(), content.to_string(), urgency)
}

fn add_command(title: &str, content: &str, urgency: &str) -> Option<Command> {
    Command::add(title.to_string(), content.to_string(), urgency.to_string())
}

fn saved(action: Action) -> Vec<Task> {
    match action {
        Action::Save(ts) => ts,
        _ => panic!("expected a save"),
    }
}

#[test]
fn add_accepts_lowercase_tokens() {
    for (token, urgency) in [
        ("l", Urgency::Low),
        ("low", Urgency::Low),
        ("m", Urgency::Medium),
        ("medium", Urgency::Medium),
        ("h", Urgency::High),
        ("high", Urgency::High),
    ] {
        let cmd = add_command("t", "c", token).expect("token must be accepted");
        let ts = saved(apply(cmd, vec![]));
        assert_eq!(ts.len(), 1);
        assert_eq!(ts[0].urgency, urgency);
    }
}

#[test]
fn add_rejects_other_tokens() {
    for token in ["L", "Low", "LOW", "M", "H", "High", "urgent", "", "lo", " l"] {
        assert!(add_command("t", "c", token).is_none(), "token {:?} must be rejected", token);
    }
}

#[test]
fn add_then_list_shows_new_task_last() {
    let existing = vec![task("a", "1", Urgency::Low), task("b", "2", Urgency::Medium)];
    let cmd = add_command("c", "3", "h").unwrap();
    let ts = saved(apply(cmd, existing));
    assert_eq!(ts.len(), 3);
    assert_eq!(ts[0].title, "a");
    assert_eq!(ts[1].title, "b");
    assert_eq!(ts[2].title, "c");
    assert_eq!(ts[2].urgency, Urgency::High);
    match apply(Command::list(), ts) {
        Action::Render(shown) => {
            assert_eq!(shown.len(), 3);
            assert_eq!(shown[2].title, "c");
        },
        _ => panic!("list must render"),
    }
}

#[test]
fn remove_takes_only_the_first_match() {
    let ts = vec![
        task("dup", "first", Urgency::Low),
        task("keep", "middle", Urgency::Medium),
        task("dup", "second", Urgency::High),
    ];
    let left = saved(apply(Command::remove("dup".to_string()), ts));
    assert_eq!(left.len(), 2);
    assert_eq!(left[0].title, "keep");
    assert_eq!(left[1].title, "dup");
    assert_eq!(left[1].content, "second");
}

#[test]
fn remove_missing_title_reports_and_keeps_bytes() {
    let ts = vec![task("a", "1", Urgency::Low), task("b", "2", Urgency::High)];
    let before = encode_tasks(&ts);
    match apply(Command::remove("absent".to_string()), ts) {
        Action::NotFound(title) => assert_eq!(title, "absent"),
        _ => panic!("a miss must be reported, not saved"),
    }
    // Nothing was saved, so the persisted text would be re-read unchanged.
    let reread = doem::codec::decode_tasks(&before).unwrap();
    assert_eq!(encode_tasks(&reread), before);
}

#[test]
fn list_renders_all_tasks_unchanged() {
    let ts = vec![task("a", "1", Urgency::Low), task("b", "2", Urgency::High)];
    match apply(Command::list(), ts) {
        Action::Render(shown) => {
            assert_eq!(shown.len(), 2);
            assert_eq!(shown[0].title, "a");
            assert_eq!(shown[1].title, "b");
        },
        _ => panic!("list must render"),
    }
}

#[test]
fn list_of_empty_store_renders_nothing() {
    let ts = doem::codec::decode_tasks("").unwrap();
    match apply(Command::list(), ts) {
        Action::Render(shown) => assert_eq!(shown.len(), 0),
        _ => panic!("list must render"),
    }
}
