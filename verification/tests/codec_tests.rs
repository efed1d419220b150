use doem::codec::{decode_task, decode_tasks, encode_task, encode_tasks, DecodeReason};
use doem::task::{Task, Urgency};

fn task(title: &str, content: &str, urgency: Urgency) -> Task {
    Task::new(title.to_string(), content.to_string(), urgency)
}

#[test]
fn encode_task_exact() {
    let line = encode_task(&task("t", "c", Urgency::Low));
    assert_eq!(line, "Low|t: c");
    let line = encode_task(&task("Pay rent", "due Friday", Urgency::High));
    assert_eq!(line, "High|Pay rent: due Friday");
    let line = encode_task(&task("stretch", "legs", Urgency::Medium));
    assert_eq!(line, "Medium|stretch: legs");
}

#[test]
fn encode_tasks_joins_with_newline() {
    let ts = vec![task("a", "b", Urgency::Low), task("c", "d", Urgency::High)];
    assert_eq!(encode_tasks(&ts), "Low|a: b\nHigh|c: d");
    assert_eq!(encode_tasks(&vec![]), "");
}

#[test]
fn round_trip_two_tasks() {
    let ts = vec![
        task("Buy milk", "2 liters", Urgency::Low),
        task("Pay rent", "due Friday", Urgency::High),
    ];
    let text = encode_tasks(&ts);
    let back = decode_tasks(&text).expect("canonical text must decode");
    assert_eq!(back.len(), 2);
    for (a, b) in ts.iter().zip(back.iter()) {
        assert_eq!(a.title, b.title);
        assert_eq!(a.content, b.content);
        assert_eq!(a.urgency, b.urgency);
    }
}

#[test]
fn empty_text_decodes_to_empty_list() {
    let ts = decode_tasks("").expect("empty text is an empty list");
    assert_eq!(ts.len(), 0);
}

#[test]
fn first_bar_and_first_colon_space_split() {
    let t = decode_task("Low|a|b: c: d").expect("line decodes");
    assert_eq!(t.title, "a|b");
    assert_eq!(t.content, "c: d");
    assert_eq!(t.urgency, Urgency::Low);
}

#[test]
fn missing_bar_is_reported() {
    let e = decode_tasks("no separators here").unwrap_err();
    assert_eq!(e.line, 0);
    assert_eq!(e.reason, DecodeReason::MissingBar);
}

#[test]
fn missing_title_separator_is_reported() {
    let e = decode_tasks("Low|only a title").unwrap_err();
    assert_eq!(e.line, 0);
    assert_eq!(e.reason, DecodeReason::MissingTitleSep);
}

#[test]
fn bad_urgency_is_reported() {
    let e = decode_tasks("Urgent|t: c").unwrap_err();
    assert_eq!(e.line, 0);
    assert_eq!(e.reason, DecodeReason::BadUrgency);
}

#[test]
fn decode_urgency_is_case_sensitive() {
    let e = decode_tasks("low|t: c").unwrap_err();
    assert_eq!(e.reason, DecodeReason::BadUrgency);
    assert_eq!(Urgency::decode("Low"), Some(Urgency::Low));
    assert_eq!(Urgency::decode("Medium"), Some(Urgency::Medium));
    assert_eq!(Urgency::decode("High"), Some(Urgency::High));
    assert_eq!(Urgency::decode("low"), None);
    assert_eq!(Urgency::decode("LOW"), None);
    assert_eq!(Urgency::decode("Hi"), None);
}

#[test]
fn error_names_the_first_bad_line() {
    let e = decode_tasks("Low|a: b\nnope\nHigh|c: d").unwrap_err();
    assert_eq!(e.line, 1);
    assert_eq!(e.reason, DecodeReason::MissingBar);
}

#[test]
fn urgency_encodes_to_canonical_words() {
    assert_eq!(Urgency::Low.encode(), "Low");
    assert_eq!(Urgency::Medium.encode(), "Medium");
    assert_eq!(Urgency::High.encode(), "High");
}

#[test]
fn trailing_carriage_return_is_stripped() {
    let ts = decode_tasks("Low|a: b\r\nHigh|c: d").expect("text decodes");
    assert_eq!(ts.len(), 2);
    assert_eq!(ts[0].content, "b");
    assert_eq!(ts[1].content, "d");
}

#[test]
fn trailing_newline_opens_no_extra_line() {
    let ts = decode_tasks("Low|a: b\n").expect("text decodes");
    assert_eq!(ts.len(), 1);
    assert_eq!(ts[0].title, "a");
}
