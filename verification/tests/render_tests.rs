use doem::codec::{decode_tasks, encode_tasks};
use doem::command::{apply, Action, Command};
use doem::render::{render_task, TermColor};
use doem::task::{Task, Urgency};

#[test]
fn urgency_maps_to_its_color() {
    let low = Task::new("t".to_string(), "c".to_string(), Urgency::Low);
    let medium = Task::new("t".to_string(), "c".to_string(), Urgency::Medium);
    let high = Task::new("t".to_string(), "c".to_string(), Urgency::High);
    assert_eq!(render_task(&low).color, TermColor::Green);
    assert_eq!(render_task(&medium).color, TermColor::Yellow);
    assert_eq!(render_task(&high).color, TermColor::Red);
}

#[test]
fn rendered_segments_are_exact() {
    let t = Task::new("Buy milk".to_string(), "2 liters".to_string(), Urgency::Low);
    let r = render_task(&t);
    assert_eq!(r.indent, "  ");
    assert_eq!(r.styled, "[Buy milk]");
    assert_eq!(r.rest, " 2 liters\r\n");
}

#[test]
fn scenario_list_then_remove() {
    let text = "Low|Buy milk: 2 liters\nHigh|Pay rent: due Friday";
    let ts = decode_tasks(text).expect("the file decodes");
    assert_eq!(ts.len(), 2);

    let shown = match apply(Command::list(), ts) {
        Action::Render(shown) => shown,
        _ => panic!("list must render"),
    };
    let first = render_task(&shown[0]);
    assert_eq!(first.color, TermColor::Green);
    assert_eq!(first.styled, "[Buy milk]");
    assert_eq!(first.rest, " 2 liters\r\n");
    let second = render_task(&shown[1]);
    assert_eq!(second.color, TermColor::Red);
    assert_eq!(second.styled, "[Pay rent]");
    assert_eq!(second.rest, " due Friday\r\n");

    let left = match apply(Command::remove("Buy milk".to_string()), shown) {
        Action::Save(left) => left,
        _ => panic!("the removal must save"),
    };
    assert_eq!(encode_tasks(&left), "High|Pay rent: due Friday");
    let reloaded = decode_tasks(&encode_tasks(&left)).unwrap();
    assert_eq!(reloaded.len(), 1);
    assert_eq!(reloaded[0].title, "Pay rent");
}
