use std::path::PathBuf;
use todox::app::{Action, App, Key};
use todox::model::{Ticket, TicketRaw};

fn ticket(title: &str, children: Vec<Ticket>) -> Ticket {
    Ticket {
        title: title.to_string(),
        path: PathBuf::from(title),
        raw: TicketRaw::default(),
        children,
    }
}

fn tree() -> Vec<Ticket> {
    vec![
        ticket("A", vec![]),
        ticket("B", vec![ticket("B1", vec![]), ticket("B2", vec![])]),
        ticket("C", vec![]),
    ]
}

fn sel(app: &App) -> Option<usize> {
    app.cur().selected
}

fn labels(app: &App) -> Vec<String> {
    app.stack.iter().map(|l| l.label.clone()).collect()
}

#[test]
fn new_selects_first_ticket() {
    let app = App::new(tree());
    assert_eq!(sel(&app), Some(0));
    assert_eq!(labels(&app), vec!["todo"]);
    assert!(!app.detail);
    let empty = App::new(vec![]);
    assert_eq!(sel(&empty), None);
    assert!(empty.selected().is_none());
}

#[test]
fn move_wraps_around() {
    let mut app = App::new(tree());
    app.move_sel(-1);
    assert_eq!(sel(&app), Some(2));
    app.move_sel(1);
    assert_eq!(sel(&app), Some(0));
    app.move_sel(7);
    assert_eq!(sel(&app), Some(1));
    app.move_sel(-7);
    assert_eq!(sel(&app), Some(0));
    app.move_sel(i32::MIN);
    // -2147483648 mod 3 == 1
    assert_eq!(sel(&app), Some(1));
    app.move_sel(i32::MAX);
    // 1 + 2147483647 = 2147483648, mod 3 == 2
    assert_eq!(sel(&app), Some(2));
}

#[test]
fn enter_opens_detail_then_children_and_back_returns() {
    let mut app = App::new(tree());
    app.move_sel(1);
    app.enter();
    assert!(app.detail);
    assert_eq!(app.selected().unwrap().title, "B");
    app.enter();
    assert!(!app.detail);
    assert_eq!(labels(&app), vec!["todo", "B"]);
    assert_eq!(app.selected().unwrap().title, "B1");
    assert_eq!(app.cur_tickets().len(), 2);
    app.back();
    assert_eq!(labels(&app), vec!["todo"]);
    assert_eq!(app.selected().unwrap().title, "B");
    app.back();
    assert_eq!(labels(&app), vec!["todo"]);
}

#[test]
fn enter_on_leaf_detail_stays() {
    let mut app = App::new(tree());
    app.enter();
    app.enter();
    assert!(app.detail);
    assert_eq!(labels(&app), vec!["todo"]);
    app.back();
    assert!(!app.detail);
}

#[test]
fn keys_drive_navigation() {
    let mut app = App::new(tree());
    assert_eq!(app.handle_key(Key::Char('j')), Action::Continue);
    assert_eq!(sel(&app), Some(1));
    assert_eq!(app.handle_key(Key::Up), Action::Continue);
    assert_eq!(sel(&app), Some(0));
    assert_eq!(app.handle_key(Key::Char('r')), Action::Reload);
    assert_eq!(app.handle_key(Key::Enter), Action::Continue);
    assert!(app.detail);
    assert_eq!(app.handle_key(Key::Char('q')), Action::Continue);
    assert!(!app.detail);
    assert_eq!(app.handle_key(Key::Esc), Action::Quit);
    assert_eq!(app.handle_key(Key::Char('Q')), Action::Quit);
    assert_eq!(app.handle_key(Key::Other), Action::Continue);
}

#[test]
fn reload_keeps_place_by_title() {
    let mut app = App::new(tree());
    app.move_sel(1);
    app.enter();
    app.enter();
    app.move_sel(1);
    assert_eq!(app.snapshot(), vec!["B", "B2"]);
    app.reload(tree());
    assert_eq!(labels(&app), vec!["todo", "B"]);
    assert_eq!(app.selected().unwrap().title, "B2");
    // a tree without B falls back to the root list
    app.reload(vec![ticket("A", vec![]), ticket("C", vec![])]);
    assert_eq!(labels(&app), vec!["todo"]);
    assert_eq!(sel(&app), Some(0));
}

#[test]
fn reload_keeps_detail_flag() {
    let mut app = App::new(tree());
    app.move_sel(2);
    app.enter();
    app.reload(vec![ticket("X", vec![]), ticket("C", vec![])]);
    assert!(app.detail);
    assert_eq!(app.selected().unwrap().title, "C");
}
