use std::path::PathBuf;
use todox::app::App;
use todox::model::{JsonField, Section, SectionContent, SectionItem, Ticket, TicketRaw};
use todox::ui::{
    breadcrumbs, draw_detail, is_done, priority_color, render_section, section_check_item,
    status_glyph, ticket_list_item, DetailLine, MetaKind, SectionLine, Tone,
};

fn ticket(title: &str) -> Ticket {
    Ticket {
        title: title.to_string(),
        path: PathBuf::from(title),
        raw: TicketRaw::default(),
        children: vec![],
    }
}

#[test]
fn status_glyphs_ignore_case() {
    assert_eq!(status_glyph("Done"), ("●", Tone::Green));
    assert_eq!(status_glyph("IN-PROGRESS"), ("◐", Tone::Yellow));
    assert_eq!(status_glyph("blocked"), ("⊘", Tone::Red));
    assert_eq!(status_glyph("in_review"), ("◑", Tone::Magenta));
    assert_eq!(status_glyph(""), ("○", Tone::Gray));
    assert_eq!(status_glyph("whatever"), ("◇", Tone::Cyan));
    assert!(is_done("Closed"));
    assert!(!is_done("open"));
}

#[test]
fn priority_tones() {
    assert_eq!(priority_color("P0"), Tone::Red);
    assert_eq!(priority_color("High"), Tone::LightRed);
    assert_eq!(priority_color("med"), Tone::Yellow);
    assert_eq!(priority_color("low"), Tone::Blue);
    assert_eq!(priority_color("?"), Tone::DarkGray);
}

fn text_of(l: &SectionLine) -> String {
    match l {
        SectionLine::Text(t) => t.clone(),
        SectionLine::Bullet { number, text } => format!("{number:?} {text}"),
        SectionLine::Check { checked, text } => format!("{checked} {text}"),
    }
}

#[test]
fn sections_render_text_lists_and_checks() {
    let mut out = Vec::new();
    render_section(
        &mut out,
        &Section {
            subtitle: String::new(),
            kind: None,
            content: SectionContent::Text("one\ntwo\n".to_string()),
        },
    );
    render_section(
        &mut out,
        &Section {
            subtitle: String::new(),
            kind: Some("Numbered".to_string()),
            content: SectionContent::Items(vec![
                SectionItem::Text("first".to_string()),
                SectionItem::Other,
                SectionItem::Text("third".to_string()),
                SectionItem::Object(vec![
                    ("done".to_string(), JsonField::Bool(true)),
                    ("title".to_string(), JsonField::Text("task".to_string())),
                ]),
            ]),
        },
    );
    let got: Vec<String> = out.iter().map(text_of).collect();
    assert_eq!(
        got,
        vec!["  one", "  two", "Some(1) first", "Some(3) third", "true task"]
    );
}

#[test]
fn check_item_reads_checked_before_done() {
    let item = section_check_item(&vec![
        ("checked".to_string(), JsonField::Text("yes".to_string())),
        ("done".to_string(), JsonField::Bool(true)),
        ("text".to_string(), JsonField::Other),
        ("title".to_string(), JsonField::Text("t".to_string())),
    ]);
    assert_eq!(text_of(&item), "false ");
}

#[test]
fn list_entry_shows_set_fields() {
    let mut t = ticket("T");
    t.raw.status = "done".to_string();
    t.raw.priority = "high".to_string();
    t.children.push(ticket("c"));
    let e = ticket_list_item(&t);
    assert_eq!(e.glyph, "●");
    assert!(e.done);
    assert_eq!(e.priority, Some(("high".to_string(), Tone::LightRed)));
    assert_eq!(e.estimate, None);
    assert_eq!(e.children, Some(1));
}

#[test]
fn detail_lines_follow_ticket() {
    let mut t = ticket("T");
    t.raw.estimate = "2d".to_string();
    t.raw.description = "line a\nline b".to_string();
    t.raw.sections.push(Section {
        subtitle: "Tasks".to_string(),
        kind: None,
        content: SectionContent::Items(vec![SectionItem::Text("x".to_string())]),
    });
    t.children.push(ticket("c"));
    let lines = draw_detail(&t);
    let kinds: Vec<String> = lines
        .iter()
        .map(|l| match l {
            DetailLine::Heading { title, .. } => format!("heading {title}"),
            DetailLine::Meta(fields) => {
                assert_eq!(fields.len(), 1);
                assert_eq!(fields[0].kind, MetaKind::Estimate);
                format!("meta {}", fields[0].value)
            }
            DetailLine::Blank => "blank".to_string(),
            DetailLine::Description(d) => format!("desc {d}"),
            DetailLine::Subtitle(s) => format!("sub {s}"),
            DetailLine::Section(s) => format!("sec {}", text_of(s)),
            DetailLine::ChildrenHint(n) => format!("children {n}"),
        })
        .collect();
    assert_eq!(
        kinds,
        vec![
            "heading T",
            "meta 2d",
            "blank",
            "desc line a",
            "desc line b",
            "blank",
            "sub Tasks",
            "sec None x",
            "blank",
            "children 1"
        ]
    );
}

#[test]
fn breadcrumbs_follow_stack_and_detail() {
    let mut root = ticket("R");
    root.children.push(ticket("kid"));
    let mut app = App::new(vec![root]);
    assert_eq!(breadcrumbs(&app), vec!["todo"]);
    app.enter();
    assert_eq!(breadcrumbs(&app), vec!["todo", "R"]);
    app.enter();
    assert_eq!(breadcrumbs(&app), vec!["todo", "R"]);
    app.enter();
    assert_eq!(breadcrumbs(&app), vec!["todo", "R", "kid"]);
}

#[test]
fn raw_emptiness_and_children() {
    let mut t = ticket("T");
    assert!(t.raw_is_empty());
    assert!(!t.has_children());
    t.raw.description = "d".to_string();
    assert!(!t.raw_is_empty());
    t.raw.description.clear();
    t.raw.sections.push(Section {
        subtitle: String::new(),
        kind: None,
        content: SectionContent::Other,
    });
    assert!(!t.raw_is_empty());
    t.children.push(ticket("c"));
    assert!(t.has_children());
}
