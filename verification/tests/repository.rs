use todox::model::TicketRaw;
use std::path::Path;
use todox::repository::{
    decode_ticket_text, first_parsed_index, index_ticket, ticket_or_blank, ticket_path_name,
    extension_of, has_extension, file_stem_of, find_root, group_entries, index_candidates, is_todo_dir_name, ticket_source,
    ticket_title, Conflict, DirEntryInfo, TicketFormat, TicketSource,
};

fn entry(name: &str, is_dir: bool) -> DirEntryInfo {
    DirEntryInfo {
        name: name.to_string(),
        is_dir,
    }
}

#[test]
fn find_root_prefers_dot_todo_then_todo() {
    assert_eq!(find_root(true, true), Some(".todo"));
    assert_eq!(find_root(false, true), Some("todo"));
    assert_eq!(find_root(true, false), Some(".todo"));
    assert_eq!(find_root(false, false), None);
}

#[test]
fn todo_dir_names() {
    assert!(is_todo_dir_name(".todo"));
    assert!(is_todo_dir_name("todo"));
    assert!(!is_todo_dir_name("Todo"));
    assert!(!is_todo_dir_name("todos"));
}

#[test]
fn formats_by_extension() {
    assert_eq!(TicketFormat::from_extension("toon"), Some(TicketFormat::Toon));
    assert_eq!(TicketFormat::from_extension("JSON"), Some(TicketFormat::Json));
    assert_eq!(TicketFormat::from_extension("ToOn"), Some(TicketFormat::Toon));
    assert_eq!(TicketFormat::from_extension("yaml"), None);
    assert_eq!(TicketFormat::from_path("a.TOON"), Some(TicketFormat::Toon));
    assert_eq!(TicketFormat::from_path("a.b.json"), Some(TicketFormat::Json));
    assert_eq!(TicketFormat::from_path(".json"), None);
    assert_eq!(TicketFormat::from_path("json"), None);
    assert_eq!(TicketFormat::from_path(".."), None);
}

#[test]
fn file_stems() {
    assert_eq!(file_stem_of("feature.toon"), "feature");
    assert_eq!(file_stem_of("a.b.json"), "a.b");
    assert_eq!(file_stem_of(".todo"), ".todo");
    assert_eq!(file_stem_of("plain"), "plain");
    assert_eq!(file_stem_of("a."), "a");
    for name in ["a.json", "a.b.toon", ".json", "json", "a.", ".a.b"] {
        let want = std::path::Path::new(name)
            .file_stem()
            .map(|e| e.to_string_lossy().into_owned())
            .unwrap_or_default();
        assert_eq!(file_stem_of(name), want, "name {name:?}");
    }
}

#[test]
fn titles_fall_back_to_name_then_stem() {
    let mut raw = TicketRaw::default();
    assert_eq!(ticket_title(&raw, "stem".to_string()), "stem");
    raw.name = Some("Name".to_string());
    assert_eq!(ticket_title(&raw, "stem".to_string()), "Name");
    raw.title = Some("Title".to_string());
    assert_eq!(ticket_title(&raw, "stem".to_string()), "Title");
}

#[test]
fn groups_merge_file_and_directory_children() {
    let (groups, conflicts) = group_entries(vec![
        entry("feature", true),
        entry("notes.txt", false),
        entry("feature.toon", false),
        entry("b.json", false),
    ]);
    assert!(conflicts.is_empty());
    assert_eq!(groups.len(), 2);
    assert_eq!(groups[0].key, "b");
    assert_eq!(groups[1].key, "feature");
    assert_eq!(
        groups[1].file.as_ref().map(|(n, f)| (n.as_str(), *f)),
        Some(("feature.toon", TicketFormat::Toon))
    );
    assert_eq!(groups[1].dir.as_deref(), Some("feature"));
    match ticket_source(&groups[1]) {
        TicketSource::File(n, f) => {
            assert_eq!(n, "feature.toon");
            assert_eq!(f, TicketFormat::Toon);
        }
        other => panic!("unexpected {other:?}"),
    }
}

#[test]
fn load_dir_prefers_toon_when_both_extensions_share_stem() {
    let (groups, conflicts) = group_entries(vec![
        entry("dup.json", false),
        entry("dup.toon", false),
    ]);
    assert_eq!(groups.len(), 1);
    assert_eq!(groups[0].file.as_ref().unwrap().0, "dup.toon");
    assert_eq!(conflicts.len(), 1);
    match &conflicts[0] {
        Conflict::Preferred { chosen, dropped } => {
            assert_eq!(chosen, "dup.toon");
            assert_eq!(dropped, "dup.json");
        }
        other => panic!("unexpected {other:?}"),
    }
    // input order does not matter: entries are taken in name order
    let (groups, conflicts) = group_entries(vec![
        entry("dup.toon", false),
        entry("dup.json", false),
    ]);
    assert_eq!(groups[0].file.as_ref().unwrap().0, "dup.toon");
    assert_eq!(conflicts.len(), 1);
}

#[test]
fn later_duplicates_are_ignored() {
    let (groups, conflicts) = group_entries(vec![
        entry("x.toon", false),
        entry("x.TOON", false),
    ]);
    assert_eq!(groups[0].file.as_ref().unwrap().0, "x.TOON");
    match &conflicts[0] {
        Conflict::Ignored { ignored, kept } => {
            assert_eq!(ignored, "x.toon");
            assert_eq!(kept, "x.TOON");
        }
        other => panic!("unexpected {other:?}"),
    }
}

#[test]
fn directory_only_ticket_reads_index() {
    let (groups, _) = group_entries(vec![entry("epic", true)]);
    match ticket_source(&groups[0]) {
        TicketSource::DirIndex(d) => assert_eq!(d, "epic"),
        other => panic!("unexpected {other:?}"),
    }
    let names: Vec<&str> = index_candidates().iter().map(|(n, _)| *n).collect();
    assert_eq!(names, vec!["index.toon", "index.json", "_.toon", "_.json"]);
}

#[test]
fn extensions_like_path_extension() {
    for name in ["a.json", "a.b.toon", ".json", "json", "a.", "..", "x.JSON", ".a.b"] {
        let want = Path::new(name).extension().map(|e| e.to_string_lossy().into_owned());
        assert_eq!(extension_of(name), want, "name {name:?}");
    }
    assert!(has_extension("a.json", "json"));
    assert!(!has_extension("a.JSON", "json"));
    assert!(!has_extension(".json", "json"));
}

fn titled(title: &str) -> TicketRaw {
    let mut raw = TicketRaw::default();
    raw.title = Some(title.to_string());
    raw
}

#[test]
fn parse_toon_is_resilient_on_invalid_input() {
    // The text decodes as a bare string, which is no ticket object: the
    // schema step finds nothing and the blank ticket stands in.
    let value = decode_ticket_text("not valid toon", TicketFormat::Toon).unwrap();
    assert!(!value.is_object());
    let raw = ticket_or_blank(None);
    assert!(raw.title.is_none());
    assert!(raw.description.is_empty());
    assert!(raw.sections.is_empty());
}

#[test]
fn parse_json_is_resilient_on_invalid_input() {
    let decoded = decode_ticket_text("not valid json", TicketFormat::Json);
    assert!(matches!(decoded, Err(todox::convert::ConvertError::InvalidJson(_))));
    let raw = ticket_or_blank(decoded.ok().map(|_| titled("unreachable")));
    assert!(raw.title.is_none());
    assert!(raw.sections.is_empty());
}

#[test]
fn parse_json_decodes_ticket_schema() {
    let value = decode_ticket_text(
        r#"{"title":"X","status":"todo","priority":"high","sections":[{"subtitle":"S","content":"hi"}]}"#,
        TicketFormat::Json,
    )
    .unwrap();
    assert_eq!(value["title"], "X");
    assert_eq!(value["status"], "todo");
    assert_eq!(value["priority"], "high");
    assert_eq!(value["sections"].as_array().unwrap().len(), 1);
    assert_eq!(value["sections"][0]["subtitle"], "S");
}

#[test]
fn decode_ticket_text_reads_toon() {
    let value = decode_ticket_text("title: Feature\nestimate: \"5m\"\n", TicketFormat::Toon).unwrap();
    assert_eq!(value["title"], "Feature");
    assert_eq!(value["estimate"], "5m");
}

#[test]
fn ticket_or_blank_keeps_a_parsed_ticket() {
    assert_eq!(ticket_or_blank(Some(titled("T"))).title.as_deref(), Some("T"));
}

#[test]
fn read_directory_index_picks_up_json_index() {
    // Candidates in order: index.toon, index.json, _.toon, _.json.
    assert_eq!(index_candidates()[1].0, "index.json");
    let results = vec![None, Some(titled("Indexed")), None, None];
    assert_eq!(first_parsed_index(&results), Some(1));
    let raw = index_ticket(results);
    assert_eq!(raw.title.as_deref(), Some("Indexed"));
}

#[test]
fn directory_index_prefers_earlier_candidates_else_blank() {
    let results = vec![None, Some(titled("A")), Some(titled("B")), None];
    assert_eq!(index_ticket(results).title.as_deref(), Some("A"));
    let none: Vec<Option<TicketRaw>> = vec![None, None, None, None];
    assert_eq!(first_parsed_index(&none), None);
    assert!(index_ticket(none).title.is_none());
}

#[test]
fn ticket_keys_are_directories_and_ticket_stems_in_order() {
    let (groups, _) = group_entries(vec![
        entry("b.toon", false),
        entry("notes.txt", false),
        entry("a", true),
        entry("c.JSON", false),
        entry("a.json", false),
    ]);
    let keys: Vec<&str> = groups.iter().map(|g| g.key.as_str()).collect();
    assert_eq!(keys, vec!["a", "b", "c"]);
}

#[test]
fn ticket_path_prefers_file_then_directory() {
    let (groups, _) = group_entries(vec![
        entry("a", true),
        entry("a.toon", false),
        entry("b", true),
        entry("c.json", false),
    ]);
    let names: Vec<Option<String>> = groups.iter().map(ticket_path_name).collect();
    assert_eq!(
        names,
        vec![
            Some("a.toon".to_string()),
            Some("b".to_string()),
            Some("c.json".to_string())
        ]
    );
}

#[test]
fn child_directory_is_the_one_named_like_the_ticket() {
    let (groups, _) = group_entries(vec![
        entry("feature.toon", false),
        entry("feature", true),
        entry("other.json", false),
        entry("x.txt", true),
    ]);
    let dirs: Vec<(&str, Option<&str>)> = groups
        .iter()
        .map(|g| (g.key.as_str(), g.dir.as_deref()))
        .collect();
    assert_eq!(
        dirs,
        vec![("feature", Some("feature")), ("other", None), ("x.txt", Some("x.txt"))]
    );
}
