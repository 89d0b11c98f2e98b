use todox::text::chars_of;
use todox::toon_patch::{
    cell_needs_quoting, is_key_char, maybe_quote_scalar_line, needs_string_quoting,
    parse_tabular_header, patch_inline_array, quote_cell_if_unsafe, quote_digit_prefix_scalars,
    quote_tabular_row, split_csv_cells,
};

fn s(v: &[char]) -> String {
    v.iter().collect()
}

#[test]
fn quote_digit_prefix_patches_estimate_value() {
    let raw = "title: t\nestimate: 5m\nstatus: todo\n";
    let patched = quote_digit_prefix_scalars(raw);
    assert!(patched.contains("estimate: \"5m\""), "patched: {patched}");
    assert!(patched.contains("title: t"));
}

#[test]
fn quote_digit_prefix_leaves_pure_numbers_alone() {
    let raw = "count: 42\nratio: 1.5\n";
    let patched = quote_digit_prefix_scalars(raw);
    assert_eq!(patched, raw);
}

#[test]
fn quote_digit_prefix_skips_array_headers() {
    let raw = "items[3]:\n  - one\n  - two\n  - three\n";
    let patched = quote_digit_prefix_scalars(raw);
    assert_eq!(patched, raw);
}

#[test]
fn quote_unsafe_tabular_cells() {
    let raw = "rows[2]{a,b}:\n  1,Long titles may wrap badly\n  2,short\n";
    let patched = quote_digit_prefix_scalars(raw);
    assert!(
        patched.contains("\"Long titles may wrap badly\""),
        "patched: {patched}"
    );
    assert!(patched.contains("2,short"));
    let decoded = toon_format::decode(&patched, &toon_format::DecodeOptions::default()).unwrap();
    assert_eq!(decoded["rows"][0]["b"], "Long titles may wrap badly");
}

#[test]
fn quote_unsafe_inline_array_cells() {
    let raw = "items[2]: Long titles may wrap badly,short\n";
    let patched = quote_digit_prefix_scalars(raw);
    assert!(patched.contains("\"Long titles may wrap badly\""));
    let decoded = toon_format::decode(&patched, &toon_format::DecodeOptions::default()).unwrap();
    assert_eq!(decoded["items"][0], "Long titles may wrap badly");
    assert_eq!(decoded["items"][1], "short");
}

#[test]
fn patch_keeps_missing_final_newline() {
    assert_eq!(quote_digit_prefix_scalars("a: 2d"), "a: \"2d\"");
    assert_eq!(quote_digit_prefix_scalars(""), "");
}

#[test]
fn patch_normalizes_crlf_line_ends() {
    assert_eq!(quote_digit_prefix_scalars("a: 1\r\nb: 2\r\n"), "a: 1\nb: 2\n");
}

#[test]
fn tabular_block_covers_exactly_its_rows() {
    let raw = "rows[1]{a}:\n  x y\nafter: 3h\n";
    assert_eq!(
        quote_digit_prefix_scalars(raw),
        "rows[1]{a}:\n  \"x y\"\nafter: \"3h\"\n"
    );
}

#[test]
fn needs_string_quoting_examples() {
    assert!(needs_string_quoting(&chars_of("5m")));
    assert!(needs_string_quoting(&chars_of("1.5h")));
    assert!(!needs_string_quoting(&chars_of("42")));
    assert!(!needs_string_quoting(&chars_of("1.5")));
    assert!(!needs_string_quoting(&chars_of("1.2.3a")));
    assert!(!needs_string_quoting(&chars_of("m5")));
    assert!(!needs_string_quoting(&chars_of("5 m")));
    assert!(!needs_string_quoting(&chars_of("")));
    assert!(needs_string_quoting(&chars_of("5m ago")));
    assert!(needs_string_quoting(&chars_of("2d-ish")));
    assert!(!needs_string_quoting(&chars_of("2024-01-01")));
}

#[test]
fn cell_needs_quoting_examples() {
    assert!(cell_needs_quoting(&chars_of("a b")));
    assert!(cell_needs_quoting(&chars_of("a\tb")));
    assert!(cell_needs_quoting(&chars_of("a--b")));
    assert!(cell_needs_quoting(&chars_of("a:b")));
    assert!(cell_needs_quoting(&chars_of("2d")));
    assert!(!cell_needs_quoting(&chars_of("a-b")));
    assert!(!cell_needs_quoting(&chars_of("short")));
}

#[test]
fn quote_cell_escapes_and_is_idempotent() {
    let q = quote_cell_if_unsafe(&chars_of(" say \"hi\" \\o/ "));
    assert_eq!(s(&q), "\"say \\\"hi\\\" \\\\o/\"");
    assert_eq!(s(&quote_cell_if_unsafe(&q)), s(&q));
    assert_eq!(s(&quote_cell_if_unsafe(&chars_of(" plain "))), " plain ");
    assert_eq!(s(&quote_cell_if_unsafe(&chars_of("\"a b\""))), "\"a b\"");
}

#[test]
fn split_csv_cells_respects_quotes() {
    let cells = split_csv_cells(&chars_of("a,\"b,c\",\"d\\\",e\",,f"));
    let cells: Vec<String> = cells.iter().map(|c| s(c)).collect();
    assert_eq!(cells, vec!["a", "\"b,c\"", "\"d\\\",e\"", "", "f"]);
    assert_eq!(cells.join(","), "a,\"b,c\",\"d\\\",e\",,f");
    assert_eq!(split_csv_cells(&chars_of("")).len(), 1);
}

#[test]
fn tabular_header_examples() {
    assert_eq!(parse_tabular_header(&chars_of("rows[2]{a,b}:")), Some(2));
    assert_eq!(parse_tabular_header(&chars_of("  rows[+10] {a} :  ")), Some(10));
    assert_eq!(parse_tabular_header(&chars_of("rows[2]{a,b}: x")), None);
    assert_eq!(parse_tabular_header(&chars_of("rows[2]:")), None);
    assert_eq!(parse_tabular_header(&chars_of("ro ws[2]{a}:")), None);
    assert_eq!(parse_tabular_header(&chars_of("rows[x]{a}:")), None);
    assert_eq!(parse_tabular_header(&chars_of("[2]{a}:")), None);
}

#[test]
fn inline_array_examples() {
    let fixed = patch_inline_array(&chars_of("  tags[2] :a b,c")).unwrap();
    assert_eq!(s(&fixed), "  tags[2] : \"a b\",c");
    assert!(patch_inline_array(&chars_of("tags[2]:")).is_none());
    assert!(patch_inline_array(&chars_of("tags[2]{a}: x")).is_none());
    assert!(patch_inline_array(&chars_of("tags: x")).is_none());
}

#[test]
fn scalar_line_examples() {
    assert_eq!(s(&maybe_quote_scalar_line(&chars_of("  estimate:2d"))), "  estimate:\"2d\"");
    assert_eq!(s(&maybe_quote_scalar_line(&chars_of("- estimate: 2d"))), "- estimate: 2d");
    assert_eq!(s(&maybe_quote_scalar_line(&chars_of("# e: 2d"))), "# e: 2d");
    assert_eq!(s(&maybe_quote_scalar_line(&chars_of("e: \"2d\""))), "e: \"2d\"");
    assert_eq!(s(&maybe_quote_scalar_line(&chars_of("a b: 2d"))), "a b: 2d");
    assert_eq!(s(&maybe_quote_scalar_line(&chars_of("e: 2"))), "e: 2");
}

#[test]
fn tabular_row_keeps_indent() {
    assert_eq!(s(&quote_tabular_row(&chars_of("    1,two words"))), "    1,\"two words\"");
}

#[test]
fn key_chars() {
    assert!(is_key_char('a') && is_key_char('Z') && is_key_char('7'));
    assert!(is_key_char('_') && is_key_char('-'));
    assert!(!is_key_char(' ') && !is_key_char('[') && !is_key_char('é'));
}

#[test]
fn scalar_value_with_digit_letter_start_is_quoted_whole() {
    let raw = "estimate: 5m ago\n";
    let patched = quote_digit_prefix_scalars(raw);
    assert_eq!(patched, "estimate: \"5m ago\"\n");
    let decoded = toon_format::decode(&patched, &toon_format::DecodeOptions::default()).unwrap();
    assert_eq!(decoded["estimate"], "5m ago");
}

#[test]
fn scalar_value_is_escaped_when_quoted() {
    assert_eq!(
        s(&maybe_quote_scalar_line(&chars_of("a: 5m \"x\" \\ "))),
        "a: \"5m \\\"x\\\" \\\\\""
    );
    assert_eq!(s(&maybe_quote_scalar_line(&chars_of("d: 2024-01-01"))), "d: 2024-01-01");
}

#[test]
fn patching_twice_is_patching_once() {
    let raw = "title: t\nestimate: 5m ago\nrows[2]{a,b}:\n  1,two words\n  2,\"x, y\"\nitems[2]: a b,2d\n";
    let once = quote_digit_prefix_scalars(raw);
    assert_eq!(quote_digit_prefix_scalars(&once), once);
    let decoded = toon_format::decode(&once, &toon_format::DecodeOptions::default()).unwrap();
    assert_eq!(decoded["estimate"], "5m ago");
    assert_eq!(decoded["rows"][0]["b"], "two words");
    assert_eq!(decoded["items"][1], "2d");
}

#[test]
fn patching_crlf_text_twice_is_patching_once() {
    let raw = "estimate: 5m\r\nrows[1]{a}:\r\n  x y\r\nnote: \r\n";
    let once = quote_digit_prefix_scalars(raw);
    assert_eq!(once, "estimate: \"5m\"\nrows[1]{a}:\n  \"x y\"\nnote: \n");
    assert_eq!(quote_digit_prefix_scalars(&once), once);
    let tail_cr = quote_digit_prefix_scalars("a: 1\r");
    assert_eq!(quote_digit_prefix_scalars(&tail_cr), tail_cr);
}

#[test]
fn only_commas_outside_quotes_separate_cells() {
    let cells = split_csv_cells(&chars_of("\"a,b\",c\\,d,\"e\\\",f\""));
    let cells: Vec<String> = cells.iter().map(|c| s(c)).collect();
    assert_eq!(cells, vec!["\"a,b\"", "c\\", "d", "\"e\\\",f\""]);
    assert!(!split_csv_cells(&chars_of("")).is_empty());
}
