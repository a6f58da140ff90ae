use symdex::protocol::{format_entry, parse_selection, Entry, DELIMITER};
use symdex::symbol::Kind;
use symdex::text::Loc;

// An entry with path "a/b.rs", location (12, 4), text "foo" and kind
// Function serializes to a line whose fields, split on the delimiter,
// reconstruct exactly ("a/b.rs", "12", "4", "foo", <function label>).
#[test]
fn protocol_fields_round_trip() {
    let line = format_entry("a/b.rs", Loc::new(12, 4), "foo", Kind::Function);
    let fields: Vec<&str> = line.split(DELIMITER).collect();
    assert_eq!(fields.len(), 6);
    assert_eq!(fields[0], "a/b.rs");
    assert_eq!(fields[1], "12");
    assert_eq!(fields[2], "4");
    assert_eq!(fields[3], "foo");
    assert_eq!(fields[4], Kind::Function.colored_abbreviation());
    assert_eq!(fields[5], "");
}

#[test]
fn format_entry_exact() {
    let line = format_entry("x.c", Loc::new(1, 0), "main", Kind::Function);
    let expected = format!(
        "x.c{d}1{d}0{d}main{d}{label}{d}",
        d = DELIMITER,
        label = Kind::Function.colored_abbreviation()
    );
    assert_eq!(line, expected);
}

#[test]
fn selection_comes_back_as_path_line_column() {
    let line = format_entry("src/lib.rs", Loc::new(42, 7), "thing", Kind::Struct);
    let selection = parse_selection(line.as_str());
    assert_eq!(selection, "src/lib.rs 42 7".to_string());
}

#[test]
fn selection_of_short_input_keeps_what_exists() {
    assert_eq!(parse_selection("plain"), "plain".to_string());
    let two = format!("a{}b", DELIMITER);
    assert_eq!(parse_selection(two.as_str()), "a b".to_string());
}

#[test]
fn entry_new_keeps_fields() {
    let e = Entry::new("p".to_string(), Loc::new(3, 4), "t".to_string(), Kind::Enum);
    assert_eq!(e.path, "p".to_string());
    assert_eq!(e.loc, Loc::new(3, 4));
    assert_eq!(e.text, "t".to_string());
    assert!(matches!(e.kind, Kind::Enum));
    assert_eq!(e.to_line(), format_entry("p", Loc::new(3, 4), "t", Kind::Enum));
}

fn all_kinds() -> Vec<Kind> {
    vec![
        Kind::Module,
        Kind::Macro,
        Kind::Global,
        Kind::Constant,
        Kind::Define,
        Kind::Class,
        Kind::Struct,
        Kind::Enum,
        Kind::Union,
        Kind::Alias,
        Kind::Interface,
        Kind::Trait,
        Kind::Type,
        Kind::Function,
        Kind::Impl,
        Kind::Unknown,
    ]
}

// Every label renders to the same printable width: the characters outside
// the two fixed escape sequences always count eight.
#[test]
fn labels_share_one_printable_width() {
    for k in all_kinds() {
        let label: Vec<char> = k.colored_abbreviation().chars().collect();
        assert_eq!(label.len(), 17);
        assert_eq!(label[0], '\u{1b}');
        assert_eq!(label[1], '[');
        assert_eq!(label[4], 'm');
        assert_eq!(label[13], '\u{1b}');
        assert_eq!(&label[14..17], &['[', '0', 'm']);
        assert!(!label.contains(&DELIMITER));
    }
}

#[test]
fn kind_names_read_back() {
    for k in all_kinds() {
        assert_eq!(Kind::from_name(k.name()), Some(k));
    }
    assert_eq!(Kind::from_name("nonsense"), None);
    assert_eq!(Kind::from_name(""), None);
}

#[test]
fn format_entry_with_empty_text_keeps_field_count() {
    let line = format_entry("p\u{00e5}th/f.rs", Loc::new(7, 0), "", Kind::Unknown);
    let fields: Vec<&str> = line.split(DELIMITER).collect();
    assert_eq!(fields.len(), 6);
    assert_eq!(fields[0], "p\u{00e5}th/f.rs");
    assert_eq!(fields[3], "");
    let selection = parse_selection(line.as_str());
    assert_eq!(selection, "p\u{00e5}th/f.rs 7 0".to_string());
}
