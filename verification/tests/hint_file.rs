use playthrough_hinter::hint_generator::{format_hint, parse_hints};
use playthrough_hinter::types::SpoilerEntry;

fn entry(location: &str, item: &str, sender: &str, receiver: &str) -> SpoilerEntry {
    SpoilerEntry {
        location: location.to_string(),
        item: item.to_string(),
        sender: sender.to_string(),
        receiver: receiver.to_string(),
    }
}

#[test]
fn hint_line_has_four_fields_and_a_newline() {
    let h = entry("Beat Meg", "Meg Victory", "hi_I_have_name", "slot2");
    assert_eq!(format_hint(&h), "Beat Meg;Meg Victory;hi_I_have_name;slot2\n");
}

#[test]
fn written_hints_read_back() {
    let hints = vec![
        entry("AF (Depths): Upper Right Chest", "Gate: Outskirts", "slot1", "slot2"),
        entry("Server", "Blelt", "Archipelago", "slot2"),
        entry("", "", "", ""),
        entry("Pokémon Tower", "Silph Scope", "slot1", "slot1"),
    ];
    let mut text = String::new();
    for h in hints.iter() {
        text.push_str(&format_hint(h));
    }
    assert_eq!(parse_hints(&text), Some(hints));
}

#[test]
fn empty_hint_file_holds_no_hint() {
    assert_eq!(parse_hints(""), Some(vec![]));
}

#[test]
fn malformed_hint_files_are_rejected() {
    // a missing final newline
    assert_eq!(parse_hints("a;b;c;d"), None);
    // too few fields
    assert_eq!(parse_hints("a;b;c\n"), None);
    // too many fields
    assert_eq!(parse_hints("a;b;c;d;e\n"), None);
    // a good line then a bad one
    assert_eq!(parse_hints("a;b;c;d\nx;y\n"), None);
}
