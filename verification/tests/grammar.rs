use playthrough_hinter::parser::{
    check_parser, object_parser, parse_from_existing_slot, playthrough_parser, seed_from_spoiler,
    slot_parser, slots_parser, sphere_parser, Slot, SpoilerEntry,
};

fn slots(names: &[&str]) -> Vec<Slot> {
    names
        .iter()
        .map(|n| Slot {
            player: n.to_string(),
        })
        .collect()
}

#[test]
fn slot_lines_need_a_colon_and_an_identifier() {
    assert_eq!(slot_parser("Player 1 slot1"), None);
    assert_eq!(slot_parser("Player 1: 1slot"), None);
    assert_eq!(slot_parser("Player 1: slot1 "), None);
    assert_eq!(
        slot_parser("  Player :\n\tsl_ot"),
        Some(Slot {
            player: "sl_ot".to_string()
        })
    );
}

#[test]
fn slot_names_stop_at_the_first_non_identifier_character() {
    assert_eq!(
        slots_parser("Player 1: Ann-Marie\nPlayer 2: Bob"),
        slots(&["Ann", "Bob"])
    );
    assert_eq!(slots_parser("no slots here"), vec![]);
}

#[test]
fn the_first_slot_that_fits_is_taken() {
    let s = slots(&["slot1", "slot12"]);
    assert_eq!(parse_from_existing_slot(&s, "slot12"), None);
    assert_eq!(parse_from_existing_slot(&slots(&["slot12", "slot1"]), "slot12"), Some(slots(&["slot12"])[0].clone()));
    assert!(object_parser(&s, "Chest (slot12)").is_none());
}

#[test]
fn objects_are_trimmed_and_need_a_known_slot() {
    let s = slots(&["slot1"]);
    let o = object_parser(&s, "  Big Chest \t(slot1)").unwrap();
    assert_eq!(o.object, "Big Chest");
    assert_eq!(o.player, "slot1");
    assert!(object_parser(&s, "Chest (slot2)").is_none());
    assert!(object_parser(&s, "Ch{est (slot1)").is_none());
    let o = object_parser(&s, "(slot1)").unwrap();
    assert_eq!(o.object, "");
}

#[test]
fn a_check_without_colon_is_a_starting_item() {
    let s = slots(&["slot1", "slot2"]);
    assert_eq!(
        check_parser(&s, "Sword (slot1) : Shield (slot2)"),
        Some(SpoilerEntry {
            location: "Sword".to_string(),
            item: "Shield".to_string(),
            sender: "slot1".to_string(),
            receiver: "slot2".to_string(),
        })
    );
    assert_eq!(check_parser(&s, "Sword (slot1) trailing"), None);
}

#[test]
fn sphere_numbers_and_brackets() {
    let s = slots(&["slot1"]);
    assert_eq!(sphere_parser(&s, "12: {\n  a (slot1)\n}"), Some(vec![SpoilerEntry {
        location: "Server".to_string(),
        item: "a".to_string(),
        sender: "Archipelago".to_string(),
        receiver: "slot1".to_string(),
    }]));
    assert_eq!(sphere_parser(&s, "0: {}"), Some(vec![]));
    // whitespace in an empty sphere is not accepted
    assert_eq!(sphere_parser(&s, "0: { }"), None);
    // a number may not start with 0 unless it is 0
    assert_eq!(sphere_parser(&s, "01: {}"), None);
    assert_eq!(sphere_parser(&s, "1: {"), None);
}

#[test]
fn a_log_without_playthrough_is_rejected() {
    let s = slots(&["slot1"]);
    assert_eq!(playthrough_parser(&s, "Player 1: slot1\n"), None);
    assert_eq!(playthrough_parser(&s, "Playthrough\n0: {}"), None);
    assert_eq!(playthrough_parser(&s, "Playthrough:"), Some(vec![]));
    assert_eq!(
        playthrough_parser(&s, "intro\nPlaythrough :\n0: {}\n\n1: {}\n2: nope"),
        Some(vec![vec![], vec![]])
    );
}

#[test]
fn the_seed_is_read_from_the_header() {
    assert_eq!(
        seed_from_spoiler("Archipelago Version 0.6.1  -  Seed: 1234567\n\nPlayer 1: a\n"),
        Some("1234567".to_string())
    );
    assert_eq!(seed_from_spoiler("Seed: \n"), None);
    assert_eq!(seed_from_spoiler("no seed"), None);
}

#[test]
fn objects_compare_by_text_and_player() {
    let s = slots(&["slot1"]);
    let a = object_parser(&s, "Chest (slot1)").unwrap();
    let b = object_parser(&s, " Chest (slot1)").unwrap();
    let c = object_parser(&s, "Box (slot1)").unwrap();
    assert!(a == b);
    assert!(a != c);
}

#[test]
fn a_written_object_reads_back() {
    let s = slots(&["slot1", "slot2"]);
    let o = object_parser(&s, "A (b): c (slot2)").unwrap();
    assert_eq!(o.object, "A (b): c");
    assert_eq!(o.player, "slot2");
}

#[test]
fn written_check_lines_read_back() {
    let s = slots(&["slot1", "slot2"]);
    assert_eq!(
        check_parser(&s, "Gate: Door (x) (slot1): Key: Red (slot2)"),
        Some(SpoilerEntry {
            location: "Gate: Door (x)".to_string(),
            item: "Key: Red".to_string(),
            sender: "slot1".to_string(),
            receiver: "slot2".to_string(),
        })
    );
    assert_eq!(
        check_parser(&s, "Key: Red (slot2)"),
        Some(SpoilerEntry {
            location: "Server".to_string(),
            item: "Key: Red".to_string(),
            sender: "Archipelago".to_string(),
            receiver: "slot2".to_string(),
        })
    );
}

#[test]
fn the_sphere_number_does_not_matter() {
    let s = slots(&["slot1"]);
    let a = sphere_parser(&s, "7: {\n  a (slot1)\n}");
    assert!(a.is_some());
    assert_eq!(a, sphere_parser(&s, "0: {\n  a (slot1)\n}"));
    assert_eq!(a, sphere_parser(&s, "4096: {\n  a (slot1)\n}"));
}

#[test]
fn text_around_the_playthrough_is_not_read() {
    let s = slots(&["slot1"]);
    let body = "Playthrough:\n\n0: {\n  a (slot1)\n}\n";
    let expected = playthrough_parser(&s, body);
    assert!(expected.is_some());
    assert_eq!(playthrough_parser(&s, &format!("Play\nPlayer 1: slot1\n{}", body)), expected);
    assert_eq!(playthrough_parser(&s, &format!("{}\nPaths:\n  3: x\n", body)), expected);
}

#[test]
fn a_written_slot_line_reads_back() {
    assert_eq!(
        slot_parser(" \n\tPlayer : _a1"),
        Some(Slot {
            player: "_a1".to_string()
        })
    );
    assert_eq!(
        slot_parser("Player 0042: Zed"),
        Some(Slot {
            player: "Zed".to_string()
        })
    );
}
