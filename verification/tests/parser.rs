use playthrough_hinter::parser::{
    check_parser, object_parser, parse_from_existing_slot, parse_spoiler, playthrough_parser,
    slot_parser, slots_parser, sphere_parser, Slot, SpoilerEntry, Thingymabob,
};

const DUMMY_SPOILER: &str = "Archipelago Version 0.6.1  -  Seed: 98765432109876543210\n\
\n\
Filler Item Preference: 0\n\
\n\
Player 1: slot1\n\
Game:                            Lego Star Wars\n\
\n\
Player 2: slot2\n\
Game:                            Shrek\n\
\n\
Player 3: hi_I_have_name\n\
Game:                            Hades\n\
\n\
Entrances:\n\
\n\
Playthrough:\n\
\n\
0: {\n\
  Anakin Skywalker (Jedi) (slot1)\n\
  Blelt (slot2)\n\
}\n\
\n\
1: {\n\
  Farm Arrays - Echo (slot1): Shrek's Swamp Unlock (slot2)\n\
  Beat Meg (hi_I_have_name): Meg Victory (hi_I_have_name)\n\
  Clear Score 0001 (slot1): Upslash (slot2)\n\
}\n\
\n\
2: {\n\
  AF (Depths): Upper Right Chest (1st Reward) (slot1): Gate: Outskirts to Drainage System (slot2)\n\
}\n\
\n\
3: {\n\
  Goal (slot1): Victory (slot1)\n\
}\n\
\n\
Paths:\n";

fn slot_names() -> Vec<Slot> {
    vec![
        Slot {
            player: String::from("slot1"),
        },
        Slot {
            player: String::from("slot2"),
        },
    ]
}

fn entry(location: &str, sender: &str, item: &str, receiver: &str) -> SpoilerEntry {
    SpoilerEntry {
        location: String::from(location),
        sender: String::from(sender),
        item: String::from(item),
        receiver: String::from(receiver),
    }
}

fn expected_spoiler() -> (Vec<Slot>, Vec<Vec<SpoilerEntry>>) {
    (
        vec![
            Slot {
                player: String::from("slot1"),
            },
            Slot {
                player: String::from("slot2"),
            },
            Slot {
                player: String::from("hi_I_have_name"),
            },
        ],
        vec![
            vec![
                entry("Server", "Archipelago", "Anakin Skywalker (Jedi)", "slot1"),
                entry("Server", "Archipelago", "Blelt", "slot2"),
            ],
            vec![
                entry("Farm Arrays - Echo", "slot1", "Shrek's Swamp Unlock", "slot2"),
                entry("Beat Meg", "hi_I_have_name", "Meg Victory", "hi_I_have_name"),
                entry("Clear Score 0001", "slot1", "Upslash", "slot2"),
            ],
            vec![entry(
                "AF (Depths): Upper Right Chest (1st Reward)",
                "slot1",
                "Gate: Outskirts to Drainage System",
                "slot2",
            )],
            vec![entry("Goal", "slot1", "Victory", "slot1")],
        ],
    )
}

#[test]
fn it_parses_slot_names() {
    assert_eq!(
        slot_parser("Player 1: slot1"),
        Some(Slot {
            player: String::from("slot1")
        })
    );
    assert_eq!(
        slot_parser("Player 2: slot5"),
        Some(Slot {
            player: String::from("slot5")
        })
    );
    assert_eq!(
        slot_parser("Player 12: slot12"),
        Some(Slot {
            player: String::from("slot12")
        })
    );
}

#[test]
fn it_parses_a_sequence_of_slot_names() {
    assert_eq!(
        slots_parser("Player 1: slot1\nblebleble\nblo\nPlayer 2: slot2\nPlayer 3: slot13\n"),
        vec![
            Slot {
                player: String::from("slot1")
            },
            Slot {
                player: String::from("slot2")
            },
            Slot {
                player: String::from("slot13")
            },
        ]
    );
    assert_eq!(
        slots_parser("blabla\nPlayer 1: slot1\nblebleble\nblo\nPlayer 2: slot2\nPlayer 3: slot13"),
        vec![
            Slot {
                player: String::from("slot1")
            },
            Slot {
                player: String::from("slot2")
            },
            Slot {
                player: String::from("slot13")
            },
        ]
    );
}

#[test]
fn it_identifies_slots() {
    assert_eq!(
        parse_from_existing_slot(&slot_names(), "slot1"),
        Some(Slot {
            player: String::from("slot1")
        })
    );
}

#[test]
fn it_parses_objects() {
    let parsed = object_parser(&slot_names(), "Location (slot1)").unwrap();
    assert_eq!(parsed.object, "Location");
    assert_eq!(parsed.player, "slot1");
    let parsed = object_parser(&slot_names(), "Location (slot1)").unwrap();
    assert_eq!(parsed.object, "Location");
    assert_eq!(parsed.player, "slot1");
}

#[test]
fn it_parses_sublocations_properly() {
    let parsed: Thingymabob =
        object_parser(&slot_names(), "Location (sub-location) (slot1)").unwrap();
    assert_eq!(parsed.object, "Location (sub-location)");
    assert_eq!(parsed.player, "slot1");
}

#[test]
fn it_parses_starting_checks() {
    assert_eq!(
        check_parser(&slot_names(), "item (slot2)"),
        Some(SpoilerEntry {
            location: String::from("Server"),
            item: String::from("item"),
            sender: String::from("Archipelago"),
            receiver: String::from("slot2")
        })
    );

    assert_eq!(
        check_parser(&slot_names(), "item (sub-name) (slot2)"),
        Some(SpoilerEntry {
            location: String::from("Server"),
            item: String::from("item (sub-name)"),
            sender: String::from("Archipelago"),
            receiver: String::from("slot2")
        })
    );
}

#[test]
fn it_parses_checks() {
    assert_eq!(
        check_parser(&slot_names(), "loc (slot1): item (slot2)"),
        Some(SpoilerEntry {
            location: String::from("loc"),
            item: String::from("item"),
            sender: String::from("slot1"),
            receiver: String::from("slot2")
        })
    );

    assert_eq!(
        check_parser(&slot_names(), "loc (sub-loc) (slot1): item (sub-item) (slot2)"),
        Some(SpoilerEntry {
            location: String::from("loc (sub-loc)"),
            item: String::from("item (sub-item)"),
            sender: String::from("slot1"),
            receiver: String::from("slot2")
        })
    );

    assert_eq!(
        check_parser(
            &slot_names(),
            "AF (Depths): Upper Right Chest (1st Reward) (slot1): Gate: item (sub-item) (slot2)"
        ),
        Some(SpoilerEntry {
            location: String::from("AF (Depths): Upper Right Chest (1st Reward)"),
            item: String::from("Gate: item (sub-item)"),
            sender: String::from("slot1"),
            receiver: String::from("slot2")
        })
    );
}

#[test]
fn it_parses_a_sphere() {
    assert_eq!(
        sphere_parser(
            &slot_names(),
            "1: {\n  loc1 (slot1): item1 (slot2)\n  loc2 (slot1): item2 (slot2)\n}"
        ),
        Some(vec![
            SpoilerEntry {
                location: String::from("loc1"),
                sender: String::from("slot1"),
                item: String::from("item1"),
                receiver: String::from("slot2"),
            },
            SpoilerEntry {
                location: String::from("loc2"),
                sender: String::from("slot1"),
                item: String::from("item2"),
                receiver: String::from("slot2"),
            },
        ])
    );
}

#[test]
fn it_parses_playthroughs() {
    assert_eq!(
        playthrough_parser(
            &slot_names(),
            "Playthrough:\n\n\n1: {\n  loc1 (slot1): item1 (slot2)\n  loc2 (slot1): item2 (slot2)\n}\n"
        ),
        Some(vec![vec![
            SpoilerEntry {
                location: String::from("loc1"),
                sender: String::from("slot1"),
                item: String::from("item1"),
                receiver: String::from("slot2"),
            },
            SpoilerEntry {
                location: String::from("loc2"),
                sender: String::from("slot1"),
                item: String::from("item2"),
                receiver: String::from("slot2"),
            },
        ]])
    );
    assert_eq!(
        playthrough_parser(
            &slot_names(),
            "Playthrough: \
            \
            \
            \
            0: {\
                item1 (slot2)\
                item2 (slot2)\
            }\
            \
            \
            1: {\
                loc1 (slot1): item3 (slot2)\
                loc2 (slot2): item4 (slot1)\
            }"
        ),
        Some(vec![
            vec![
                SpoilerEntry {
                    location: String::from("Server"),
                    sender: String::from("Archipelago"),
                    item: String::from("item1"),
                    receiver: String::from("slot2"),
                },
                SpoilerEntry {
                    location: String::from("Server"),
                    sender: String::from("Archipelago"),
                    item: String::from("item2"),
                    receiver: String::from("slot2"),
                },
            ],
            vec![
                SpoilerEntry {
                    location: String::from("loc1"),
                    sender: String::from("slot1"),
                    item: String::from("item3"),
                    receiver: String::from("slot2"),
                },
                SpoilerEntry {
                    location: String::from("loc2"),
                    sender: String::from("slot2"),
                    item: String::from("item4"),
                    receiver: String::from("slot1"),
                },
            ]
        ])
    );
}

#[test]
fn it_parses_spoilers() {
    let spoiler_text = String::from(DUMMY_SPOILER);
    assert_eq!(parse_spoiler(&spoiler_text), expected_spoiler());
}

#[test]
fn parse_spoiler_test() {
    let spoiler_text = String::from(DUMMY_SPOILER);
    assert_eq!(parse_spoiler(&spoiler_text), expected_spoiler());
}
