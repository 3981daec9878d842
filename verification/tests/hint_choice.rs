use playthrough_hinter::hint_generator::{
    first_open_sphere, generate_hint, generate_hint_ignoring, open_entries,
};
use playthrough_hinter::types::{find_by_name, Check, Location, SpoilerEntry};

fn entry(location: &str, item: &str, sender: &str, receiver: &str) -> SpoilerEntry {
    SpoilerEntry {
        location: location.to_string(),
        item: item.to_string(),
        sender: sender.to_string(),
        receiver: receiver.to_string(),
    }
}

fn location(location: &str, player: &str) -> Location {
    Location {
        location: location.to_string(),
        player: player.to_string(),
    }
}

#[test]
fn hints_come_from_the_first_open_sphere() {
    let a = entry("loc1", "item1", "slot1", "slot2");
    let b = entry("loc2", "item2", "slot2", "slot1");
    let c = entry("loc3", "item3", "slot1", "slot1");
    let playthrough = vec![vec![a.clone()], vec![b.clone(), c.clone()]];
    // sphere 0 is still open
    assert_eq!(generate_hint(&playthrough, &vec![], &vec![]), Some((a.clone(), 0)));
    // sphere 0 is done: the hint comes from sphere 1
    let (h, i) = generate_hint(&playthrough, &vec![a.clone()], &vec![]).unwrap();
    assert_eq!(i, 1);
    assert!(h == b || h == c);
    // only c is left
    assert_eq!(
        generate_hint(&playthrough, &vec![a.clone()], &vec![b.clone()]),
        Some((c.clone(), 1))
    );
    // nothing is left
    assert_eq!(
        generate_hint(&playthrough, &vec![a.clone(), c.clone()], &vec![b.clone()]),
        None
    );
}

#[test]
fn empty_playthrough_gives_no_hint() {
    assert_eq!(generate_hint(&vec![], &vec![], &vec![]), None);
    assert_eq!(generate_hint(&vec![vec![], vec![]], &vec![], &vec![]), None);
}

#[test]
fn checked_locations_match_by_location_and_sender() {
    let a = entry("loc1", "item1", "slot1", "slot2");
    let b = entry("loc1", "item2", "slot2", "slot1");
    let sphere = vec![a.clone(), b.clone()];
    // slot1 checked loc1: that is a, not b
    let ignored = vec![Check::Location(location("loc1", "slot1"))];
    assert_eq!(open_entries(&sphere, &ignored), vec![b.clone()]);
    let ignored = vec![
        Check::Location(location("loc1", "slot2")),
        Check::Spoiler(a.clone()),
    ];
    assert_eq!(open_entries(&sphere, &ignored), Vec::<SpoilerEntry>::new());
    assert_eq!(generate_hint_ignoring(&vec![sphere.clone()], &ignored), None);
    assert_eq!(
        first_open_sphere(&vec![vec![a.clone()], sphere.clone()], &vec![Check::Spoiler(a.clone())]),
        Some((1, vec![b.clone()]))
    );
}

#[test]
fn entries_and_locations_compare_both_ways() {
    let a = entry("loc1", "item1", "slot1", "slot2");
    assert!(a == location("loc1", "slot1"));
    assert!(location("loc1", "slot1") == a);
    assert!(a != location("loc1", "slot2"));
    assert!(location("loc2", "slot1") != a);
    assert!(Check::Location(location("loc1", "slot1")) == a);
    assert!(Check::Spoiler(a.clone()) == a);
    assert!(Check::Spoiler(entry("loc1", "other", "slot1", "slot2")) != a);
    assert!(Check::Spoiler(a.clone()) == location("loc1", "slot1"));
}

#[test]
fn locations_are_found_by_name() {
    let names = vec!["a".to_string(), "b".to_string(), "b".to_string()];
    assert_eq!(find_by_name(&names, &"b".to_string()), Some(1));
    assert_eq!(find_by_name(&names, &"c".to_string()), None);
}
