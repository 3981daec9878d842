use playthrough_hinter::hint_generator::generate_hint;
use playthrough_hinter::types::SpoilerEntry;

#[test]
fn it_generates_hint() {
    let entrya = SpoilerEntry {
        location: "loc1".to_string(),
        sender: "send1".to_string(),
        item: "item1".to_string(),
        receiver: "recv1".to_string(),
    };
    let entryb = SpoilerEntry {
        location: "loc2".to_string(),
        sender: "send2".to_string(),
        item: "item2".to_string(),
        receiver: "recv2".to_string(),
    };
    let playthrough = vec![vec![entrya.clone(), entryb.clone()]];

    assert!(generate_hint(&playthrough, &vec![], &vec![]).is_some());
    assert_eq!(
        generate_hint(&playthrough, &vec![entrya.clone()], &vec![]),
        Some((entryb.clone(), 0))
    );
    assert_eq!(
        generate_hint(&playthrough.clone(), &vec![], &vec![entryb.clone()]),
        Some((entrya.clone(), 0))
    );
    assert_eq!(
        generate_hint(
            &playthrough.clone(),
            &vec![entrya.clone()],
            &vec![entryb.clone()]
        ),
        None
    );
}
