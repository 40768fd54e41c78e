use rwr_profile::decimal::Decimal;
use rwr_profile::error::ErrorKind;
use rwr_profile::person::extract::extract_person;
use rwr_profile::person::model::ItemGroupTag;
use rwr_profile::person::model::ItemTag;
use rwr_profile::person::model::StashItemTag;
use rwr_profile::version_update::preupdate::person_needs_update;
use rwr_profile::version_update::preupdate::preupdate_person;
use rwr_profile::version_update::preupdate::preupdate_profile;
use rwr_profile::version_update::preupdate::preupdate_profile_text;
use rwr_profile::version_update::preupdate::profile_needs_update;
use rwr_profile::version_update::preupdate::split_outcomes;
use rwr_profile::version_update::update_to_154::group_items;
use rwr_profile::version_update::update_to_154::legacy_from_events;
use rwr_profile::version_update::update_to_154::replaced_or_unchanged;
use rwr_profile::version_update::update_to_154::update_person;
use rwr_profile::version_update::update_to_154::update_profile;
use rwr_profile::xml::read_events;

const LEGACY: &str = "<person max_authority_reached=\"1.5\" authority=\"1.25\" job_points=\"100\" faction=\"0\" name=\"Old\" version=\"153\" alive=\"1\" soldier_group_id=\"0\" soldier_group_name=\"default\" block=\"10 10\" squad_size_setting=\"-1\">\n    <order moving=\"1\" target=\"\" class=\"0\" />\n    <item slot=\"0\" index=\"12\" amount=\"1\" key=\"ak47.weapon\" />\n    <stash hard_capacity=\"77\">\n        <item class=\"0\" index=\"5\" key=\"medkit.weapon\" />\n    </stash>\n    <backpack hard_capacity=\"88\">\n        <item class=\"0\" index=\"1\" key=\"rifle\" />\n        <item class=\"0\" index=\"2\" key=\"rifle\" />\n        <item class=\"1\" index=\"3\" key=\"ammo\" />\n    </backpack>\n</person>\n";

fn item(key: &str) -> StashItemTag {
    StashItemTag { class: 0, index: 0, key: String::from(key) }
}

#[test]
fn grouping_counts_the_items_of_each_key() {
    let grouped = group_items(&vec![item("rifle"), item("rifle"), item("ammo")]);
    assert_eq!(
        grouped,
        vec![
            ItemGroupTag { class: 0, index: 0, key: String::from("rifle"), amount: 2 },
            ItemGroupTag { class: 0, index: 0, key: String::from("ammo"), amount: 1 },
        ]
    );
}

#[test]
fn grouping_keeps_class_and_index_of_the_first_item() {
    let list = vec![
        StashItemTag { class: 1, index: 10, key: String::from("a") },
        StashItemTag { class: 2, index: 20, key: String::from("b") },
        StashItemTag { class: 3, index: 30, key: String::from("a") },
    ];
    assert_eq!(
        group_items(&list),
        vec![
            ItemGroupTag { class: 1, index: 10, key: String::from("a"), amount: 2 },
            ItemGroupTag { class: 2, index: 20, key: String::from("b"), amount: 1 },
        ]
    );
    assert_eq!(group_items(&vec![]), vec![]);
}

#[test]
fn grouping_of_distinct_keys_keeps_every_item() {
    let grouped = group_items(&vec![item("a"), item("b"), item("c")]);
    assert_eq!(grouped.len(), 3);
    assert!(grouped.iter().all(|g| g.amount == 1));
}

#[test]
fn legacy_person_is_read_item_by_item() {
    let events = read_events(LEGACY.as_bytes()).unwrap();
    let legacy = legacy_from_events(&events).unwrap();
    assert_eq!(legacy.person.version, 153);
    assert_eq!(legacy.person.name, "Old");
    assert_eq!(legacy.person.item_list.len(), 1);
    assert_eq!(legacy.person.backpack_hard_capacity, 255);
    assert_eq!(legacy.person.stash_hard_capacity, 300);
    assert_eq!(legacy.backpack_item_list.len(), 3);
    assert_eq!(
        legacy.stash_item_list,
        vec![StashItemTag { class: 0, index: 5, key: String::from("medkit.weapon") }]
    );
}

#[test]
fn legacy_item_without_index_has_index_minus_one() {
    let events = read_events(b"<person><stash><item key=\"k\"/></stash></person>").unwrap();
    let legacy = legacy_from_events(&events).unwrap();
    assert_eq!(legacy.person.version, 153);
    assert_eq!(
        legacy.stash_item_list,
        vec![StashItemTag { class: 0, index: -1, key: String::from("k") }]
    );
}

#[test]
fn migrated_person_has_grouped_lists_and_the_current_version() {
    let text = update_person(LEGACY.as_bytes()).unwrap();
    let person = extract_person(text.as_bytes()).unwrap();
    assert_eq!(person.version, 154);
    assert_eq!(person.name, "Old");
    assert_eq!(person.authority, Decimal { micros: 1_250_000 });
    assert_eq!(person.block, "10 10");
    assert_eq!(person.squad_size_setting, Decimal { micros: -1_000_000 });
    assert_eq!(person.backpack_hard_capacity, 255);
    assert_eq!(person.stash_hard_capacity, 300);
    assert_eq!(
        person.item_list,
        vec![ItemTag { slot: 0, index: 12, amount: 1, key: String::from("ak47.weapon") }]
    );
    assert_eq!(
        person.backpack_item_list,
        vec![
            ItemGroupTag { class: 0, index: 1, key: String::from("rifle"), amount: 2 },
            ItemGroupTag { class: 1, index: 3, key: String::from("ammo"), amount: 1 },
        ]
    );
    assert_eq!(
        person.stash_item_list,
        vec![ItemGroupTag { class: 0, index: 5, key: String::from("medkit.weapon"), amount: 1 }]
    );
    assert!(text.contains("<item_group class=\"0\" index=\"1\" key=\"rifle\" amount=\"2\"/>"));
}

#[test]
fn migration_fails_on_what_cannot_be_read() {
    assert_eq!(update_person(b"<person><stash>").err(), Some(ErrorKind::ParseError));
    assert_eq!(
        update_person(b"<person><stash><item index=\"x\"/></stash></person>").err(),
        Some(ErrorKind::ParseError)
    );
}

#[test]
fn only_older_versions_need_an_update() {
    assert!(person_needs_update(153));
    assert!(person_needs_update(0));
    assert!(!person_needs_update(154));
    assert!(!person_needs_update(155));
    assert!(profile_needs_update("153"));
    assert!(!profile_needs_update("154"));
    assert!(!profile_needs_update(""));
    assert!(!profile_needs_update("1.94"));
}

#[test]
fn preupdate_migrates_older_person_files_only() {
    let migrated = preupdate_person(LEGACY.as_bytes()).unwrap().unwrap();
    assert!(migrated.contains("version=\"154\""));
    assert_eq!(preupdate_person(migrated.as_bytes()).unwrap(), None);
    assert_eq!(preupdate_person(b"<person").err(), Some(ErrorKind::ParseError));
}

#[test]
fn profile_version_is_replaced_and_nothing_else() {
    let text = "<profile game_version=\"153\" username=\"A\" other_game_version=\"1\">\n  <stats kills=\"1\"/>\n</profile>\n";
    assert_eq!(
        update_profile(text),
        "<profile game_version=\"154\" username=\"A\" other_game_version=\"1\">\n  <stats kills=\"1\"/>\n</profile>\n"
    );
}

#[test]
fn profile_version_is_replaced_once() {
    assert_eq!(
        update_profile("game_version=\"1\" game_version=\"2\""),
        "game_version=\"154\" game_version=\"2\""
    );
}

#[test]
fn profile_without_version_is_unchanged() {
    assert_eq!(update_profile("<profile username=\"A\"/>"), "<profile username=\"A\"/>");
    assert_eq!(update_profile("game_version=\"\""), "game_version=\"\"");
    assert_eq!(update_profile("game_version=\"x1\""), "game_version=\"x1\"");
}

#[test]
fn replacement_outcome_is_used_or_the_text_kept() {
    assert_eq!(replaced_or_unchanged("a", Some(String::from("b"))), "b");
    assert_eq!(replaced_or_unchanged("a", None), "a");
}

#[test]
fn preupdate_bumps_older_profile_files_only() {
    let old = b"<profile game_version=\"153\" username=\"A\"></profile>";
    assert_eq!(
        preupdate_profile(old).unwrap(),
        Some(String::from("<profile game_version=\"154\" username=\"A\"></profile>"))
    );
    let current = b"<profile game_version=\"154\" username=\"A\"></profile>";
    assert_eq!(preupdate_profile(current).unwrap(), None);
    assert_eq!(preupdate_profile(b"<profile").err(), Some(ErrorKind::ParseError));
    assert_eq!(preupdate_profile_text("game_version=\"3\"", "3"), Some(String::from("game_version=\"154\"")));
    assert_eq!(preupdate_profile_text("game_version=\"3\"", "154"), None);
}

#[test]
fn one_failed_migration_does_not_stop_the_others() {
    let ids = vec![1u64, 2, 3, 4];
    let outcomes = vec![
        preupdate_person(LEGACY.as_bytes()),
        preupdate_person(b"<person version=\"x\"></person>"),
        preupdate_person(b"<person version=\"154\"></person>"),
        preupdate_person(b"<person version=\"12\"></person>"),
    ];
    let (files, failed) = split_outcomes(&ids, &outcomes);
    assert_eq!(files.iter().map(|f| f.0).collect::<Vec<u64>>(), vec![1, 4]);
    assert!(files[1].1.contains("version=\"154\""));
    assert_eq!(failed, vec![(2, ErrorKind::ParseError)]);
    assert_eq!(split_outcomes(&vec![1, 2], &vec![Ok(None)]), (vec![], vec![]));
}
