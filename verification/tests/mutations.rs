use rwr_profile::decimal::Decimal;
use rwr_profile::error::ErrorKind;
use rwr_profile::person::inventory::exceeds_capacity;
use rwr_profile::person::inventory::merge_groups;
use rwr_profile::person::model::ItemGroupTag;
use rwr_profile::person::model::ItemTag;
use rwr_profile::person::model::Person;
use rwr_profile::person::save::delete_person_item_list;
use rwr_profile::person::save::insert_person_list_backpack;
use rwr_profile::person::save::update_person_list_soldier_group;
use rwr_profile::person::service::check_capacity;
use rwr_profile::person::service::delete_items;
use rwr_profile::person::service::insert_backpack;
use rwr_profile::person::service::reset_xp;
use rwr_profile::person::service::reset_xp_5_starts;
use rwr_profile::person::service::update_backpack;
use rwr_profile::person::service::update_group_type;
use rwr_profile::person::service::update_soldier_group;
use rwr_profile::person::service::update_stash;

fn group(key: &str, amount: u64) -> ItemGroupTag {
    ItemGroupTag { class: 0, index: 7, key: String::from(key), amount }
}

fn person_with_backpack(list: Vec<ItemGroupTag>) -> Person {
    let mut p = Person::default();
    p.backpack_item_list = list;
    p
}

fn amount_of(list: &[ItemGroupTag], key: &str) -> u64 {
    list.iter().filter(|g| g.key == key).map(|g| g.amount).sum()
}

#[test]
fn insert_adds_incoming_amounts_to_existing_entries() {
    let p = person_with_backpack(vec![group("a", 2), group("b", 5)]);
    let q = insert_backpack(&p, &vec![group("c", 1), group("a", 3)]).unwrap();
    assert_eq!(q.backpack_item_list, vec![group("c", 1), group("a", 5), group("b", 5)]);
    assert_eq!(p.backpack_item_list, vec![group("a", 2), group("b", 5)]);
}

#[test]
fn insert_keeps_the_last_incoming_entry_of_a_key() {
    let p = person_with_backpack(vec![]);
    let first = ItemGroupTag { class: 1, index: 1, key: String::from("a"), amount: 1 };
    let last = ItemGroupTag { class: 2, index: 2, key: String::from("a"), amount: 4 };
    let q = insert_backpack(&p, &vec![first, group("b", 1), last.clone()]).unwrap();
    assert_eq!(q.backpack_item_list, vec![last, group("b", 1)]);
}

#[test]
fn insert_is_measured_by_touched_and_incoming_amounts() {
    let mut p = person_with_backpack(vec![group("a", 6), group("b", 200)]);
    p.backpack_hard_capacity = 10;
    assert!(!exceeds_capacity(&p.backpack_item_list, &vec![group("a", 4)], 10));
    assert!(exceeds_capacity(&p.backpack_item_list, &vec![group("a", 5)], 10));
    assert!(exceeds_capacity(&p.backpack_item_list, &vec![group("b", 1)], 10));
    assert!(!exceeds_capacity(&p.backpack_item_list, &vec![group("c", 10)], 10));
    assert!(exceeds_capacity(&p.backpack_item_list, &vec![group("c", 5), group("c", 6)], 10));
    assert_eq!(insert_backpack(&p, &vec![group("a", 5)]).err(), Some(ErrorKind::CapacityExceeded));
    let q = insert_backpack(&p, &vec![group("a", 4)]).unwrap();
    assert_eq!(q.backpack_item_list, vec![group("a", 10), group("b", 200)]);
}

#[test]
fn insert_amounts_that_would_overflow_are_over_capacity() {
    let p = person_with_backpack(vec![group("a", u64::MAX)]);
    assert_eq!(
        insert_backpack(&p, &vec![group("a", u64::MAX)]).err(),
        Some(ErrorKind::CapacityExceeded)
    );
    assert_eq!(
        merge_groups(&vec![group("a", u64::MAX)], &vec![group("a", 1)]),
        vec![group("a", u64::MAX)]
    );
}

#[test]
fn inserting_twice_doubles_the_amounts() {
    let incoming = vec![group("rifle", 2), group("ammo", 30)];
    let p = person_with_backpack(vec![]);
    let once = insert_backpack(&p, &incoming).unwrap();
    let twice = insert_backpack(&once, &incoming).unwrap();
    for key in ["rifle", "ammo", "absent"] {
        assert_eq!(
            amount_of(&twice.backpack_item_list, key),
            2 * amount_of(&once.backpack_item_list, key)
        );
    }
    assert_eq!(twice.backpack_item_list, vec![group("rifle", 4), group("ammo", 60)]);
}

#[test]
fn inserting_twice_into_a_backpack_that_has_the_key_adds_the_incoming_twice() {
    let incoming = vec![group("a", 1)];
    let p = person_with_backpack(vec![group("a", 1)]);
    let once = insert_backpack(&p, &incoming).unwrap();
    let twice = insert_backpack(&once, &incoming).unwrap();
    assert_eq!(amount_of(&once.backpack_item_list, "a"), 2);
    assert_eq!(amount_of(&twice.backpack_item_list, "a"), 3);
}

#[test]
fn insert_may_leave_more_entries_than_the_capacity() {
    let mut p = person_with_backpack(vec![group("a", 1), group("b", 1)]);
    p.backpack_hard_capacity = 2;
    let q = insert_backpack(&p, &vec![group("c", 1)]).unwrap();
    assert_eq!(q.backpack_item_list.len(), 3);
}

#[test]
fn delete_vacates_equipped_slots_and_removes_grouped_entries() {
    let mut p = Person::default();
    p.item_list = vec![
        ItemTag { slot: 0, index: 12, amount: 1, key: String::from("ak47") },
        ItemTag { slot: 1, index: 3, amount: 1, key: String::from("medkit") },
    ];
    p.backpack_item_list = vec![group("medkit", 2), group("ammo", 9)];
    p.stash_item_list = vec![group("rifle", 1), group("medkit", 1), group("vest", 1)];
    let q = delete_items(&p, &vec![String::from("medkit"), String::from("vest")]);
    assert_eq!(
        q.item_list,
        vec![
            ItemTag { slot: 0, index: 12, amount: 1, key: String::from("ak47") },
            ItemTag { slot: 1, index: -1, amount: 0, key: String::new() },
        ]
    );
    assert_eq!(q.backpack_item_list, vec![group("ammo", 9)]);
    assert_eq!(q.stash_item_list, vec![group("rifle", 1)]);
}

#[test]
fn delete_of_no_keys_changes_nothing() {
    let mut p = Person::default();
    p.item_list = vec![ItemTag { slot: 0, index: 12, amount: 1, key: String::new() }];
    p.backpack_item_list = vec![group("a", 1)];
    let q = delete_items(&p, &vec![]);
    assert_eq!(q, p);
}

#[test]
fn replace_is_refused_above_the_capacity() {
    let mut p = Person::default();
    p.backpack_hard_capacity = 2;
    p.stash_hard_capacity = 1;
    let three = vec![group("a", 1), group("b", 1), group("c", 1)];
    let two = vec![group("a", 9), group("b", 9)];
    assert_eq!(update_backpack(p.clone(), three.clone()).err(), Some(ErrorKind::CapacityExceeded));
    assert_eq!(update_stash(p.clone(), two.clone()).err(), Some(ErrorKind::CapacityExceeded));
    let q = update_backpack(p.clone(), two.clone()).unwrap();
    assert_eq!(q.backpack_item_list, two);
    let r = update_stash(p.clone(), vec![group("z", 500)]).unwrap();
    assert_eq!(r.stash_item_list, vec![group("z", 500)]);
    assert_eq!(r.backpack_item_list, vec![]);
}

#[test]
fn soldier_group_costs_job_points() {
    let mut poor = Person::default();
    poor.job_points = Decimal::from_units(5);
    let mut rich = Person::default();
    rich.job_points = Decimal::from_units(15);
    let cost = Decimal::from_units(10);
    assert_eq!(
        update_soldier_group(&poor, "sniper", cost).err(),
        Some(ErrorKind::InsufficientBalance)
    );
    let q = update_soldier_group(&rich, "sniper", cost).unwrap();
    assert_eq!(q.job_points, Decimal::from_units(5));
    assert_eq!(q.soldier_group_name, "sniper");
    let exact = update_soldier_group(&q, "medic", Decimal::from_units(5)).unwrap();
    assert_eq!(exact.job_points, Decimal::from_units(0));
}

#[test]
fn soldier_group_of_many_skips_the_poor() {
    let mut poor = Person::default();
    poor.job_points = Decimal::from_units(5);
    let mut rich = Person::default();
    rich.job_points = Decimal::from_units(15);
    let all = vec![(7u64, poor.clone()), (8u64, rich), (9u64, poor.clone())];
    let (updated, skipped) = update_person_list_soldier_group(&all, "sniper", Decimal::from_units(10));
    assert_eq!(updated.len(), 1);
    assert_eq!(updated[0].0, 8);
    assert_eq!(updated[0].1.job_points, Decimal::from_units(5));
    assert_eq!(updated[0].1.soldier_group_name, "sniper");
    assert_eq!(
        skipped,
        vec![(7, ErrorKind::InsufficientBalance), (9, ErrorKind::InsufficientBalance)]
    );
    assert_eq!(all[0].1, poor);
}

#[test]
fn insert_of_many_skips_those_over_capacity() {
    let mut full = person_with_backpack(vec![group("a", 250)]);
    full.backpack_hard_capacity = 255;
    let empty = person_with_backpack(vec![]);
    let all = vec![(1u64, empty), (2u64, full)];
    let (updated, skipped) = insert_person_list_backpack(&all, &vec![group("a", 10)]);
    assert_eq!(updated.len(), 1);
    assert_eq!(updated[0].0, 1);
    assert_eq!(updated[0].1.backpack_item_list, vec![group("a", 10)]);
    assert_eq!(skipped, vec![(2, ErrorKind::CapacityExceeded)]);
}

#[test]
fn delete_of_many_changes_each() {
    let all = vec![
        (1u64, person_with_backpack(vec![group("a", 1), group("b", 1)])),
        (2u64, person_with_backpack(vec![group("b", 1)])),
    ];
    let updated = delete_person_item_list(&all, &vec![String::from("b")]);
    assert_eq!(updated.len(), 2);
    assert_eq!(updated[0].0, 1);
    assert_eq!(updated[0].1.backpack_item_list, vec![group("a", 1)]);
    assert_eq!(updated[1].0, 2);
    assert_eq!(updated[1].1.backpack_item_list, vec![]);
}

#[test]
fn reset_sets_both_authorities() {
    let mut p = Person::default();
    p.job_points = Decimal::from_units(3);
    let q = reset_xp(p.clone(), Decimal { micros: 2_500_000 });
    assert_eq!(q.authority, Decimal { micros: 2_500_000 });
    assert_eq!(q.max_authority_reached, Decimal { micros: 2_500_000 });
    assert_eq!(q.job_points, Decimal::from_units(3));
    let five = reset_xp_5_starts(p);
    assert_eq!(five.authority.to_text(), "11.098661");
    assert_eq!(five.max_authority_reached.to_text(), "11.098661");
}

#[test]
fn group_type_is_set_at_no_cost() {
    let mut p = Person::default();
    p.job_points = Decimal::from_units(1);
    let q = update_group_type(p, String::from("medic"));
    assert_eq!(q.soldier_group_name, "medic");
    assert_eq!(q.job_points, Decimal::from_units(1));
}

#[test]
fn successful_changes_keep_lists_within_capacity() {
    let mut p = person_with_backpack(vec![group("a", 1), group("b", 1)]);
    p.backpack_hard_capacity = 3;
    p.stash_hard_capacity = 1;
    p.stash_item_list = vec![group("s", 1)];
    p.job_points = Decimal::from_units(100);
    let within = |q: &Person| {
        q.backpack_item_list.len() <= q.backpack_hard_capacity as usize
            && q.stash_item_list.len() <= q.stash_hard_capacity as usize
    };
    assert!(within(&insert_backpack(&p, &vec![group("a", 1)]).unwrap()));
    assert!(within(&delete_items(&p, &vec![String::from("a")])));
    assert!(within(&update_backpack(p.clone(), vec![group("x", 1)]).unwrap()));
    assert!(within(&update_stash(p.clone(), vec![]).unwrap()));
    assert!(within(&update_soldier_group(&p, "g", Decimal::from_units(1)).unwrap()));
    assert!(within(&reset_xp(p.clone(), Decimal::from_units(1))));
}

#[test]
fn capacity_is_checked_for_both_lists() {
    let mut p = person_with_backpack(vec![group("a", 1), group("b", 1)]);
    p.backpack_hard_capacity = 2;
    p.stash_hard_capacity = 0;
    assert_eq!(check_capacity(&p), Ok(()));
    p.backpack_hard_capacity = 1;
    assert_eq!(check_capacity(&p), Err(ErrorKind::CapacityExceeded));
    p.backpack_hard_capacity = 2;
    p.stash_item_list = vec![group("s", 1)];
    assert_eq!(check_capacity(&p), Err(ErrorKind::CapacityExceeded));
}
