use rwr_profile::decimal::Decimal;
use rwr_profile::error::ErrorKind;
use rwr_profile::person::extract::extract_person;
use rwr_profile::person::model::ItemGroupTag;
use rwr_profile::person::model::ItemTag;
use rwr_profile::person::model::OrderTag;
use rwr_profile::person::model::Person;
use rwr_profile::person::save::save_person;

fn sample_person() -> Person {
    let mut p = Person::default();
    p.max_authority_reached = Decimal { micros: 11_098_661 };
    p.authority = Decimal { micros: 5_653_050 };
    p.job_points = Decimal { micros: 36_837_800_000 };
    p.faction = String::from("0");
    p.name = String::from("<Tom & \"Jerry\">");
    p.version = 154;
    p.alive = 1;
    p.soldier_group_id = 2;
    p.soldier_group_name = String::from("sniper");
    p.block = String::from("11 14");
    p.squad_size_setting = Decimal { micros: -1_000_000 };
    p.order = OrderTag { moving: 1, target: String::from("base"), class: 3 };
    p.item_list = vec![
        ItemTag { slot: 0, index: 12, amount: 1, key: String::from("ak47.weapon") },
        ItemTag { slot: 2, index: -1, amount: 0, key: String::new() },
    ];
    p.stash_hard_capacity = 300;
    p.stash_item_list =
        vec![ItemGroupTag { class: 0, index: 7, key: String::from("medkit.weapon"), amount: 3 }];
    p.backpack_hard_capacity = 100;
    p.backpack_item_list = vec![
        ItemGroupTag { class: 1, index: 9, key: String::from("vest2.carry_item"), amount: 2 },
        ItemGroupTag { class: 0, index: 3, key: String::from("rifle"), amount: 1 },
    ];
    p
}

#[test]
fn default_person_text_is_exact() {
    let text = save_person(&Person::default()).unwrap();
    let expected = "<person max_authority_reached=\"0\" authority=\"0\" job_points=\"0\" faction=\"\" name=\"\" version=\"154\" alive=\"0\" soldier_group_id=\"0\" soldier_group_name=\"default\" block=\"\" squad_size_setting=\"0\">\n    <order moving=\"0\" target=\"\" class=\"0\"/>\n    <stash hard_capacity=\"300\">\n    </stash>\n    <backpack hard_capacity=\"255\"/>\n</person>";
    assert_eq!(text, expected);
}

#[test]
fn sample_person_text_is_exact() {
    let text = save_person(&sample_person()).unwrap();
    let expected = "<person max_authority_reached=\"11.098661\" authority=\"5.65305\" job_points=\"36837.8\" faction=\"0\" name=\"&lt;Tom &amp; &quot;Jerry&quot;&gt;\" version=\"154\" alive=\"1\" soldier_group_id=\"2\" soldier_group_name=\"sniper\" block=\"11 14\" squad_size_setting=\"-1\">\n    <order moving=\"1\" target=\"base\" class=\"3\"/>\n    <item slot=\"0\" index=\"12\" amount=\"1\" key=\"ak47.weapon\"/>\n    <item slot=\"2\" index=\"-1\" amount=\"0\" key=\"\"/>\n    <stash hard_capacity=\"300\">\n        <item_group class=\"0\" index=\"7\" key=\"medkit.weapon\" amount=\"3\"/>\n    </stash>\n    <backpack hard_capacity=\"100\">\n        <item_group class=\"1\" index=\"9\" key=\"vest2.carry_item\" amount=\"2\"/>\n        <item_group class=\"0\" index=\"3\" key=\"rifle\" amount=\"1\"/>\n    </backpack>\n</person>";
    assert_eq!(text, expected);
}

#[test]
fn encoded_person_decodes_and_encodes_to_the_same_text() {
    let first = save_person(&sample_person()).unwrap();
    let decoded = extract_person(first.as_bytes()).unwrap();
    let second = save_person(&decoded).unwrap();
    assert_eq!(first, second);
    assert_eq!(decoded.name, "<Tom & \"Jerry\">");
    assert_eq!(decoded.job_points, Decimal { micros: 36_837_800_000 });
    assert_eq!(decoded.backpack_hard_capacity, 100);
    assert_eq!(decoded.backpack_item_list.len(), 2);
    assert_eq!(decoded.stash_item_list.len(), 1);
    assert_eq!(decoded.item_list.len(), 2);
    assert_eq!(decoded.item_list[1].index, -1);
    assert_eq!(decoded.order.target, "base");
}

#[test]
fn malformed_person_is_a_parse_error() {
    assert_eq!(extract_person(b"<person><stash></person>").err(), Some(ErrorKind::ParseError));
    assert_eq!(extract_person(b"<person alive=\"x\"></person>").err(), Some(ErrorKind::ParseError));
    assert_eq!(extract_person(b"<person name=\"\xff\"></person>").err(), Some(ErrorKind::ParseError));
    assert_eq!(extract_person(b"<person name=\"a\" name=\"b\"></person>").err(), Some(ErrorKind::ParseError));
    assert_eq!(extract_person(b"<person name=\"&bogus;\"></person>").err(), Some(ErrorKind::ParseError));
}

#[test]
fn empty_backpack_is_one_self_closing_tag() {
    let mut p = sample_person();
    p.backpack_item_list.clear();
    p.backpack_hard_capacity = 255;
    let text = save_person(&p).unwrap();
    assert!(text.contains("\n    <backpack hard_capacity=\"255\"/>\n</person>"));
    assert!(!text.contains("</backpack>"));
}

#[test]
fn backpack_with_entries_is_a_pair_with_one_group_each() {
    let text = save_person(&sample_person()).unwrap();
    assert!(text.contains("    <backpack hard_capacity=\"100\">\n"));
    assert!(text.contains("\n    </backpack>\n</person>"));
    let inside = text.split("<backpack").nth(1).unwrap();
    assert_eq!(inside.matches("<item_group ").count(), 2);
}

#[test]
fn stash_is_a_pair_whether_empty_or_not() {
    let mut p = sample_person();
    let with_entries = save_person(&p).unwrap();
    assert!(with_entries.contains("    <stash hard_capacity=\"300\">\n"));
    assert!(with_entries.contains("\n    </stash>\n"));
    p.stash_item_list.clear();
    let empty = save_person(&p).unwrap();
    assert!(empty.contains("    <stash hard_capacity=\"300\">\n    </stash>\n"));
    assert!(!empty.contains("<stash hard_capacity=\"300\"/>"));
}

#[test]
fn self_closing_backpack_keeps_the_default_capacity() {
    let mut p = Person::default();
    p.backpack_hard_capacity = 100;
    let first = save_person(&p).unwrap();
    assert!(first.contains("<backpack hard_capacity=\"100\"/>"));
    let decoded = extract_person(first.as_bytes()).unwrap();
    assert_eq!(decoded.backpack_hard_capacity, 255);
}

#[test]
fn missing_order_and_capacities_keep_their_defaults() {
    let decoded =
        extract_person(b"<person name=\"x\" unknown=\"1\"><stash></stash><backpack></backpack></person>")
            .unwrap();
    assert_eq!(decoded.name, "x");
    assert_eq!(decoded.order, OrderTag { moving: 0, target: String::new(), class: 0 });
    assert_eq!(decoded.stash_hard_capacity, 300);
    assert_eq!(decoded.backpack_hard_capacity, 255);
    assert_eq!(decoded.soldier_group_name, "default");
}

#[test]
fn item_group_goes_to_the_list_it_stands_in() {
    let content = b"<person>\n<item_group class=\"0\" index=\"1\" key=\"top\" amount=\"1\"/>\n<item slot=\"1\" index=\"2\" amount=\"1\" key=\"worn\"/>\n<stash hard_capacity=\"10\">\n<item_group class=\"0\" index=\"1\" key=\"s\" amount=\"4\"/>\n<item slot=\"1\" index=\"2\" amount=\"1\" key=\"inside\"/>\n</stash>\n<backpack hard_capacity=\"20\">\n<item_group class=\"2\" index=\"3\" key=\"b\" amount=\"5\"/>\n</backpack>\n<item_group class=\"0\" index=\"1\" key=\"after\" amount=\"1\"/>\n</person>";
    let decoded = extract_person(content).unwrap();
    assert_eq!(
        decoded.stash_item_list,
        vec![ItemGroupTag { class: 0, index: 1, key: String::from("s"), amount: 4 }]
    );
    assert_eq!(
        decoded.backpack_item_list,
        vec![ItemGroupTag { class: 2, index: 3, key: String::from("b"), amount: 5 }]
    );
    assert_eq!(
        decoded.item_list,
        vec![ItemTag { slot: 1, index: 2, amount: 1, key: String::from("worn") }]
    );
    assert_eq!(decoded.stash_hard_capacity, 10);
    assert_eq!(decoded.backpack_hard_capacity, 20);
}

#[test]
fn version_other_than_current_does_not_stop_decoding() {
    let decoded = extract_person(b"<person version=\"153\" name=\"old\"></person>").unwrap();
    assert_eq!(decoded.version, 153);
    assert_eq!(decoded.name, "old");
}

#[test]
fn person_from_a_reference_is_a_copy() {
    let p = sample_person();
    assert_eq!(Person::from(&p), p);
    assert_eq!(p.clone(), p);
    assert_eq!(Person::default().version, 154);
}
