use rwr_profile::batch::decode_persons;
use rwr_profile::batch::extract_all_person;
use rwr_profile::batch::extract_all_person_and_profiles;
use rwr_profile::batch::file_id;
use rwr_profile::batch::file_ids;
use rwr_profile::batch::join_persons;
use rwr_profile::batch::join_persons_and_profiles;
use rwr_profile::batch::person_file_name;
use rwr_profile::batch::person_id;
use rwr_profile::batch::profile_file_name;
use rwr_profile::batch::profile_id;
use rwr_profile::error::ErrorKind;
use rwr_profile::person::extract::extract_person;
use rwr_profile::person::model::Person;
use rwr_profile::person::save::save_person;
use rwr_profile::profile::extract::extract_profile;
use rwr_profile::profile::model::Profile;

#[test]
fn id_is_the_number_before_the_first_dot() {
    assert_eq!(profile_id("123.profile"), Some(123));
    assert_eq!(person_id("123.person"), Some(123));
    assert_eq!(profile_id("123.bak.profile"), Some(123));
    assert_eq!(profile_id("0042.profile"), Some(42));
    assert_eq!(profile_id("18446744073709551615.profile"), Some(u64::MAX));
}

#[test]
fn names_that_give_no_id() {
    assert_eq!(profile_id("123.person"), None);
    assert_eq!(person_id("123.profile"), None);
    assert_eq!(profile_id("abc.profile"), None);
    assert_eq!(profile_id(".profile"), None);
    assert_eq!(profile_id("profile"), None);
    assert_eq!(profile_id(""), None);
    assert_eq!(profile_id("-1.profile"), None);
    assert_eq!(profile_id("18446744073709551616.profile"), None);
    assert_eq!(profile_id("12.profile.bak"), None);
    assert_eq!(profile_id("１２.profile"), None);
    assert_eq!(file_id("7.x", ".x"), Some(7));
    assert_eq!(file_id("7é.x", ".x"), None);
    assert_eq!(file_id("7.é.x", ".x"), Some(7));
}

#[test]
fn file_names_are_the_id_and_the_suffix() {
    assert_eq!(person_file_name(0), "0.person");
    assert_eq!(person_file_name(1234567890), "1234567890.person");
    assert_eq!(profile_file_name(u64::MAX), "18446744073709551615.profile");
}

#[test]
fn file_name_of_an_id_gives_the_id_back() {
    for id in [0u64, 1, 9, 10, 99, 4294967296, u64::MAX] {
        assert_eq!(person_id(&person_file_name(id)), Some(id));
        assert_eq!(profile_id(&profile_file_name(id)), Some(id));
    }
}

#[test]
fn ids_come_in_the_order_of_the_names() {
    let names = vec![
        String::from("30.profile"),
        String::from("readme.txt"),
        String::from("4.profile"),
        String::from("4.person"),
        String::from("x.profile"),
        String::from("17.profile"),
    ];
    assert_eq!(file_ids(&names, ".profile"), vec![30, 4, 17]);
    assert_eq!(file_ids(&names, ".person"), vec![4]);
    assert_eq!(file_ids(&vec![], ".person"), Vec::<u64>::new());
}

#[test]
fn one_corrupted_file_of_a_hundred_fails_the_batch() {
    let good = save_person(&Person::default()).unwrap();
    let profile_text = "<profile game_version=\"154\" username=\"u\"><stats kills=\"1\"></stats></profile>";
    let ids: Vec<u64> = (1..=100).collect();
    let mut persons = Vec::new();
    let mut profiles = Vec::new();
    for id in ids.iter() {
        if *id == 57 {
            persons.push(extract_person(b"<person alive=\"yes\">"));
        } else {
            persons.push(extract_person(good.as_bytes()));
        }
        profiles.push(extract_profile(profile_text.as_bytes()));
    }
    assert_eq!(persons.iter().filter(|r| r.is_ok()).count(), 99);
    assert_eq!(
        join_persons_and_profiles(&ids, &persons, &profiles).err(),
        Some(ErrorKind::ParseError)
    );
    assert_eq!(join_persons(&ids, &persons).err(), Some(ErrorKind::ParseError));
    persons[56] = extract_person(good.as_bytes());
    let all = join_persons_and_profiles(&ids, &persons, &profiles).unwrap();
    assert_eq!(all.len(), 100);
    for (i, entry) in all.iter().enumerate() {
        assert_eq!(entry.0, ids[i]);
        assert_eq!(entry.2.username, "u");
    }
}

#[test]
fn first_failure_in_id_order_is_reported() {
    let ids = vec![5u64, 6, 7];
    let persons = vec![Ok(Person::default()), Err(ErrorKind::IOError), Err(ErrorKind::NotFound)];
    let profiles = vec![Err(ErrorKind::ParseError), Ok(Profile::default()), Ok(Profile::default())];
    assert_eq!(
        join_persons_and_profiles(&ids, &persons, &profiles).err(),
        Some(ErrorKind::ParseError)
    );
    assert_eq!(join_persons(&ids, &persons).err(), Some(ErrorKind::IOError));
    let profiles = vec![Ok(Profile::default()), Err(ErrorKind::ParseError), Ok(Profile::default())];
    assert_eq!(
        join_persons_and_profiles(&ids, &persons, &profiles).err(),
        Some(ErrorKind::IOError)
    );
}

#[test]
fn missing_entity_fails_the_batch() {
    let ids = vec![5u64, 6];
    let persons = vec![Ok(Person::default())];
    let profiles = vec![Ok(Profile::default()), Ok(Profile::default())];
    assert_eq!(
        join_persons_and_profiles(&ids, &persons, &profiles).err(),
        Some(ErrorKind::NotFound)
    );
    assert_eq!(join_persons(&ids, &persons).err(), Some(ErrorKind::NotFound));
}

#[test]
fn joined_entries_keep_the_order_of_the_ids() {
    let ids = vec![9u64, 3, 5];
    let mut a = Person::default();
    a.name = String::from("a");
    let mut b = Person::default();
    b.name = String::from("b");
    let mut c = Person::default();
    c.name = String::from("c");
    let persons = vec![Ok(a), Ok(b), Ok(c)];
    let joined = join_persons(&ids, &persons).unwrap();
    assert_eq!(joined.iter().map(|e| e.0).collect::<Vec<u64>>(), vec![9, 3, 5]);
    assert_eq!(joined[1].1.name, "b");
    assert_eq!(join_persons(&vec![], &vec![]).unwrap(), vec![]);
}

#[test]
fn batch_from_file_contents_is_all_or_nothing() {
    let good = save_person(&Person::default()).unwrap().into_bytes();
    let profile = b"<profile username=\"u\"></profile>".to_vec();
    let ids = vec![3u64, 1, 2];
    let persons = vec![Ok(good.clone()), Ok(good.clone()), Ok(good.clone())];
    let profiles = vec![Ok(profile.clone()), Ok(profile.clone()), Ok(profile.clone())];
    let all = extract_all_person_and_profiles(&ids, &persons, &profiles).unwrap();
    assert_eq!(all.iter().map(|e| e.0).collect::<Vec<u64>>(), vec![3, 1, 2]);
    assert_eq!(extract_all_person(&ids, &persons).unwrap().len(), 3);

    let missing = vec![Ok(good.clone()), Err(ErrorKind::NotFound), Ok(good.clone())];
    assert_eq!(extract_all_person(&ids, &missing).err(), Some(ErrorKind::NotFound));
    assert_eq!(
        extract_all_person_and_profiles(&ids, &missing, &profiles).err(),
        Some(ErrorKind::NotFound)
    );
    let corrupted = vec![Ok(good.clone()), Ok(good), Ok(b"<person><x></person>".to_vec())];
    assert_eq!(extract_all_person(&ids, &corrupted).err(), Some(ErrorKind::ParseError));
    let unreadable = vec![Ok(profile.clone()), Ok(profile), Err(ErrorKind::IOError)];
    assert_eq!(
        extract_all_person_and_profiles(&ids, &persons, &unreadable).err(),
        Some(ErrorKind::IOError)
    );
    let decoded = decode_persons(&corrupted);
    assert_eq!(decoded.iter().filter(|r| r.is_ok()).count(), 2);
}
