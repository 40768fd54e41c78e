use rwr_profile::error::ErrorKind;
use rwr_profile::model::ResponseJson;
use rwr_profile::profile::model::Profile;
use rwr_profile::user::extract::extract_profile_list;
use rwr_profile::user::extract::get_user_profile_id;
use rwr_profile::user::model::User;
use rwr_profile::user::model::Users;
use rwr_profile::user::utils::check_user_in_user_list;
use rwr_profile::user::utils::get_user_id_in_profiles;
use rwr_profile::user::utils::get_user_info;
use rwr_profile::user::utils::register_user;
use rwr_profile::user::utils::RegisterError;
use rwr_profile::user::utils::validate_user;

fn users() -> Users {
    Users {
        user_list: vec![
            User { name: String::from("ann"), user_id: 1, password: String::from("pw1"), admin: 1 },
            User { name: String::from("bob"), user_id: 2, password: String::from("pw2"), admin: 0 },
            User { name: String::from("ann"), user_id: 3, password: String::from("pw3"), admin: 0 },
        ],
    }
}

#[test]
fn name_and_password_must_belong_to_one_account() {
    assert_eq!(validate_user("ann", "pw1", &users()), Ok(()));
    assert_eq!(validate_user("ann", "pw3", &users()), Ok(()));
    assert_eq!(validate_user("ann", "pw2", &users()), Err(ErrorKind::NotFound));
    assert_eq!(validate_user("eve", "pw1", &users()), Err(ErrorKind::NotFound));
    assert_eq!(validate_user("", "", &Users { user_list: vec![] }), Err(ErrorKind::NotFound));
}

#[test]
fn user_info_is_that_of_the_first_account_of_the_name() {
    let found = get_user_info("ann", &users()).unwrap();
    assert_eq!(
        found,
        User { name: String::from("ann"), user_id: 1, password: String::from("pw1"), admin: 1 }
    );
    assert_eq!(get_user_info("bob", &users()).unwrap().user_id, 2);
    assert_eq!(get_user_info("eve", &users()).err(), Some(ErrorKind::NotFound));
}

#[test]
fn user_list_is_searched_by_name() {
    assert!(check_user_in_user_list("bob", &users()));
    assert!(!check_user_in_user_list("Bob", &users()));
}

#[test]
fn every_name_may_claim_a_profile() {
    assert_eq!(get_user_id_in_profiles("anyone", "/tmp"), Ok(true));
    extract_profile_list();
}

#[test]
fn profile_id_is_that_of_the_first_profile_of_the_user() {
    let mut a = Profile::default();
    a.username = String::from("ANN");
    let mut b = Profile::default();
    b.username = String::from("BOB");
    let profiles = vec![(10u64, a.clone()), (20u64, b), (30u64, a)];
    assert_eq!(get_user_profile_id("BOB", &profiles), Ok(20));
    assert_eq!(get_user_profile_id("ANN", &profiles), Ok(10));
    assert_eq!(get_user_profile_id("EVE", &profiles), Err(ErrorKind::NotFound));
}

#[test]
fn default_user_is_empty() {
    assert_eq!(
        User::default(),
        User { name: String::new(), user_id: 0, password: String::new(), admin: 0 }
    );
}

#[test]
fn responses_carry_status_code_and_message() {
    assert_eq!(
        ResponseJson::default(),
        ResponseJson { status: 200, code: 0, message: String::from("ok") }
    );
    assert_eq!(
        ResponseJson::new("hello"),
        ResponseJson { status: 200, code: 0, message: String::from("hello") }
    );
    assert_eq!(
        ResponseJson::default().set_err_msg("bad"),
        ResponseJson { status: 400, code: -1, message: String::from("bad") }
    );
    assert_eq!(
        ResponseJson::default().set_err_msg("bad").set_successful_msg("fine"),
        ResponseJson { status: 200, code: 0, message: String::from("fine") }
    );
}

#[test]
fn registration_needs_a_free_name_and_a_profile() {
    let mut a = Profile::default();
    a.username = String::from("ann");
    let mut c = Profile::default();
    c.username = String::from("cat");
    let profiles = vec![(10u64, a), (30u64, c)];
    assert_eq!(register_user("cat", &users(), &profiles), Ok(30));
    assert_eq!(register_user("ann", &users(), &profiles), Err(RegisterError::AlreadyExists));
    assert_eq!(register_user("bob", &users(), &profiles), Err(RegisterError::AlreadyExists));
    assert_eq!(register_user("dan", &users(), &profiles), Err(RegisterError::NoProfile));
}
