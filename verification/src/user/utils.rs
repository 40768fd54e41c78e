//! Lookups in the account store.
use vstd::prelude::*;
use vstd::string::*;
use crate::error::ErrorKind;
use crate::profile::model::Profile;
use crate::user::extract::first_profile_of;
use crate::user::extract::get_user_profile_id;
use crate::user::extract::profile_entries;
use crate::text::same_text;
use crate::user::model::User;
use crate::user::model::UserView;
use crate::user::model::Users;

verus! {

/// The place of the first account named `username`, or the number of
/// accounts if there is none.
pub open spec fn first_named(users: Seq<UserView>, username: Seq<char>) -> int
    decreases users.len(),
{
    if users.len() == 0 || users[0].name == username {
        0
    } else {
        1 + first_named(users.drop_first(), username)
    }
}

/// Whether some account has this name and this password.
pub open spec fn has_credentials(users: Seq<UserView>, username: Seq<char>, password: Seq<char>)
    -> bool {
    exists|i: int|
        0 <= i < users.len() && (#[trigger] users[i]).name == username && users[i].password
            == password
}

/// `first_named` lies within the list, marks an account of that name if it
/// lies inside, and no account before it has that name.
pub proof fn lemma_first_named(users: Seq<UserView>, username: Seq<char>)
    ensures
        0 <= first_named(users, username) <= users.len(),
        first_named(users, username) < users.len() ==> users[first_named(users, username)].name
            == username,
        forall|k: int|
            0 <= k < first_named(users, username) ==> (#[trigger] users[k]).name != username,
    decreases users.len(),
{
    if users.len() == 0 || users[0].name == username {
    } else {
        let rest = users.drop_first();
        lemma_first_named(rest, username);
        assert forall|k: int| 0 <= k < first_named(users, username) implies (
        #[trigger] users[k]).name != username by {
            if k > 0 {
                assert(rest[k - 1] == users[k]);
            }
        }
    }
}

/// A place with no account of that name before it that is the end of the
/// list or holds such an account is `first_named`.
pub proof fn lemma_first_named_at(users: Seq<UserView>, username: Seq<char>, i: int)
    requires
        0 <= i <= users.len(),
        forall|k: int| 0 <= k < i ==> (#[trigger] users[k]).name != username,
        i < users.len() ==> users[i].name == username,
    ensures
        first_named(users, username) == i,
{
    lemma_first_named(users, username);
    let f = first_named(users, username);
    if f < i {
        assert(users[f].name == username);
    } else if f > i {
        assert(users[i].name != username);
    }
}

/// Checks a name and a password against the account store: `Ok` if some
/// account has both, `NotFound` otherwise.
pub fn validate_user(username: &str, password: &str, users: &Users) -> (r: Result<(), ErrorKind>)
    ensures
        r is Ok <==> has_credentials(users@, username@, password@),
        r matches Err(e) ==> e == ErrorKind::NotFound,
{
    let mut i: usize = 0;
    while i < users.user_list.len()
        invariant
            i <= users.user_list.len(),
            forall|k: int|
                0 <= k < i ==> !((#[trigger] users@[k]).name == username@ && users@[k].password
                    == password@),
        decreases users.user_list.len() - i,
    {
        let user = &users.user_list[i];
        assert(users@[i as int] == user@);
        if same_text(user.name.as_str(), username) && same_text(
            password,
            user.password.as_str(),
        ) {
            return Ok(());
        }
        i = i + 1;
    }
    Err(ErrorKind::NotFound)
}

/// The first account named `username`; `NotFound` if there is none.
pub fn get_user_info(username: &str, users: &Users) -> (r: Result<User, ErrorKind>)
    ensures
        match r {
            Ok(user) => first_named(users@, username@) < users@.len() && user@
                == users@[first_named(users@, username@)],
            Err(e) => e == ErrorKind::NotFound && first_named(users@, username@) == users@.len(),
        },
{
    let mut i: usize = 0;
    while i < users.user_list.len()
        invariant
            i <= users.user_list.len(),
            forall|k: int| 0 <= k < i ==> (#[trigger] users@[k]).name != username@,
        decreases users.user_list.len() - i,
    {
        let user = &users.user_list[i];
        assert(users@[i as int] == user@);
        if same_text(user.name.as_str(), username) {
            proof {
                lemma_first_named_at(users@, username@, i as int);
            }
            return Ok(
                User {
                    name: user.name.clone(),
                    password: user.password.clone(),
                    admin: user.admin,
                    user_id: user.user_id,
                },
            );
        }
        i = i + 1;
    }
    proof {
        lemma_first_named_at(users@, username@, users@.len() as int);
    }
    Err(ErrorKind::NotFound)
}

/// Whether some account is named `username`.
pub fn check_user_in_user_list(username: &str, users: &Users) -> (r: bool)
    ensures
        r == (first_named(users@, username@) < users@.len()),
{
    let mut i: usize = 0;
    while i < users.user_list.len()
        invariant
            i <= users.user_list.len(),
            forall|k: int| 0 <= k < i ==> (#[trigger] users@[k]).name != username@,
        decreases users.user_list.len() - i,
    {
        let user = &users.user_list[i];
        assert(users@[i as int] == user@);
        if same_text(user.name.as_str(), username) {
            proof {
                lemma_first_named_at(users@, username@, i as int);
            }
            return true;
        }
        i = i + 1;
    }
    proof {
        lemma_first_named_at(users@, username@, users@.len() as int);
    }
    false
}

/// Whether a profile of that name may be claimed. Every name may.
pub fn get_user_id_in_profiles(username: &str, profile_path: &str) -> (r: Result<bool, ErrorKind>)
    ensures
        r == Ok::<bool, ErrorKind>(true),
{
    Ok(true)
}

/// Why an account could not be registered.
#[derive(Debug, Clone, Copy, PartialEq, Eq, Structural)]
pub enum RegisterError {
    /// An account of that name exists already.
    AlreadyExists,
    /// No profile belongs to a user of that name.
    NoProfile,
}

/// Finds the player id for a new account: that of the first profile whose
/// user is `username`. Fails with `AlreadyExists` where an account of that
/// name exists, and else with `NoProfile` where no profile is of that user.
pub fn register_user(username: &str, users: &Users, profiles: &Vec<(u64, Profile)>) -> (r: Result<
    u64,
    RegisterError,
>)
    ensures
        match r {
            Ok(id) => first_named(users@, username@) == users@.len() && first_profile_of(
                profile_entries(profiles@),
                username@,
            ) < profiles@.len() && id == profiles@[first_profile_of(
                profile_entries(profiles@),
                username@,
            )].0,
            Err(e) => if first_named(users@, username@) < users@.len() {
                e == RegisterError::AlreadyExists
            } else {
                e == RegisterError::NoProfile && first_profile_of(
                    profile_entries(profiles@),
                    username@,
                ) == profiles@.len()
            },
        },
{
    if check_user_in_user_list(username, users) {
        return Err(RegisterError::AlreadyExists);
    }
    proof {
        lemma_first_named(users@, username@);
    }
    match get_user_profile_id(username, profiles) {
        Ok(id) => Ok(id),
        Err(_) => Err(RegisterError::NoProfile),
    }
}

} // verus!
