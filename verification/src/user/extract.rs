//! Finding the profile that belongs to an account.
use vstd::prelude::*;
use vstd::string::*;
use crate::error::ErrorKind;
use crate::profile::model::Profile;
use crate::profile::model::ProfileView;
use crate::text::same_text;

verus! {

/// The views of a list of profiles with their ids.
pub open spec fn profile_entries(list: Seq<(u64, Profile)>) -> Seq<(u64, ProfileView)> {
    list.map_values(|e: (u64, Profile)| (e.0, e.1@))
}

/// The place of the first profile of the user `username`, or the length
/// of the list if there is none.
pub open spec fn first_profile_of(list: Seq<(u64, ProfileView)>, username: Seq<char>) -> int
    decreases list.len(),
{
    if list.len() == 0 || list[0].1.username == username {
        0
    } else {
        1 + first_profile_of(list.drop_first(), username)
    }
}

/// `first_profile_of` lies within the list, marks a profile of that user
/// if it lies inside, and no profile before it is of that user.
pub proof fn lemma_first_profile_of(list: Seq<(u64, ProfileView)>, username: Seq<char>)
    ensures
        0 <= first_profile_of(list, username) <= list.len(),
        first_profile_of(list, username) < list.len() ==> list[first_profile_of(
            list,
            username,
        )].1.username == username,
        forall|k: int|
            0 <= k < first_profile_of(list, username) ==> (#[trigger] list[k]).1.username
                != username,
    decreases list.len(),
{
    if list.len() == 0 || list[0].1.username == username {
    } else {
        let rest = list.drop_first();
        lemma_first_profile_of(rest, username);
        assert forall|k: int| 0 <= k < first_profile_of(list, username) implies (
        #[trigger] list[k]).1.username != username by {
            if k > 0 {
                assert(rest[k - 1] == list[k]);
            }
        }
    }
}

/// A place with no profile of that user before it that is the end of the
/// list or holds such a profile is `first_profile_of`.
pub proof fn lemma_first_profile_at(list: Seq<(u64, ProfileView)>, username: Seq<char>, i: int)
    requires
        0 <= i <= list.len(),
        forall|k: int| 0 <= k < i ==> (#[trigger] list[k]).1.username != username,
        i < list.len() ==> list[i].1.username == username,
    ensures
        first_profile_of(list, username) == i,
{
    lemma_first_profile_of(list, username);
    let f = first_profile_of(list, username);
    if f < i {
        assert(list[f].1.username == username);
    } else if f > i {
        assert(list[i].1.username != username);
    }
}

/// Does nothing.
pub fn extract_profile_list() {
}

/// The player id of the first profile whose user is `username`; `NotFound`
/// if there is none.
pub fn get_user_profile_id(username: &str, profiles: &Vec<(u64, Profile)>) -> (r: Result<
    u64,
    ErrorKind,
>)
    ensures
        match r {
            Ok(id) => first_profile_of(profile_entries(profiles@), username@) < profiles@.len()
                && id == profiles@[first_profile_of(profile_entries(profiles@), username@)].0,
            Err(e) => e == ErrorKind::NotFound && first_profile_of(
                profile_entries(profiles@),
                username@,
            ) == profiles@.len(),
        },
{
    let ghost entries = profile_entries(profiles@);
    let mut i: usize = 0;
    while i < profiles.len()
        invariant
            i <= profiles.len(),
            entries == profile_entries(profiles@),
            forall|k: int| 0 <= k < i ==> (#[trigger] entries[k]).1.username != username@,
        decreases profiles.len() - i,
    {
        assert(entries[i as int] == (profiles@[i as int].0, profiles@[i as int].1@));
        if same_text(profiles[i].1.username.as_str(), username) {
            proof {
                lemma_first_profile_at(entries, username@, i as int);
            }
            return Ok(profiles[i].0);
        }
        i = i + 1;
    }
    proof {
        lemma_first_profile_at(entries, username@, entries.len() as int);
    }
    Err(ErrorKind::NotFound)
}

} // verus!
