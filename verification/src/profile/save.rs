//! Changes to profiles.
use vstd::prelude::*;
use vstd::string::*;
use crate::profile::model::Profile;
use crate::profile::model::ProfileView;

verus! {

/// The views of a list of profiles with their ids.
pub open spec fn profile_views(list: Seq<(u64, Profile)>) -> Seq<(u64, ProfileView)> {
    list.map_values(|e: (u64, Profile)| (e.0, e.1@))
}

/// The profiles with their squad tag set to `squad_tag`, each with its id.
pub open spec fn with_squad_tag(list: Seq<(u64, ProfileView)>, squad_tag: Seq<char>) -> Seq<
    (u64, ProfileView),
> {
    list.map_values(|e: (u64, ProfileView)| (e.0, ProfileView { squad_tag, ..e.1 }))
}

/// Sets the squad tag of each profile. No profile is skipped.
pub fn update_profile_list_squad_tag(all_profile_list: &Vec<(u64, Profile)>, squad_tag: &str) -> (r:
    Vec<(u64, Profile)>)
    ensures
        profile_views(r@) == with_squad_tag(profile_views(all_profile_list@), squad_tag@),
{
    let mut updated: Vec<(u64, Profile)> = Vec::new();
    let mut i: usize = 0;
    while i < all_profile_list.len()
        invariant
            i <= all_profile_list.len(),
            updated.len() == i,
            forall|k: int|
                0 <= k < i ==> (#[trigger] updated@[k]).0 == all_profile_list@[k].0
                    && updated@[k].1@ == (ProfileView {
                    squad_tag: squad_tag@,
                    ..all_profile_list@[k].1@
                }),
        decreases all_profile_list.len() - i,
    {
        let mut changed = all_profile_list[i].1.clone();
        changed.squad_tag = String::from_str(squad_tag);
        updated.push((all_profile_list[i].0, changed));
        i = i + 1;
    }
    assert(profile_views(updated@) =~= with_squad_tag(
        profile_views(all_profile_list@),
        squad_tag@,
    ));
    updated
}

} // verus!
