//! The changes that a caller may ask of one person.
//!
//! Each takes a decoded person and hands back the changed person, ready to
//! be encoded, or the reason why the person was left as it is.
use vstd::prelude::*;
use vstd::string::*;
use crate::decimal::saturated;
use crate::decimal::Decimal;
use crate::error::ErrorKind;
use crate::person::inventory::combined_count;
use crate::person::inventory::exceeds_capacity;
use crate::person::inventory::key_views;
use crate::person::inventory::merge_groups;
use crate::person::inventory::merged;
use crate::person::inventory::remove_keys;
use crate::person::inventory::vacate_keys;
use crate::person::inventory::vacated;
use crate::person::inventory::without_keys;
use crate::person::model::group_views;
use crate::person::model::ItemGroupTag;
use crate::person::model::ItemGroupTagView;
use crate::person::model::Person;
use crate::person::model::PersonView;

verus! {

/// The authority of five stars, 11.098661, in millionths.
pub const FIVE_STARS_AUTHORITY: i64 = 11_098_661;

/// A person after `incoming` was inserted into its backpack, or
/// `CapacityExceeded` where the combined count is above the hard capacity of
/// the backpack.
pub open spec fn inserted(p: PersonView, incoming: Seq<ItemGroupTagView>) -> Result<
    PersonView,
    ErrorKind,
> {
    if combined_count(p.backpack_item_list, incoming) > p.backpack_hard_capacity {
        Err(ErrorKind::CapacityExceeded)
    } else {
        Ok(PersonView { backpack_item_list: merged(p.backpack_item_list, incoming), ..p })
    }
}

/// A person after the items of the keys `keys` were deleted: gone from
/// backpack and stash, vacated where equipped.
pub open spec fn deleted(p: PersonView, keys: Seq<Seq<char>>) -> PersonView {
    PersonView {
        backpack_item_list: without_keys(p.backpack_item_list, keys),
        stash_item_list: without_keys(p.stash_item_list, keys),
        item_list: vacated(p.item_list, keys),
        ..p
    }
}

/// A person with its backpack replaced by `list`, or `CapacityExceeded`
/// where `list` is longer than the hard capacity of the backpack.
pub open spec fn with_backpack(p: PersonView, list: Seq<ItemGroupTagView>) -> Result<
    PersonView,
    ErrorKind,
> {
    if list.len() > p.backpack_hard_capacity {
        Err(ErrorKind::CapacityExceeded)
    } else {
        Ok(PersonView { backpack_item_list: list, ..p })
    }
}

/// A person with its stash replaced by `list`, or `CapacityExceeded` where
/// `list` is longer than the hard capacity of the stash.
pub open spec fn with_stash(p: PersonView, list: Seq<ItemGroupTagView>) -> Result<
    PersonView,
    ErrorKind,
> {
    if list.len() > p.stash_hard_capacity {
        Err(ErrorKind::CapacityExceeded)
    } else {
        Ok(PersonView { stash_item_list: list, ..p })
    }
}

/// A person moved to the soldier group `group` for `cost` job points, or
/// `InsufficientBalance` where it has fewer job points than `cost`.
pub open spec fn regrouped(p: PersonView, group: Seq<char>, cost: Decimal) -> Result<
    PersonView,
    ErrorKind,
> {
    if p.job_points.micros < cost.micros {
        Err(ErrorKind::InsufficientBalance)
    } else {
        Ok(
            PersonView {
                job_points: Decimal {
                    micros: saturated(p.job_points.micros - cost.micros) as i64,
                },
                soldier_group_name: group,
                ..p
            },
        )
    }
}

/// A person with its authority, and the highest authority it reached, set
/// to `authority`.
pub open spec fn with_authority(p: PersonView, authority: Decimal) -> PersonView {
    PersonView { max_authority_reached: authority, authority, ..p }
}

/// Checks that both grouped lists of `person` are within their hard
/// capacities: `CapacityExceeded` if one is not.
pub fn check_capacity(person: &Person) -> (r: Result<(), ErrorKind>)
    ensures
        r is Ok <==> person@.within_capacity(),
        r matches Err(e) ==> e == ErrorKind::CapacityExceeded,
{
    if person.backpack_item_list.len() > person.backpack_hard_capacity as usize
        || person.stash_item_list.len() > person.stash_hard_capacity as usize {
        Err(ErrorKind::CapacityExceeded)
    } else {
        Ok(())
    }
}

/// Inserts `incoming` into the backpack of `person`.
///
/// The person is left as it is, with `CapacityExceeded`, where the amounts
/// of the entries that `incoming` touches, plus the amounts of `incoming`,
/// are above the hard capacity of the backpack.
pub fn insert_backpack(person: &Person, incoming: &Vec<ItemGroupTag>) -> (r: Result<
    Person,
    ErrorKind,
>)
    ensures
        match r {
            Ok(q) => inserted(person@, group_views(incoming@)) == Ok::<PersonView, ErrorKind>(q@),
            Err(e) => inserted(person@, group_views(incoming@)) == Err::<PersonView, ErrorKind>(
                e,
            ),
        },
{
    if exceeds_capacity(&person.backpack_item_list, incoming, person.backpack_hard_capacity) {
        return Err(ErrorKind::CapacityExceeded);
    }
    let mut changed = person.clone();
    changed.backpack_item_list = merge_groups(&person.backpack_item_list, incoming);
    Ok(changed)
}

/// Deletes the items of the keys `keys` from `person`.
pub fn delete_items(person: &Person, keys: &Vec<String>) -> (r: Person)
    ensures
        r@ == deleted(person@, key_views(keys@)),
{
    let mut changed = person.clone();
    changed.backpack_item_list = remove_keys(&person.backpack_item_list, keys);
    changed.stash_item_list = remove_keys(&person.stash_item_list, keys);
    changed.item_list = vacate_keys(&person.item_list, keys);
    changed
}

/// Replaces the backpack of `person` by `list`.
pub fn update_backpack(person: Person, list: Vec<ItemGroupTag>) -> (r: Result<Person, ErrorKind>)
    ensures
        match r {
            Ok(q) => with_backpack(person@, group_views(list@)) == Ok::<PersonView, ErrorKind>(
                q@,
            ),
            Err(e) => with_backpack(person@, group_views(list@)) == Err::<PersonView, ErrorKind>(
                e,
            ),
        },
{
    if list.len() > person.backpack_hard_capacity as usize {
        return Err(ErrorKind::CapacityExceeded);
    }
    let mut changed = person;
    changed.backpack_item_list = list;
    Ok(changed)
}

/// Replaces the stash of `person` by `list`.
pub fn update_stash(person: Person, list: Vec<ItemGroupTag>) -> (r: Result<Person, ErrorKind>)
    ensures
        match r {
            Ok(q) => with_stash(person@, group_views(list@)) == Ok::<PersonView, ErrorKind>(q@),
            Err(e) => with_stash(person@, group_views(list@)) == Err::<PersonView, ErrorKind>(e),
        },
{
    if list.len() > person.stash_hard_capacity as usize {
        return Err(ErrorKind::CapacityExceeded);
    }
    let mut changed = person;
    changed.stash_item_list = list;
    Ok(changed)
}

/// Moves `person` to the soldier group `group` for `cost` job points.
///
/// The person is left as it is, with `InsufficientBalance`, where it has
/// fewer job points than `cost`.
pub fn update_soldier_group(person: &Person, group: &str, cost: Decimal) -> (r: Result<
    Person,
    ErrorKind,
>)
    ensures
        match r {
            Ok(q) => regrouped(person@, group@, cost) == Ok::<PersonView, ErrorKind>(q@),
            Err(e) => regrouped(person@, group@, cost) == Err::<PersonView, ErrorKind>(e),
        },
{
    if person.job_points.lt(&cost) {
        return Err(ErrorKind::InsufficientBalance);
    }
    let mut changed = person.clone();
    changed.job_points = person.job_points.saturating_sub(&cost);
    changed.soldier_group_name = String::from_str(group);
    Ok(changed)
}

/// Moves `person` to the soldier group `group_type`, at no cost.
pub fn update_group_type(person: Person, group_type: String) -> (r: Person)
    ensures
        r@ == (PersonView { soldier_group_name: group_type@, ..person@ }),
{
    let mut changed = person;
    changed.soldier_group_name = group_type;
    changed
}

/// Sets the authority of `person`, and the highest authority it reached,
/// to `authority`.
pub fn reset_xp(person: Person, authority: Decimal) -> (r: Person)
    ensures
        r@ == with_authority(person@, authority),
{
    let mut changed = person;
    changed.max_authority_reached = authority;
    changed.authority = authority;
    changed
}

/// Sets the authority of `person`, and the highest authority it reached,
/// to that of five stars.
pub fn reset_xp_5_starts(person: Person) -> (r: Person)
    ensures
        r@ == with_authority(person@, Decimal { micros: FIVE_STARS_AUTHORITY }),
{
    reset_xp(person, Decimal { micros: FIVE_STARS_AUTHORITY })
}

} // verus!
