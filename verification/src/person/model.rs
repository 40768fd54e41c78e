//! The person entity and its sub-records.
use vstd::prelude::*;
use crate::constant::MAX_DEFAULT_BACKPACK_LEN;
use crate::constant::MAX_DEFAULT_STASH_LEN;
use crate::constant::MAX_PERSON_FILE_VERSION;
use crate::decimal::Decimal;

verus! {

/// One physical item of an ungrouped inventory list, as files older than
/// the current schema hold them.
#[derive(Debug, PartialEq, Eq)]
pub struct StashItemTag {
    pub class: i8,
    pub index: i32,
    pub key: String,
}

/// What a `StashItemTag` is to contracts.
pub struct StashItemTagView {
    pub class: i8,
    pub index: i32,
    pub key: Seq<char>,
}

/// One stack of identical items in a backpack or stash.
#[derive(Debug, PartialEq, Eq)]
pub struct ItemGroupTag {
    pub class: i8,
    pub index: i32,
    pub key: String,
    pub amount: u64,
}

/// What an `ItemGroupTag` is to contracts.
pub struct ItemGroupTagView {
    pub class: i8,
    pub index: i32,
    pub key: Seq<char>,
    pub amount: u64,
}

/// One equipped slot.
#[derive(Debug, PartialEq, Eq)]
pub struct ItemTag {
    pub slot: i8,
    pub index: i32,
    pub amount: i8,
    pub key: String,
}

/// What an `ItemTag` is to contracts.
pub struct ItemTagView {
    pub slot: i8,
    pub index: i32,
    pub amount: i8,
    pub key: Seq<char>,
}

/// The standing order of a person.
#[derive(Debug, PartialEq, Eq)]
pub struct OrderTag {
    pub moving: i32,
    pub target: String,
    pub class: i8,
}

/// What an `OrderTag` is to contracts.
pub struct OrderTagView {
    pub moving: i32,
    pub target: Seq<char>,
    pub class: i8,
}

/// A player's save entity.
#[derive(Debug, PartialEq, Eq)]
pub struct Person {
    pub max_authority_reached: Decimal,
    pub authority: Decimal,
    pub job_points: Decimal,
    pub faction: String,
    pub name: String,
    pub version: u16,
    pub alive: i8,
    pub soldier_group_id: i8,
    pub soldier_group_name: String,
    pub block: String,
    pub squad_size_setting: Decimal,
    pub order: OrderTag,
    pub item_list: Vec<ItemTag>,
    /// Most entries that `backpack_item_list` may hold.
    pub backpack_hard_capacity: u16,
    /// Most entries that `stash_item_list` may hold.
    pub stash_hard_capacity: u16,
    pub backpack_item_list: Vec<ItemGroupTag>,
    pub stash_item_list: Vec<ItemGroupTag>,
}

/// What a `Person` is to contracts.
pub struct PersonView {
    pub max_authority_reached: Decimal,
    pub authority: Decimal,
    pub job_points: Decimal,
    pub faction: Seq<char>,
    pub name: Seq<char>,
    pub version: u16,
    pub alive: i8,
    pub soldier_group_id: i8,
    pub soldier_group_name: Seq<char>,
    pub block: Seq<char>,
    pub squad_size_setting: Decimal,
    pub order: OrderTagView,
    pub item_list: Seq<ItemTagView>,
    pub backpack_hard_capacity: u16,
    pub stash_hard_capacity: u16,
    pub backpack_item_list: Seq<ItemGroupTagView>,
    pub stash_item_list: Seq<ItemGroupTagView>,
}

impl View for StashItemTag {
    type V = StashItemTagView;

    open spec fn view(&self) -> StashItemTagView {
        StashItemTagView { class: self.class, index: self.index, key: self.key@ }
    }
}

impl View for ItemGroupTag {
    type V = ItemGroupTagView;

    open spec fn view(&self) -> ItemGroupTagView {
        ItemGroupTagView {
            class: self.class,
            index: self.index,
            key: self.key@,
            amount: self.amount,
        }
    }
}

impl View for ItemTag {
    type V = ItemTagView;

    open spec fn view(&self) -> ItemTagView {
        ItemTagView { slot: self.slot, index: self.index, amount: self.amount, key: self.key@ }
    }
}

impl View for OrderTag {
    type V = OrderTagView;

    open spec fn view(&self) -> OrderTagView {
        OrderTagView { moving: self.moving, target: self.target@, class: self.class }
    }
}

/// The views of a list of ungrouped items.
pub open spec fn stash_item_views(list: Seq<StashItemTag>) -> Seq<StashItemTagView> {
    list.map_values(|item: StashItemTag| item@)
}

/// The views of a list of grouped entries.
pub open spec fn group_views(list: Seq<ItemGroupTag>) -> Seq<ItemGroupTagView> {
    list.map_values(|item: ItemGroupTag| item@)
}

/// The views of a list of equipped slots.
pub open spec fn item_views(list: Seq<ItemTag>) -> Seq<ItemTagView> {
    list.map_values(|item: ItemTag| item@)
}

impl View for Person {
    type V = PersonView;

    open spec fn view(&self) -> PersonView {
        PersonView {
            max_authority_reached: self.max_authority_reached,
            authority: self.authority,
            job_points: self.job_points,
            faction: self.faction@,
            name: self.name@,
            version: self.version,
            alive: self.alive,
            soldier_group_id: self.soldier_group_id,
            soldier_group_name: self.soldier_group_name@,
            block: self.block@,
            squad_size_setting: self.squad_size_setting,
            order: self.order@,
            item_list: item_views(self.item_list@),
            backpack_hard_capacity: self.backpack_hard_capacity,
            stash_hard_capacity: self.stash_hard_capacity,
            backpack_item_list: group_views(self.backpack_item_list@),
            stash_item_list: group_views(self.stash_item_list@),
        }
    }
}

/// The order of a person whose file gives none.
pub open spec fn default_order() -> OrderTagView {
    OrderTagView { moving: 0, target: Seq::<char>::empty(), class: 0 }
}

/// The person that decoding starts from: every field at its default.
pub open spec fn default_person() -> PersonView {
    PersonView {
        max_authority_reached: Decimal { micros: 0 },
        authority: Decimal { micros: 0 },
        job_points: Decimal { micros: 0 },
        faction: Seq::<char>::empty(),
        name: Seq::<char>::empty(),
        version: MAX_PERSON_FILE_VERSION,
        alive: 0,
        soldier_group_id: 0,
        soldier_group_name: "default"@,
        block: Seq::<char>::empty(),
        squad_size_setting: Decimal { micros: 0 },
        order: default_order(),
        item_list: Seq::<ItemTagView>::empty(),
        backpack_hard_capacity: MAX_DEFAULT_BACKPACK_LEN,
        stash_hard_capacity: MAX_DEFAULT_STASH_LEN,
        backpack_item_list: Seq::<ItemGroupTagView>::empty(),
        stash_item_list: Seq::<ItemGroupTagView>::empty(),
    }
}

impl PersonView {
    /// Whether both grouped lists are within their hard capacities.
    pub open spec fn within_capacity(self) -> bool {
        self.backpack_item_list.len() <= self.backpack_hard_capacity
            && self.stash_item_list.len() <= self.stash_hard_capacity
    }
}

/// Whether no key occurs twice in a grouped list.
pub open spec fn unique_keys(list: Seq<ItemGroupTagView>) -> bool {
    forall|i: int, j: int|
        0 <= i < j < list.len() ==> (#[trigger] list[i]).key != (#[trigger] list[j]).key
}

impl Clone for StashItemTag {
    fn clone(&self) -> (r: Self)
        ensures
            r@ == self@,
    {
        StashItemTag { class: self.class, index: self.index, key: self.key.clone() }
    }
}

impl Clone for ItemGroupTag {
    fn clone(&self) -> (r: Self)
        ensures
            r@ == self@,
    {
        ItemGroupTag {
            class: self.class,
            index: self.index,
            key: self.key.clone(),
            amount: self.amount,
        }
    }
}

impl Clone for ItemTag {
    fn clone(&self) -> (r: Self)
        ensures
            r@ == self@,
    {
        ItemTag {
            slot: self.slot,
            index: self.index,
            amount: self.amount,
            key: self.key.clone(),
        }
    }
}

impl Clone for OrderTag {
    fn clone(&self) -> (r: Self)
        ensures
            r@ == self@,
    {
        OrderTag { moving: self.moving, target: self.target.clone(), class: self.class }
    }
}

/// A copy of a list of grouped entries.
pub fn clone_groups(list: &Vec<ItemGroupTag>) -> (r: Vec<ItemGroupTag>)
    ensures
        group_views(r@) == group_views(list@),
{
    let mut out: Vec<ItemGroupTag> = Vec::new();
    let mut i: usize = 0;
    while i < list.len()
        invariant
            i <= list.len(),
            out.len() == i,
            forall|k: int| 0 <= k < i ==> out@[k]@ == list@[k]@,
        decreases list.len() - i,
    {
        out.push(list[i].clone());
        i = i + 1;
    }
    assert(group_views(out@) =~= group_views(list@));
    out
}

/// A copy of a list of equipped slots.
pub fn clone_items(list: &Vec<ItemTag>) -> (r: Vec<ItemTag>)
    ensures
        item_views(r@) == item_views(list@),
{
    let mut out: Vec<ItemTag> = Vec::new();
    let mut i: usize = 0;
    while i < list.len()
        invariant
            i <= list.len(),
            out.len() == i,
            forall|k: int| 0 <= k < i ==> out@[k]@ == list@[k]@,
        decreases list.len() - i,
    {
        out.push(list[i].clone());
        i = i + 1;
    }
    assert(item_views(out@) =~= item_views(list@));
    out
}

impl Clone for Person {
    fn clone(&self) -> (r: Self)
        ensures
            r@ == self@,
    {
        Person {
            max_authority_reached: self.max_authority_reached,
            authority: self.authority,
            job_points: self.job_points,
            faction: self.faction.clone(),
            name: self.name.clone(),
            version: self.version,
            alive: self.alive,
            soldier_group_id: self.soldier_group_id,
            soldier_group_name: self.soldier_group_name.clone(),
            block: self.block.clone(),
            squad_size_setting: self.squad_size_setting,
            order: self.order.clone(),
            item_list: clone_items(&self.item_list),
            backpack_hard_capacity: self.backpack_hard_capacity,
            stash_hard_capacity: self.stash_hard_capacity,
            backpack_item_list: clone_groups(&self.backpack_item_list),
            stash_item_list: clone_groups(&self.stash_item_list),
        }
    }
}

impl From<&Person> for Person {
    fn from(p: &Person) -> (r: Person)
        ensures
            r@ == p@,
    {
        p.clone()
    }
}

impl vstd::std_specs::convert::FromSpecImpl<&Person> for Person {
    open spec fn obeys_from_spec() -> bool {
        false
    }

    open spec fn from_spec(p: &Person) -> Person {
        *p
    }
}

impl Default for StashItemTag {
    fn default() -> (r: Self)
        ensures
            r@ == (StashItemTagView { class: 0, index: 0, key: Seq::<char>::empty() }),
    {
        StashItemTag { class: 0, index: 0, key: String::new() }
    }
}

impl Default for ItemGroupTag {
    fn default() -> (r: Self)
        ensures
            r@ == (ItemGroupTagView { class: 0, index: 0, key: Seq::<char>::empty(), amount: 0 }),
    {
        ItemGroupTag { class: 0, index: 0, key: String::new(), amount: 0 }
    }
}

impl Default for ItemTag {
    fn default() -> (r: Self)
        ensures
            r@ == (ItemTagView { slot: 0, index: 0, amount: 0, key: Seq::<char>::empty() }),
    {
        ItemTag { slot: 0, index: 0, amount: 0, key: String::new() }
    }
}

impl Default for OrderTag {
    fn default() -> (r: Self)
        ensures
            r@ == default_order(),
    {
        OrderTag { moving: 0, target: String::new(), class: 0 }
    }
}

impl Default for Person {
    fn default() -> (r: Self)
        ensures
            r@ == default_person(),
    {
        let r = Person {
            max_authority_reached: Decimal { micros: 0 },
            authority: Decimal { micros: 0 },
            job_points: Decimal { micros: 0 },
            faction: String::new(),
            name: String::new(),
            version: MAX_PERSON_FILE_VERSION,
            alive: 0,
            soldier_group_id: 0,
            soldier_group_name: String::from_str("default"),
            block: String::new(),
            squad_size_setting: Decimal { micros: 0 },
            order: OrderTag::default(),
            item_list: Vec::new(),
            backpack_hard_capacity: MAX_DEFAULT_BACKPACK_LEN,
            stash_hard_capacity: MAX_DEFAULT_STASH_LEN,
            backpack_item_list: Vec::new(),
            stash_item_list: Vec::new(),
        };
        assert(r@.item_list =~= Seq::<ItemTagView>::empty());
        assert(r@.backpack_item_list =~= Seq::<ItemGroupTagView>::empty());
        assert(r@.stash_item_list =~= Seq::<ItemGroupTagView>::empty());
        r
    }
}

/// A request to replace a person.
#[derive(Debug)]
pub struct UpdatePersonReq {
    pub person: Person,
}

/// A request to set authority to a given value.
#[derive(Debug)]
pub struct ResetXpReq {
    pub authority: Decimal,
}

/// A request to change the soldier group of one person.
#[derive(Debug)]
pub struct GroupInfo {
    pub group_type: String,
}

/// A request to insert entries into the backpacks of chosen persons.
#[derive(Debug)]
pub struct InsertSelectedPersonBackpackReq {
    pub profile_id_list: Vec<u64>,
    pub backpack_item_list: Vec<ItemGroupTag>,
}

/// A request to change the soldier group of every person, at a cost.
#[derive(Debug)]
pub struct UpdateAllPersonSoldierGroupReq {
    pub group: String,
    pub cost: Decimal,
}

/// A request to change the soldier group of chosen persons, at a cost.
#[derive(Debug)]
pub struct UpdateSelectedPersonSoldierGroupReq {
    pub profile_id_list: Vec<u64>,
    pub group: String,
    pub cost: Decimal,
}

/// The ids of the persons that a change of soldier group skipped.
#[derive(Debug)]
pub struct UpdatePersonSoldierGroupRes {
    pub error_profile_list: Vec<u64>,
}

/// A request to delete items, by key, from chosen persons.
#[derive(Debug)]
pub struct DeleteSelectedPersonItemListReq {
    pub profile_id_list: Vec<u64>,
    pub item_list: Vec<String>,
}

} // verus!
