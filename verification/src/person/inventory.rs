//! Merging entries into a grouped list and deleting entries by key.
use vstd::prelude::*;
use vstd::string::*;
use crate::person::model::group_views;
use crate::person::model::item_views;
use crate::person::model::ItemGroupTag;
use crate::person::model::ItemGroupTagView;
use crate::person::model::ItemTag;
use crate::person::model::ItemTagView;
use crate::text::same_text;

verus! {

/// The place of the first entry with the key `key`, or the length of the
/// list if there is none.
pub open spec fn key_index(list: Seq<ItemGroupTagView>, key: Seq<char>) -> int
    decreases list.len(),
{
    if list.len() == 0 || list[0].key == key {
        0
    } else {
        1 + key_index(list.drop_first(), key)
    }
}

/// Whether some entry of the list has the key `key`.
pub open spec fn has_key(list: Seq<ItemGroupTagView>, key: Seq<char>) -> bool {
    key_index(list, key) < list.len()
}

/// The sum of two amounts, or the largest amount where the sum is larger.
pub open spec fn amount_plus(a: u64, b: u64) -> u64 {
    if a + b <= u64::MAX {
        (a + b) as u64
    } else {
        u64::MAX
    }
}

/// The list with `item` put in: in the place of the first entry of its key
/// if there is one, else at the end.
pub open spec fn upsert(list: Seq<ItemGroupTagView>, item: ItemGroupTagView) -> Seq<
    ItemGroupTagView,
> {
    if has_key(list, item.key) {
        list.update(key_index(list, item.key), item)
    } else {
        list.push(item)
    }
}

/// The list with `item` taken up: its amount added to the first entry of
/// its key if there is one, else the item put at the end.
pub open spec fn absorb(list: Seq<ItemGroupTagView>, item: ItemGroupTagView) -> Seq<
    ItemGroupTagView,
> {
    if has_key(list, item.key) {
        let i = key_index(list, item.key);
        list.update(
            i,
            ItemGroupTagView { amount: amount_plus(list[i].amount, item.amount), ..list[i] },
        )
    } else {
        list.push(item)
    }
}

/// The incoming entries with one entry per key: where a key recurs, the
/// last entry of that key stands in the place of the first.
pub open spec fn seeded(incoming: Seq<ItemGroupTagView>) -> Seq<ItemGroupTagView>
    decreases incoming.len(),
{
    if incoming.len() == 0 {
        Seq::<ItemGroupTagView>::empty()
    } else {
        upsert(seeded(incoming.drop_last()), incoming.last())
    }
}

/// `base` with the entries of `existing` taken up one after the other.
pub open spec fn absorb_all(base: Seq<ItemGroupTagView>, existing: Seq<ItemGroupTagView>) -> Seq<
    ItemGroupTagView,
>
    decreases existing.len(),
{
    if existing.len() == 0 {
        base
    } else {
        absorb(absorb_all(base, existing.drop_last()), existing.last())
    }
}

/// The list that inserting `incoming` into `existing` leaves: the incoming
/// entries, one per key, each with the amounts of the existing entries of
/// its key added, and then the existing entries of other keys.
pub open spec fn merged(existing: Seq<ItemGroupTagView>, incoming: Seq<ItemGroupTagView>) -> Seq<
    ItemGroupTagView,
> {
    absorb_all(seeded(incoming), existing)
}

/// The sum of the amounts of a list.
pub open spec fn amount_sum(list: Seq<ItemGroupTagView>) -> nat
    decreases list.len(),
{
    if list.len() == 0 {
        0
    } else {
        amount_sum(list.drop_last()) + list.last().amount as nat
    }
}

/// The sum of the amounts of those entries of `existing` whose key also
/// occurs in `incoming`.
pub open spec fn touched_sum(existing: Seq<ItemGroupTagView>, incoming: Seq<ItemGroupTagView>)
    -> nat
    decreases existing.len(),
{
    if existing.len() == 0 {
        0
    } else {
        touched_sum(existing.drop_last(), incoming) + if has_key(incoming, existing.last().key) {
            existing.last().amount as nat
        } else {
            0
        }
    }
}

/// The count that an insertion is measured by: the amounts of the existing
/// entries that the incoming list touches, plus the incoming amounts.
pub open spec fn combined_count(existing: Seq<ItemGroupTagView>, incoming: Seq<ItemGroupTagView>)
    -> nat {
    touched_sum(existing, incoming) + amount_sum(incoming)
}

/// The list without the entries whose key is among `keys`.
pub open spec fn without_keys(list: Seq<ItemGroupTagView>, keys: Seq<Seq<char>>) -> Seq<
    ItemGroupTagView,
>
    decreases list.len(),
{
    if list.len() == 0 {
        Seq::<ItemGroupTagView>::empty()
    } else if keys.contains(list.last().key) {
        without_keys(list.drop_last(), keys)
    } else {
        without_keys(list.drop_last(), keys).push(list.last())
    }
}

/// An equipped slot after a deletion: vacated if its key is among `keys`,
/// unchanged otherwise. A vacated slot keeps its place and its slot number.
pub open spec fn vacated_item(item: ItemTagView, keys: Seq<Seq<char>>) -> ItemTagView {
    if keys.contains(item.key) {
        ItemTagView { key: Seq::<char>::empty(), index: -1i32, amount: 0, ..item }
    } else {
        item
    }
}

/// The equipped slots after a deletion.
pub open spec fn vacated(list: Seq<ItemTagView>, keys: Seq<Seq<char>>) -> Seq<ItemTagView> {
    list.map_values(|item: ItemTagView| vacated_item(item, keys))
}

/// The views of a list of keys.
pub open spec fn key_views(keys: Seq<String>) -> Seq<Seq<char>> {
    keys.map_values(|k: String| k@)
}

/// `key_index` lies within the list, marks an entry of that key if it lies
/// inside, and no entry before it has that key.
pub proof fn lemma_key_index(list: Seq<ItemGroupTagView>, key: Seq<char>)
    ensures
        0 <= key_index(list, key) <= list.len(),
        key_index(list, key) < list.len() ==> list[key_index(list, key)].key == key,
        forall|k: int| 0 <= k < key_index(list, key) ==> (#[trigger] list[k]).key != key,
    decreases list.len(),
{
    if list.len() == 0 || list[0].key == key {
    } else {
        let rest = list.drop_first();
        lemma_key_index(rest, key);
        assert forall|k: int| 0 <= k < key_index(list, key) implies (#[trigger] list[k]).key
            != key by {
            if k > 0 {
                assert(rest[k - 1] == list[k]);
            }
        }
    }
}

/// A place with no entry of that key before it that is the end of the list
/// or holds such an entry is `key_index`.
pub proof fn lemma_key_index_at(list: Seq<ItemGroupTagView>, key: Seq<char>, i: int)
    requires
        0 <= i <= list.len(),
        forall|k: int| 0 <= k < i ==> (#[trigger] list[k]).key != key,
        i < list.len() ==> list[i].key == key,
    ensures
        key_index(list, key) == i,
{
    lemma_key_index(list, key);
    let f = key_index(list, key);
    if f < i {
        assert(list[f].key == key);
    } else if f > i {
        assert(list[i].key != key);
    }
}

/// The place of the first entry with the key `key`, if there is one.
pub fn find_key(list: &Vec<ItemGroupTag>, key: &str) -> (r: Option<usize>)
    ensures
        match r {
            Some(i) => has_key(group_views(list@), key@) && i == key_index(
                group_views(list@),
                key@,
            ),
            None => !has_key(group_views(list@), key@),
        },
{
    let ghost views = group_views(list@);
    let mut i: usize = 0;
    while i < list.len()
        invariant
            i <= list.len(),
            views == group_views(list@),
            forall|k: int| 0 <= k < i ==> (#[trigger] views[k]).key != key@,
        decreases list.len() - i,
    {
        assert(views[i as int] == list@[i as int]@);
        if same_text(list[i].key.as_str(), key) {
            proof {
                lemma_key_index_at(views, key@, i as int);
            }
            return Some(i);
        }
        i = i + 1;
    }
    proof {
        lemma_key_index_at(views, key@, views.len() as int);
    }
    None
}

/// Whether `key` is among `keys`.
pub fn contains_key(keys: &Vec<String>, key: &str) -> (r: bool)
    ensures
        r == key_views(keys@).contains(key@),
{
    let ghost views = key_views(keys@);
    let mut i: usize = 0;
    while i < keys.len()
        invariant
            i <= keys.len(),
            views == key_views(keys@),
            forall|k: int| 0 <= k < i ==> #[trigger] views[k] != key@,
        decreases keys.len() - i,
    {
        assert(views[i as int] == keys@[i as int]@);
        if same_text(keys[i].as_str(), key) {
            return true;
        }
        i = i + 1;
    }
    false
}

/// Puts `item` into the list.
fn upsert_into(list: &mut Vec<ItemGroupTag>, item: ItemGroupTag)
    ensures
        group_views(final(list)@) == upsert(group_views(old(list)@), item@),
{
    let ghost before = group_views(list@);
    match find_key(list, item.key.as_str()) {
        Some(i) => {
            proof {
                lemma_key_index(before, item@.key);
            }
            list.set(i, item);
            assert(group_views(list@) =~= before.update(i as int, item@));
        },
        None => {
            list.push(item);
            assert(group_views(list@) =~= before.push(item@));
        },
    }
}

/// Takes `item` up into the list.
pub fn absorb_into(list: &mut Vec<ItemGroupTag>, item: &ItemGroupTag)
    ensures
        group_views(final(list)@) == absorb(group_views(old(list)@), item@),
{
    let ghost before = group_views(list@);
    match find_key(list, item.key.as_str()) {
        Some(i) => {
            proof {
                lemma_key_index(before, item@.key);
            }
            let present = &list[i];
            assert(present@ == before[i as int]);
            let amount = match present.amount.checked_add(item.amount) {
                Some(sum) => sum,
                None => u64::MAX,
            };
            let entry = ItemGroupTag {
                class: present.class,
                index: present.index,
                key: present.key.clone(),
                amount,
            };
            list.set(i, entry);
            assert(group_views(list@) =~= absorb(before, item@));
        },
        None => {
            list.push(item.clone());
            assert(group_views(list@) =~= before.push(item@));
        },
    }
}

/// The list that inserting `incoming` into `existing` leaves.
pub fn merge_groups(existing: &Vec<ItemGroupTag>, incoming: &Vec<ItemGroupTag>) -> (r: Vec<
    ItemGroupTag,
>)
    ensures
        group_views(r@) == merged(group_views(existing@), group_views(incoming@)),
{
    let ghost old_views = group_views(existing@);
    let ghost new_views = group_views(incoming@);
    let mut out: Vec<ItemGroupTag> = Vec::new();
    let mut i: usize = 0;
    assert(new_views.take(0) =~= Seq::<ItemGroupTagView>::empty());
    assert(group_views(out@) =~= Seq::<ItemGroupTagView>::empty());
    while i < incoming.len()
        invariant
            i <= incoming.len(),
            new_views == group_views(incoming@),
            group_views(out@) == seeded(new_views.take(i as int)),
        decreases incoming.len() - i,
    {
        proof {
            assert(new_views.take(i + 1).drop_last() =~= new_views.take(i as int));
            assert(new_views.take(i + 1).last() == incoming@[i as int]@);
        }
        upsert_into(&mut out, incoming[i].clone());
        i = i + 1;
    }
    assert(new_views.take(i as int) =~= new_views);
    let mut j: usize = 0;
    assert(old_views.take(0) =~= Seq::<ItemGroupTagView>::empty());
    while j < existing.len()
        invariant
            j <= existing.len(),
            old_views == group_views(existing@),
            group_views(out@) == absorb_all(seeded(new_views), old_views.take(j as int)),
        decreases existing.len() - j,
    {
        proof {
            assert(old_views.take(j + 1).drop_last() =~= old_views.take(j as int));
            assert(old_views.take(j + 1).last() == existing@[j as int]@);
        }
        absorb_into(&mut out, &existing[j]);
        j = j + 1;
    }
    assert(old_views.take(j as int) =~= old_views);
    out
}

/// A prefix of a list sums to no more than the whole.
pub proof fn lemma_amount_sum_prefix(list: Seq<ItemGroupTagView>, k: int)
    requires
        0 <= k <= list.len(),
    ensures
        amount_sum(list.take(k)) <= amount_sum(list),
    decreases list.len(),
{
    if k == list.len() {
        assert(list.take(k) =~= list);
    } else {
        assert(list.drop_last().take(k) =~= list.take(k));
        lemma_amount_sum_prefix(list.drop_last(), k);
    }
}

/// A prefix of the existing entries is touched for no more than the whole.
pub proof fn lemma_touched_sum_prefix(
    existing: Seq<ItemGroupTagView>,
    incoming: Seq<ItemGroupTagView>,
    k: int,
)
    requires
        0 <= k <= existing.len(),
    ensures
        touched_sum(existing.take(k), incoming) <= touched_sum(existing, incoming),
    decreases existing.len(),
{
    if k == existing.len() {
        assert(existing.take(k) =~= existing);
    } else {
        assert(existing.drop_last().take(k) =~= existing.take(k));
        lemma_touched_sum_prefix(existing.drop_last(), incoming, k);
    }
}

/// Whether inserting `incoming` into `existing` would count more items than
/// `capacity`.
pub fn exceeds_capacity(
    existing: &Vec<ItemGroupTag>,
    incoming: &Vec<ItemGroupTag>,
    capacity: u16,
) -> (r: bool)
    ensures
        r == (combined_count(group_views(existing@), group_views(incoming@)) > capacity),
{
    let ghost old_views = group_views(existing@);
    let ghost new_views = group_views(incoming@);
    let limit: u64 = capacity as u64;
    let mut total: u64 = 0;
    let mut i: usize = 0;
    assert(new_views.take(0) =~= Seq::<ItemGroupTagView>::empty());
    while i < incoming.len()
        invariant
            i <= incoming.len(),
            new_views == group_views(incoming@),
            old_views == group_views(existing@),
            limit == capacity,
            total <= limit,
            total == amount_sum(new_views.take(i as int)),
        decreases incoming.len() - i,
    {
        proof {
            assert(new_views.take(i + 1).drop_last() =~= new_views.take(i as int));
            assert(new_views.take(i + 1).last() == incoming@[i as int]@);
            lemma_amount_sum_prefix(new_views, i + 1);
        }
        let amount = incoming[i].amount;
        if amount > limit - total {
            return true;
        }
        total = total + amount;
        i = i + 1;
    }
    assert(new_views.take(i as int) =~= new_views);
    let mut j: usize = 0;
    assert(old_views.take(0) =~= Seq::<ItemGroupTagView>::empty());
    while j < existing.len()
        invariant
            j <= existing.len(),
            new_views == group_views(incoming@),
            old_views == group_views(existing@),
            limit == capacity,
            total <= limit,
            total == touched_sum(old_views.take(j as int), new_views) + amount_sum(new_views),
        decreases existing.len() - j,
    {
        proof {
            assert(old_views.take(j + 1).drop_last() =~= old_views.take(j as int));
            assert(old_views.take(j + 1).last() == existing@[j as int]@);
            lemma_touched_sum_prefix(old_views, new_views, j + 1);
        }
        if find_key(incoming, existing[j].key.as_str()).is_some() {
            let amount = existing[j].amount;
            if amount > limit - total {
                return true;
            }
            total = total + amount;
        }
        j = j + 1;
    }
    assert(old_views.take(j as int) =~= old_views);
    false
}

/// The list without the entries whose key is among `keys`.
pub fn remove_keys(list: &Vec<ItemGroupTag>, keys: &Vec<String>) -> (r: Vec<ItemGroupTag>)
    ensures
        group_views(r@) == without_keys(group_views(list@), key_views(keys@)),
{
    let ghost views = group_views(list@);
    let mut out: Vec<ItemGroupTag> = Vec::new();
    let mut i: usize = 0;
    assert(views.take(0) =~= Seq::<ItemGroupTagView>::empty());
    assert(group_views(out@) =~= Seq::<ItemGroupTagView>::empty());
    while i < list.len()
        invariant
            i <= list.len(),
            views == group_views(list@),
            group_views(out@) == without_keys(views.take(i as int), key_views(keys@)),
        decreases list.len() - i,
    {
        proof {
            assert(views.take(i + 1).drop_last() =~= views.take(i as int));
            assert(views.take(i + 1).last() == list@[i as int]@);
        }
        if !contains_key(keys, list[i].key.as_str()) {
            let ghost prior = group_views(out@);
            out.push(list[i].clone());
            assert(group_views(out@) =~= prior.push(list@[i as int]@));
        }
        i = i + 1;
    }
    assert(views.take(i as int) =~= views);
    out
}

/// The equipped slots with those of a key among `keys` vacated.
pub fn vacate_keys(list: &Vec<ItemTag>, keys: &Vec<String>) -> (r: Vec<ItemTag>)
    ensures
        item_views(r@) == vacated(item_views(list@), key_views(keys@)),
{
    let mut out: Vec<ItemTag> = Vec::new();
    let mut i: usize = 0;
    while i < list.len()
        invariant
            i <= list.len(),
            out.len() == i,
            forall|k: int|
                0 <= k < i ==> (#[trigger] out@[k])@ == vacated_item(
                    list@[k]@,
                    key_views(keys@),
                ),
        decreases list.len() - i,
    {
        let item = &list[i];
        if contains_key(keys, item.key.as_str()) {
            out.push(ItemTag { key: String::new(), index: -1, amount: 0, slot: item.slot });
        } else {
            out.push(item.clone());
        }
        i = i + 1;
    }
    assert(item_views(out@) =~= vacated(item_views(list@), key_views(keys@)));
    out
}

} // verus!
