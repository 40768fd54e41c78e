//! What holds of the list that an insertion leaves.
use vstd::prelude::*;
use crate::person::inventory::absorb;
use crate::person::inventory::absorb_all;
use crate::person::inventory::amount_plus;
use crate::person::inventory::amount_sum;
use crate::person::inventory::has_key;
use crate::person::inventory::key_index;
use crate::person::inventory::lemma_key_index;
use crate::person::inventory::lemma_key_index_at;
use crate::person::inventory::merged;
use crate::person::inventory::seeded;
use crate::person::inventory::touched_sum;
use crate::person::inventory::upsert;
use crate::person::model::unique_keys;
use crate::person::model::ItemGroupTagView;

verus! {

/// The amount that a list holds of the key `key`: that of the first entry
/// of that key, and zero if there is none.
pub open spec fn amount_of(list: Seq<ItemGroupTagView>, key: Seq<char>) -> nat {
    if has_key(list, key) {
        list[key_index(list, key)].amount as nat
    } else {
        0
    }
}

/// The number of entries of `existing` whose key does not occur in
/// `incoming`.
pub open spec fn untouched_count(existing: Seq<ItemGroupTagView>, incoming: Seq<ItemGroupTagView>)
    -> nat
    decreases existing.len(),
{
    if existing.len() == 0 {
        0
    } else {
        untouched_count(existing.drop_last(), incoming) + if has_key(
            incoming,
            existing.last().key,
        ) {
            0nat
        } else {
            1nat
        }
    }
}

/// A list has a key exactly if one of its entries has it.
pub proof fn lemma_has_key(list: Seq<ItemGroupTagView>, key: Seq<char>)
    ensures
        has_key(list, key) <==> exists|i: int| 0 <= i < list.len() && (#[trigger] list[i]).key == key,
{
    lemma_key_index(list, key);
    if has_key(list, key) {
        assert(list[key_index(list, key)].key == key);
    }
}

/// In a list without repeated keys, an entry stands at the `key_index` of
/// its key.
pub proof fn lemma_key_index_unique(list: Seq<ItemGroupTagView>, i: int)
    requires
        unique_keys(list),
        0 <= i < list.len(),
    ensures
        key_index(list, list[i].key) == i,
{
    lemma_key_index(list, list[i].key);
    let f = key_index(list, list[i].key);
    if f < i {
        assert(list[f].key != list[i].key);
    }
}

/// Putting an entry in keeps the keys apart, adds its key to the keys of
/// the list, and lengthens the list by one at most.
pub proof fn lemma_upsert(list: Seq<ItemGroupTagView>, item: ItemGroupTagView)
    requires
        unique_keys(list),
    ensures
        unique_keys(upsert(list, item)),
        forall|k: Seq<char>|
            #[trigger] has_key(upsert(list, item), k) <==> has_key(list, k) || k == item.key,
        upsert(list, item).len() == list.len() + if has_key(list, item.key) {
            0int
        } else {
            1int
        },
        amount_of(upsert(list, item), item.key) == item.amount,
        forall|k: Seq<char>|
            k != item.key ==> #[trigger] amount_of(upsert(list, item), k) == amount_of(list, k),
{
    let out = upsert(list, item);
    lemma_key_index(list, item.key);
    let i = key_index(list, item.key);
    assert forall|a: int, b: int| 0 <= a < b < out.len() implies (#[trigger] out[a]).key != (
    #[trigger] out[b]).key by {
        if has_key(list, item.key) {
            assert(out[a].key == list[a].key);
            assert(out[b].key == list[b].key);
        } else {
            if b == list.len() {
                assert(out[a] == list[a]);
            }
        }
    }
    assert forall|k: Seq<char>| #[trigger]
        has_key(out, k) <==> has_key(list, k) || k == item.key by {
        lemma_has_key(out, k);
        lemma_has_key(list, k);
        if has_key(out, k) {
            let j = choose|j: int| 0 <= j < out.len() && (#[trigger] out[j]).key == k;
            if k != item.key {
                assert(j < list.len());
                assert(list[j].key == k);
            }
        }
        if has_key(list, k) {
            let j = choose|j: int| 0 <= j < list.len() && (#[trigger] list[j]).key == k;
            assert(out[j].key == k);
        }
        if k == item.key {
            if has_key(list, item.key) {
                assert(out[i].key == k);
            } else {
                assert(out[list.len() as int].key == k);
            }
        }
    }
    assert(amount_of(out, item.key) == item.amount) by {
        if has_key(list, item.key) {
            assert(out[i] == item);
            lemma_key_index_unique(out, i);
        } else {
            assert(out[list.len() as int] == item);
            lemma_key_index_unique(out, list.len() as int);
        }
    }
    assert forall|k: Seq<char>| k != item.key implies #[trigger] amount_of(out, k) == amount_of(
        list,
        k,
    ) by {
        lemma_key_index(list, k);
        let j = key_index(list, k);
        if has_key(list, k) {
            assert(out[j] == list[j]);
            assert forall|m: int| 0 <= m < j implies (#[trigger] out[m]).key != k by {
                assert(out[m].key == list[m].key);
            }
            lemma_key_index_at(out, k, j);
        }
    }
}

/// Taking an entry up keeps the keys apart, adds its key to the keys of the
/// list, and lengthens the list by one at most.
pub proof fn lemma_absorb(list: Seq<ItemGroupTagView>, item: ItemGroupTagView)
    requires
        unique_keys(list),
    ensures
        unique_keys(absorb(list, item)),
        forall|k: Seq<char>|
            #[trigger] has_key(absorb(list, item), k) <==> has_key(list, k) || k == item.key,
        absorb(list, item).len() == list.len() + if has_key(list, item.key) {
            0int
        } else {
            1int
        },
        amount_of(absorb(list, item), item.key) == amount_plus(
            amount_of(list, item.key) as u64,
            item.amount,
        ),
        forall|k: Seq<char>|
            k != item.key ==> #[trigger] amount_of(absorb(list, item), k) == amount_of(list, k),
{
    let out = absorb(list, item);
    lemma_key_index(list, item.key);
    let i = key_index(list, item.key);
    assert forall|a: int| 0 <= a < out.len() && a < list.len() implies (#[trigger] out[a]).key
        == list[a].key by {}
    assert forall|a: int, b: int| 0 <= a < b < out.len() implies (#[trigger] out[a]).key != (
    #[trigger] out[b]).key by {
        if has_key(list, item.key) {
            assert(out[a].key == list[a].key);
            assert(out[b].key == list[b].key);
        } else {
            if b == list.len() {
                assert(out[a] == list[a]);
            }
        }
    }
    assert forall|k: Seq<char>| #[trigger]
        has_key(out, k) <==> has_key(list, k) || k == item.key by {
        lemma_has_key(out, k);
        lemma_has_key(list, k);
        if has_key(out, k) {
            let j = choose|j: int| 0 <= j < out.len() && (#[trigger] out[j]).key == k;
            if k != item.key {
                assert(j < list.len());
                assert(list[j].key == k);
            }
        }
        if has_key(list, k) {
            let j = choose|j: int| 0 <= j < list.len() && (#[trigger] list[j]).key == k;
            assert(out[j].key == k);
        }
        if k == item.key {
            if has_key(list, item.key) {
                assert(out[i].key == k);
            } else {
                assert(out[list.len() as int].key == k);
            }
        }
    }
    assert(amount_of(out, item.key) == amount_plus(amount_of(list, item.key) as u64, item.amount))
        by {
        if has_key(list, item.key) {
            assert(out[i].key == item.key);
            lemma_key_index_unique(out, i);
        } else {
            assert(out[list.len() as int] == item);
            lemma_key_index_unique(out, list.len() as int);
        }
    }
    assert forall|k: Seq<char>| k != item.key implies #[trigger] amount_of(out, k) == amount_of(
        list,
        k,
    ) by {
        lemma_key_index(list, k);
        let j = key_index(list, k);
        if has_key(list, k) {
            assert(out[j] == list[j]);
            assert forall|m: int| 0 <= m < j implies (#[trigger] out[m]).key != k by {
                assert(out[m].key == list[m].key);
            }
            lemma_key_index_at(out, k, j);
        }
    }
}

/// The seeded list has its keys apart, and its keys are those of the
/// incoming list.
pub proof fn lemma_seeded(incoming: Seq<ItemGroupTagView>)
    ensures
        unique_keys(seeded(incoming)),
        forall|k: Seq<char>| #[trigger] has_key(seeded(incoming), k) <==> has_key(incoming, k),
        seeded(incoming).len() <= incoming.len(),
    decreases incoming.len(),
{
    if incoming.len() > 0 {
        let rest = incoming.drop_last();
        lemma_seeded(rest);
        lemma_upsert(seeded(rest), incoming.last());
        assert forall|k: Seq<char>| #[trigger]
            has_key(seeded(incoming), k) <==> has_key(incoming, k) by {
            lemma_has_key(incoming, k);
            lemma_has_key(rest, k);
            if has_key(incoming, k) {
                let j = choose|j: int| 0 <= j < incoming.len() && (#[trigger] incoming[j]).key == k;
                if j < rest.len() {
                    assert(rest[j].key == k);
                }
            }
            if has_key(rest, k) {
                let j = choose|j: int| 0 <= j < rest.len() && (#[trigger] rest[j]).key == k;
                assert(incoming[j].key == k);
            }
            if k == incoming.last().key {
                assert(incoming[incoming.len() - 1].key == k);
            }
        }
    }
}

/// What a list without repeated keys holds of a key, told from its last
/// entry and the entries before it.
pub proof fn lemma_amount_of_last(list: Seq<ItemGroupTagView>, key: Seq<char>)
    requires
        unique_keys(list),
        list.len() > 0,
    ensures
        unique_keys(list.drop_last()),
        list.last().key == key ==> !has_key(list.drop_last(), key) && amount_of(list, key)
            == list.last().amount,
        list.last().key != key ==> amount_of(list, key) == amount_of(list.drop_last(), key) && (
        has_key(list, key) <==> has_key(list.drop_last(), key)),
{
    let rest = list.drop_last();
    let n = list.len() - 1;
    assert forall|a: int, b: int| 0 <= a < b < rest.len() implies (#[trigger] rest[a]).key != (
    #[trigger] rest[b]).key by {
        assert(rest[a] == list[a]);
        assert(rest[b] == list[b]);
    }
    lemma_key_index(rest, key);
    lemma_key_index(list, key);
    if list.last().key == key {
        lemma_key_index_unique(list, n);
        if has_key(rest, key) {
            let j = key_index(rest, key);
            assert(rest[j] == list[j]);
            assert(list[j].key != list[n].key);
        }
    } else {
        let j = key_index(rest, key);
        assert forall|m: int| 0 <= m < j implies (#[trigger] list[m]).key != key by {
            assert(rest[m] == list[m]);
        }
        if j < rest.len() {
            assert(rest[j] == list[j]);
            lemma_key_index_at(list, key, j);
        } else {
            assert forall|m: int| 0 <= m < list.len() implies (#[trigger] list[m]).key != key by {
                if m < n {
                    assert(rest[m] == list[m]);
                }
            }
            lemma_key_index_at(list, key, list.len() as int);
        }
    }
}

/// Taking a list of entries up keeps the keys apart and adds the keys of
/// the entries to the keys of the list.
pub proof fn lemma_absorb_all(base: Seq<ItemGroupTagView>, existing: Seq<ItemGroupTagView>)
    requires
        unique_keys(base),
    ensures
        unique_keys(absorb_all(base, existing)),
        forall|k: Seq<char>|
            #[trigger] has_key(absorb_all(base, existing), k) <==> has_key(base, k) || has_key(
                existing,
                k,
            ),
    decreases existing.len(),
{
    if existing.len() == 0 {
        assert forall|k: Seq<char>| !#[trigger] has_key(existing, k) by {
            lemma_key_index(existing, k);
        }
    } else {
        let rest = existing.drop_last();
        let last = existing.last();
        lemma_absorb_all(base, rest);
        lemma_absorb(absorb_all(base, rest), last);
        assert forall|k: Seq<char>| #[trigger]
            has_key(absorb_all(base, existing), k) <==> has_key(base, k) || has_key(
                existing,
                k,
            ) by {
            lemma_has_key(existing, k);
            lemma_has_key(rest, k);
            if has_key(existing, k) {
                let j = choose|j: int| 0 <= j < existing.len() && (#[trigger] existing[j]).key == k;
                if j < rest.len() {
                    assert(rest[j].key == k);
                }
            }
            if has_key(rest, k) {
                let j = choose|j: int| 0 <= j < rest.len() && (#[trigger] rest[j]).key == k;
                assert(existing[j].key == k);
            }
            if k == last.key {
                assert(existing[existing.len() - 1].key == k);
            }
        }
    }
}

/// The list that an insertion leaves is as long as the seeded list and the
/// untouched entries together.
pub proof fn lemma_absorb_all_len(
    base: Seq<ItemGroupTagView>,
    existing: Seq<ItemGroupTagView>,
    incoming: Seq<ItemGroupTagView>,
)
    requires
        unique_keys(base),
        unique_keys(existing),
        forall|k: Seq<char>| #[trigger] has_key(base, k) <==> has_key(incoming, k),
    ensures
        absorb_all(base, existing).len() == base.len() + untouched_count(existing, incoming),
    decreases existing.len(),
{
    if existing.len() > 0 {
        let rest = existing.drop_last();
        let last = existing.last();
        lemma_amount_of_last(existing, last.key);
        lemma_absorb_all_len(base, rest, incoming);
        lemma_absorb_all(base, rest);
        lemma_absorb(absorb_all(base, rest), last);
        assert(has_key(absorb_all(base, rest), last.key) <==> has_key(base, last.key) || has_key(
            rest,
            last.key,
        ));
        assert(has_key(base, last.key) <==> has_key(incoming, last.key));
    }
}

/// After a list of entries was taken up, the list holds of each key what
/// it held before and what the entries hold of it, as long as that fits.
pub proof fn lemma_absorb_all_amount(
    base: Seq<ItemGroupTagView>,
    existing: Seq<ItemGroupTagView>,
    key: Seq<char>,
)
    requires
        unique_keys(base),
        unique_keys(existing),
        amount_of(base, key) + amount_of(existing, key) <= u64::MAX,
    ensures
        amount_of(absorb_all(base, existing), key) == amount_of(base, key) + amount_of(
            existing,
            key,
        ),
    decreases existing.len(),
{
    if existing.len() == 0 {
        lemma_key_index(existing, key);
    } else {
        let rest = existing.drop_last();
        let last = existing.last();
        lemma_amount_of_last(existing, key);
        lemma_absorb_all_amount(base, rest, key);
        lemma_absorb_all(base, rest);
        lemma_absorb(absorb_all(base, rest), last);
    }
}

/// Each entry counts towards the sum of the amounts.
pub proof fn lemma_amount_sum_member(list: Seq<ItemGroupTagView>, i: int)
    requires
        0 <= i < list.len(),
    ensures
        list[i].amount <= amount_sum(list),
    decreases list.len(),
{
    if i < list.len() - 1 {
        assert(list.drop_last()[i] == list[i]);
        lemma_amount_sum_member(list.drop_last(), i);
    }
}

/// Each entry whose key occurs in the incoming list counts towards the
/// touched sum.
pub proof fn lemma_touched_sum_member(
    existing: Seq<ItemGroupTagView>,
    incoming: Seq<ItemGroupTagView>,
    i: int,
)
    requires
        0 <= i < existing.len(),
        has_key(incoming, existing[i].key),
    ensures
        existing[i].amount <= touched_sum(existing, incoming),
    decreases existing.len(),
{
    if i < existing.len() - 1 {
        assert(existing.drop_last()[i] == existing[i]);
        lemma_touched_sum_member(existing.drop_last(), incoming, i);
    }
}

/// Each entry of the seeded list is an entry of the incoming list.
pub proof fn lemma_seeded_members(incoming: Seq<ItemGroupTagView>, i: int)
    requires
        0 <= i < seeded(incoming).len(),
    ensures
        exists|j: int| 0 <= j < incoming.len() && #[trigger] incoming[j] == seeded(incoming)[i],
    decreases incoming.len(),
{
    if incoming.len() > 0 {
        let rest = incoming.drop_last();
        let last = incoming.last();
        let prior = seeded(rest);
        lemma_key_index(prior, last.key);
        let at = if has_key(prior, last.key) {
            key_index(prior, last.key)
        } else {
            prior.len() as int
        };
        if i == at {
            assert(seeded(incoming)[i] == last);
            assert(incoming[incoming.len() - 1] == last);
        } else {
            assert(seeded(incoming)[i] == prior[i]);
            lemma_seeded_members(rest, i);
            let j = choose|j: int| 0 <= j < rest.len() && #[trigger] rest[j] == prior[i];
            assert(incoming[j] == rest[j]);
        }
    }
}

/// What the seeded list holds of a key is no more than the incoming
/// amounts together.
pub proof fn lemma_seeded_amount_bound(incoming: Seq<ItemGroupTagView>, key: Seq<char>)
    ensures
        amount_of(seeded(incoming), key) <= amount_sum(incoming),
{
    let list = seeded(incoming);
    lemma_key_index(list, key);
    if has_key(list, key) {
        let i = key_index(list, key);
        lemma_seeded_members(incoming, i);
        let j = choose|j: int| 0 <= j < incoming.len() && #[trigger] incoming[j] == list[i];
        lemma_amount_sum_member(incoming, j);
    }
}

/// What a list holds of a key that the incoming list has is no more than
/// the touched sum.
pub proof fn lemma_touched_amount_bound(
    existing: Seq<ItemGroupTagView>,
    incoming: Seq<ItemGroupTagView>,
    key: Seq<char>,
)
    requires
        has_key(incoming, key),
    ensures
        amount_of(existing, key) <= touched_sum(existing, incoming),
{
    lemma_key_index(existing, key);
    if has_key(existing, key) {
        lemma_touched_sum_member(existing, incoming, key_index(existing, key));
    }
}

/// The list that an insertion leaves has no key twice. It has the keys of
/// both lists, is as long as the distinct incoming keys and the untouched
/// entries together, and holds of each incoming key the incoming amount and
/// the existing amount together, where the combined count is within what a
/// hard capacity can be.
pub proof fn lemma_merged(existing: Seq<ItemGroupTagView>, incoming: Seq<ItemGroupTagView>)
    requires
        unique_keys(existing),
    ensures
        unique_keys(merged(existing, incoming)),
        forall|k: Seq<char>|
            #[trigger] has_key(merged(existing, incoming), k) <==> has_key(existing, k) || has_key(
                incoming,
                k,
            ),
        merged(existing, incoming).len() == seeded(incoming).len() + untouched_count(
            existing,
            incoming,
        ),
        forall|k: Seq<char>|
            has_key(incoming, k) && touched_sum(existing, incoming) + amount_sum(incoming)
                <= u16::MAX ==> #[trigger] amount_of(merged(existing, incoming), k) == amount_of(
                seeded(incoming),
                k,
            ) + amount_of(existing, k),
        forall|k: Seq<char>|
            !has_key(incoming, k) ==> #[trigger] amount_of(merged(existing, incoming), k)
                == amount_of(existing, k),
{
    lemma_seeded(incoming);
    lemma_absorb_all(seeded(incoming), existing);
    lemma_absorb_all_len(seeded(incoming), existing, incoming);
    assert forall|k: Seq<char>|
        has_key(incoming, k) && touched_sum(existing, incoming) + amount_sum(incoming)
            <= u16::MAX implies #[trigger] amount_of(merged(existing, incoming), k) == amount_of(
        seeded(incoming),
        k,
    ) + amount_of(existing, k) by {
        lemma_seeded_amount_bound(incoming, k);
        lemma_touched_amount_bound(existing, incoming, k);
        lemma_absorb_all_amount(seeded(incoming), existing, k);
    }
    assert forall|k: Seq<char>| !has_key(incoming, k) implies #[trigger] amount_of(
        merged(existing, incoming),
        k,
    ) == amount_of(existing, k) by {
        assert(!has_key(seeded(incoming), k));
        lemma_absorb_all_amount(seeded(incoming), existing, k);
    }
}

} // verus!
