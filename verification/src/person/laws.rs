//! What holds of encoding and decoding together, and of every change that
//! a caller may ask of a person.
use vstd::prelude::*;
use vstd::string::*;
use crate::constant::MAX_DEFAULT_BACKPACK_LEN;
use crate::decimal::decimal_field;
use crate::decimal::Decimal;
use crate::error::ErrorKind;
use crate::person::inventory::has_key;
use crate::person::inventory::lemma_key_index;
use crate::person::inventory::seeded;
use crate::person::inventory::without_keys;
use crate::person::merge::amount_of;
use crate::person::merge::lemma_merged;
use crate::person::merge::untouched_count;
use crate::person::model::unique_keys;
use crate::person::save::delete_updates;
use crate::person::save::group_skips;
use crate::person::save::group_updates;
use crate::person::save::insert_skips;
use crate::person::save::insert_updates;
use crate::person::service::deleted;
use crate::person::service::inserted;
use crate::person::service::regrouped;
use crate::person::service::with_authority;
use crate::person::service::with_backpack;
use crate::person::service::with_stash;
use crate::decimal::lemma_decimal_of_decimal_text;
use crate::person::extract::capacity_with_attributes;
use crate::person::extract::decode_events;
use crate::person::extract::decode_step;
use crate::person::extract::default_group;
use crate::person::extract::default_item;
use crate::person::extract::group_with_attributes;
use crate::person::extract::initial_state;
use crate::person::extract::item_with_attributes;
use crate::person::extract::order_with_attributes;
use crate::person::extract::person_of_events;
use crate::person::extract::person_with_attribute;
use crate::person::extract::person_with_attributes;
use crate::person::extract::DecodeState;
use crate::person::model::default_order;
use crate::person::model::default_person;
use crate::person::model::ItemGroupTagView;
use crate::person::model::ItemTagView;
use crate::person::model::OrderTagView;
use crate::person::model::PersonView;
use crate::person::save::attr;
use crate::person::save::backpack_events;
use crate::person::save::container_tag;
use crate::person::save::group_events;
use crate::person::save::item_events;
use crate::person::save::item_group_tag;
use crate::person::save::item_tag;
use crate::person::save::order_tag;
use crate::person::save::person_attributes;
use crate::person::save::person_events;
use crate::person::save::person_tag;
use crate::person::save::stash_events;
use crate::text::i32_of_text;
use crate::text::i8_of_text;
use crate::text::int_text;
use crate::text::lemma_integer_of_int_text;
use crate::text::u16_of_text;
use crate::text::u64_of_text;
use crate::xml::XmlAttributeView;
use crate::xml::XmlEventView;

verus! {

/// The names of the elements and attributes of a person file differ from
/// one another.
pub proof fn lemma_names_differ()
    ensures
        "authority"@ != "max_authority_reached"@,
        "job_points"@ != "max_authority_reached"@,
        "job_points"@ != "authority"@,
        "faction"@.len() == 7,
        "name"@.len() == 4,
        "version"@.len() == 7,
        "version"@ != "faction"@,
        "alive"@.len() == 5,
        "soldier_group_id"@.len() == 16,
        "soldier_group_name"@.len() == 18,
        "block"@.len() == 5,
        "block"@ != "alive"@,
        "squad_size_setting"@.len() == 18,
        "squad_size_setting"@ != "soldier_group_name"@,
        "max_authority_reached"@.len() == 21,
        "authority"@.len() == 9,
        "job_points"@.len() == 10,
        "moving"@.len() == 6,
        "target"@.len() == 6,
        "target"@ != "moving"@,
        "class"@.len() == 5,
        "slot"@.len() == 4,
        "index"@.len() == 5,
        "index"@ != "class"@,
        "amount"@.len() == 6,
        "key"@.len() == 3,
        "hard_capacity"@.len() == 13,
        "person"@.len() == 6,
        "stash"@.len() == 5,
        "backpack"@.len() == 8,
        "order"@.len() == 5,
        "order"@ != "stash"@,
        "item_group"@.len() == 10,
        "item"@.len() == 4,
{
    reveal_strlit("max_authority_reached");
    reveal_strlit("authority");
    reveal_strlit("job_points");
    reveal_strlit("faction");
    reveal_strlit("name");
    reveal_strlit("version");
    reveal_strlit("alive");
    reveal_strlit("soldier_group_id");
    reveal_strlit("soldier_group_name");
    reveal_strlit("block");
    reveal_strlit("squad_size_setting");
    reveal_strlit("moving");
    reveal_strlit("target");
    reveal_strlit("class");
    reveal_strlit("slot");
    reveal_strlit("index");
    reveal_strlit("amount");
    reveal_strlit("key");
    reveal_strlit("hard_capacity");
    reveal_strlit("person");
    reveal_strlit("stash");
    reveal_strlit("backpack");
    reveal_strlit("order");
    reveal_strlit("item_group");
    reveal_strlit("item");
    assert("max_authority_reached"@.len() == 21);
    assert("authority"@.len() == 9);
    assert("job_points"@.len() == 10);
    assert("version"@[0] != "faction"@[0]);
    assert("block"@[0] != "alive"@[0]);
    assert("squad_size_setting"@[1] != "soldier_group_name"@[1]);
    assert("target"@[0] != "moving"@[0]);
    assert("index"@[0] != "class"@[0]);
    assert("order"@[0] != "stash"@[0]);
}

/// Reading back the text of a field gives the field.
pub proof fn lemma_fields_read_back()
    ensures
        forall|v: i8| #[trigger] i8_of_text(int_text(v as int)) == Some(v),
        forall|v: i32| #[trigger] i32_of_text(int_text(v as int)) == Some(v),
        forall|v: u16| #[trigger] u16_of_text(int_text(v as int)) == Some(v),
        forall|v: u64| #[trigger] u64_of_text(int_text(v as int)) == Some(v),
        forall|v: i64|
            #[trigger] decimal_field(crate::decimal::decimal_text(v as int)) == Some(
                crate::decimal::Decimal { micros: v },
            ),
{
    assert forall|v: i8| #[trigger] i8_of_text(int_text(v as int)) == Some(v) by {
        lemma_integer_of_int_text(v as int, i8::MIN as int, i8::MAX as int);
    }
    assert forall|v: i32| #[trigger] i32_of_text(int_text(v as int)) == Some(v) by {
        lemma_integer_of_int_text(v as int, i32::MIN as int, i32::MAX as int);
    }
    assert forall|v: u16| #[trigger] u16_of_text(int_text(v as int)) == Some(v) by {
        lemma_integer_of_int_text(v as int, 0, u16::MAX as int);
    }
    assert forall|v: u64| #[trigger] u64_of_text(int_text(v as int)) == Some(v) by {
        lemma_integer_of_int_text(v as int, 0, u64::MAX as int);
    }
    assert forall|v: i64|
        #[trigger] decimal_field(crate::decimal::decimal_text(v as int)) == Some(
            crate::decimal::Decimal { micros: v },
        ) by {
        lemma_decimal_of_decimal_text(v as int);
    }
}

/// The scalar fields of `p` on the lists and capacities of `q`.
pub open spec fn with_scalars_of(q: PersonView, p: PersonView) -> PersonView {
    PersonView {
        max_authority_reached: p.max_authority_reached,
        authority: p.authority,
        job_points: p.job_points,
        faction: p.faction,
        name: p.name,
        version: p.version,
        alive: p.alive,
        soldier_group_id: p.soldier_group_id,
        soldier_group_name: p.soldier_group_name,
        block: p.block,
        squad_size_setting: p.squad_size_setting,
        ..q
    }
}

/// Taking in one more attribute is one step after taking in the others.
pub proof fn lemma_person_push(
    q: PersonView,
    list: Seq<XmlAttributeView>,
    r: PersonView,
    a: XmlAttributeView,
    r2: PersonView,
)
    requires
        person_with_attributes(q, list) == Some(r),
        person_with_attribute(r, a) == Some(r2),
    ensures
        person_with_attributes(q, list.push(a)) == Some(r2),
{
    assert(list.push(a).drop_last() =~= list);
    assert(list.push(a).last() == a);
}

/// The attribute `max_authority_reached`, as written, sets that field.
pub proof fn lemma_take_max_authority_reached(r: PersonView, v: crate::decimal::Decimal)
    ensures
        person_with_attribute(r, attr("max_authority_reached"@, crate::decimal::decimal_text(v.micros as int))) == Some(
            PersonView { max_authority_reached: v, ..r },
        ),
{
    lemma_names_differ();
    lemma_decimal_of_decimal_text(v.micros as int);
}

/// The attribute `authority`, as written, sets that field.
pub proof fn lemma_take_authority(r: PersonView, v: crate::decimal::Decimal)
    ensures
        person_with_attribute(r, attr("authority"@, crate::decimal::decimal_text(v.micros as int))) == Some(
            PersonView { authority: v, ..r },
        ),
{
    lemma_names_differ();
    lemma_decimal_of_decimal_text(v.micros as int);
}

/// The attribute `job_points`, as written, sets that field.
pub proof fn lemma_take_job_points(r: PersonView, v: crate::decimal::Decimal)
    ensures
        person_with_attribute(r, attr("job_points"@, crate::decimal::decimal_text(v.micros as int))) == Some(
            PersonView { job_points: v, ..r },
        ),
{
    lemma_names_differ();
    lemma_decimal_of_decimal_text(v.micros as int);
}

/// The attribute `faction`, as written, sets that field.
pub proof fn lemma_take_faction(r: PersonView, v: Seq<char>)
    ensures
        person_with_attribute(r, attr("faction"@, v)) == Some(
            PersonView { faction: v, ..r },
        ),
{
    lemma_names_differ();
    
}

/// The attribute `name`, as written, sets that field.
pub proof fn lemma_take_name(r: PersonView, v: Seq<char>)
    ensures
        person_with_attribute(r, attr("name"@, v)) == Some(
            PersonView { name: v, ..r },
        ),
{
    lemma_names_differ();
    
}

/// The attribute `version`, as written, sets that field.
pub proof fn lemma_take_version(r: PersonView, v: u16)
    ensures
        person_with_attribute(r, attr("version"@, int_text(v as int))) == Some(
            PersonView { version: v, ..r },
        ),
{
    lemma_names_differ();
    lemma_integer_of_int_text(v as int, 0, u16::MAX as int);
}

/// The attribute `alive`, as written, sets that field.
pub proof fn lemma_take_alive(r: PersonView, v: i8)
    ensures
        person_with_attribute(r, attr("alive"@, int_text(v as int))) == Some(
            PersonView { alive: v, ..r },
        ),
{
    lemma_names_differ();
    lemma_integer_of_int_text(v as int, i8::MIN as int, i8::MAX as int);
}

/// The attribute `soldier_group_id`, as written, sets that field.
pub proof fn lemma_take_soldier_group_id(r: PersonView, v: i8)
    ensures
        person_with_attribute(r, attr("soldier_group_id"@, int_text(v as int))) == Some(
            PersonView { soldier_group_id: v, ..r },
        ),
{
    lemma_names_differ();
    lemma_integer_of_int_text(v as int, i8::MIN as int, i8::MAX as int);
}

/// The attribute `soldier_group_name`, as written, sets that field.
pub proof fn lemma_take_soldier_group_name(r: PersonView, v: Seq<char>)
    ensures
        person_with_attribute(r, attr("soldier_group_name"@, v)) == Some(
            PersonView { soldier_group_name: v, ..r },
        ),
{
    lemma_names_differ();
    
}

/// The attribute `block`, as written, sets that field.
pub proof fn lemma_take_block(r: PersonView, v: Seq<char>)
    ensures
        person_with_attribute(r, attr("block"@, v)) == Some(
            PersonView { block: v, ..r },
        ),
{
    lemma_names_differ();
    
}

/// The attribute `squad_size_setting`, as written, sets that field.
pub proof fn lemma_take_squad_size_setting(r: PersonView, v: crate::decimal::Decimal)
    ensures
        person_with_attribute(r, attr("squad_size_setting"@, crate::decimal::decimal_text(v.micros as int))) == Some(
            PersonView { squad_size_setting: v, ..r },
        ),
{
    lemma_names_differ();
    lemma_decimal_of_decimal_text(v.micros as int);
}

/// Taking in the attributes written for `p` gives the scalar fields of `p`.
pub proof fn lemma_person_attributes_read_back(q: PersonView, p: PersonView)
    ensures
        person_with_attributes(q, person_attributes(p)) == Some(with_scalars_of(q, p)),
{
    let all = person_attributes(p);
    let l0 = Seq::<XmlAttributeView>::empty();
    assert(person_with_attributes(q, l0) == Some(q));
    let q1 = PersonView { max_authority_reached: p.max_authority_reached, ..q };
    let l1 = l0.push(all[0]);
    lemma_take_max_authority_reached(q, p.max_authority_reached);
    lemma_person_push(q, l0, q, all[0], q1);
    let q2 = PersonView { authority: p.authority, ..q1 };
    let l2 = l1.push(all[1]);
    lemma_take_authority(q1, p.authority);
    lemma_person_push(q, l1, q1, all[1], q2);
    let q3 = PersonView { job_points: p.job_points, ..q2 };
    let l3 = l2.push(all[2]);
    lemma_take_job_points(q2, p.job_points);
    lemma_person_push(q, l2, q2, all[2], q3);
    let q4 = PersonView { faction: p.faction, ..q3 };
    let l4 = l3.push(all[3]);
    lemma_take_faction(q3, p.faction);
    lemma_person_push(q, l3, q3, all[3], q4);
    let q5 = PersonView { name: p.name, ..q4 };
    let l5 = l4.push(all[4]);
    lemma_take_name(q4, p.name);
    lemma_person_push(q, l4, q4, all[4], q5);
    let q6 = PersonView { version: p.version, ..q5 };
    let l6 = l5.push(all[5]);
    lemma_take_version(q5, p.version);
    lemma_person_push(q, l5, q5, all[5], q6);
    let q7 = PersonView { alive: p.alive, ..q6 };
    let l7 = l6.push(all[6]);
    lemma_take_alive(q6, p.alive);
    lemma_person_push(q, l6, q6, all[6], q7);
    let q8 = PersonView { soldier_group_id: p.soldier_group_id, ..q7 };
    let l8 = l7.push(all[7]);
    lemma_take_soldier_group_id(q7, p.soldier_group_id);
    lemma_person_push(q, l7, q7, all[7], q8);
    let q9 = PersonView { soldier_group_name: p.soldier_group_name, ..q8 };
    let l9 = l8.push(all[8]);
    lemma_take_soldier_group_name(q8, p.soldier_group_name);
    lemma_person_push(q, l8, q8, all[8], q9);
    let q10 = PersonView { block: p.block, ..q9 };
    let l10 = l9.push(all[9]);
    lemma_take_block(q9, p.block);
    lemma_person_push(q, l9, q9, all[9], q10);
    let q11 = PersonView { squad_size_setting: p.squad_size_setting, ..q10 };
    let l11 = l10.push(all[10]);
    lemma_take_squad_size_setting(q10, p.squad_size_setting);
    lemma_person_push(q, l10, q10, all[10], q11);
    assert(all =~= l11);
    assert(q11 == with_scalars_of(q, p));
}

/// Taking in the attributes written for an order gives the order.
pub proof fn lemma_order_attributes_read_back(o: OrderTagView)
    ensures
        order_with_attributes(default_order(), order_tag(o).attributes) == Some(o),
{
    lemma_names_differ();
    lemma_fields_read_back();
    let all = order_tag(o).attributes;
    let d = default_order();
    let o1 = OrderTagView { moving: o.moving, ..d };
    let o2 = OrderTagView { target: o.target, ..o1 };
    let o3 = OrderTagView { class: o.class, ..o2 };
    assert(all.take(0) =~= Seq::<XmlAttributeView>::empty());
    assert(order_with_attributes(d, all.take(0)) == Some(d));
    assert(all.take(1).drop_last() =~= all.take(0));
    assert(order_with_attributes(d, all.take(1)) == Some(o1));
    assert(all.take(2).drop_last() =~= all.take(1));
    assert(order_with_attributes(d, all.take(2)) == Some(o2));
    assert(all.take(3).drop_last() =~= all.take(2));
    assert(order_with_attributes(d, all.take(3)) == Some(o3));
    assert(all.take(3) =~= all);
}

/// Taking in the attributes written for an equipped slot gives the slot.
pub proof fn lemma_item_attributes_read_back(i: ItemTagView)
    ensures
        item_with_attributes(default_item(), item_tag(i).attributes) == Some(i),
{
    lemma_names_differ();
    lemma_fields_read_back();
    let all = item_tag(i).attributes;
    let d = default_item();
    let i1 = ItemTagView { slot: i.slot, ..d };
    let i2 = ItemTagView { index: i.index, ..i1 };
    let i3 = ItemTagView { amount: i.amount, ..i2 };
    let i4 = ItemTagView { key: i.key, ..i3 };
    assert(all.take(0) =~= Seq::<XmlAttributeView>::empty());
    assert(item_with_attributes(d, all.take(0)) == Some(d));
    assert(all.take(1).drop_last() =~= all.take(0));
    assert(item_with_attributes(d, all.take(1)) == Some(i1));
    assert(all.take(2).drop_last() =~= all.take(1));
    assert(item_with_attributes(d, all.take(2)) == Some(i2));
    assert(all.take(3).drop_last() =~= all.take(2));
    assert(item_with_attributes(d, all.take(3)) == Some(i3));
    assert(all.take(4).drop_last() =~= all.take(3));
    assert(item_with_attributes(d, all.take(4)) == Some(i4));
    assert(all.take(4) =~= all);
}

/// Taking in the attributes written for a grouped entry gives the entry.
pub proof fn lemma_group_attributes_read_back(g: ItemGroupTagView)
    ensures
        group_with_attributes(default_group(), item_group_tag(g).attributes) == Some(g),
{
    lemma_names_differ();
    lemma_fields_read_back();
    let all = item_group_tag(g).attributes;
    let d = default_group();
    let g1 = ItemGroupTagView { class: g.class, ..d };
    let g2 = ItemGroupTagView { index: g.index, ..g1 };
    let g3 = ItemGroupTagView { key: g.key, ..g2 };
    let g4 = ItemGroupTagView { amount: g.amount, ..g3 };
    assert(all.take(0) =~= Seq::<XmlAttributeView>::empty());
    assert(group_with_attributes(d, all.take(0)) == Some(d));
    assert(all.take(1).drop_last() =~= all.take(0));
    assert(group_with_attributes(d, all.take(1)) == Some(g1));
    assert(all.take(2).drop_last() =~= all.take(1));
    assert(group_with_attributes(d, all.take(2)) == Some(g2));
    assert(all.take(3).drop_last() =~= all.take(2));
    assert(group_with_attributes(d, all.take(3)) == Some(g3));
    assert(all.take(4).drop_last() =~= all.take(3));
    assert(group_with_attributes(d, all.take(4)) == Some(g4));
    assert(all.take(4) =~= all);
}

/// Taking in the attribute written for a hard capacity gives the capacity.
pub proof fn lemma_capacity_attributes_read_back(current: u16, name: Seq<char>, c: u16)
    ensures
        capacity_with_attributes(current, container_tag(name, c).attributes) == Some(c),
{
    lemma_fields_read_back();
    let all = container_tag(name, c).attributes;
    assert(all.drop_last() =~= Seq::<XmlAttributeView>::empty());
    assert(capacity_with_attributes(current, all.drop_last()) == Some(current));
}

/// Decoding two lists of events one after the other is decoding the first
/// and going on with the second.
pub proof fn lemma_decode_concat(st: DecodeState, a: Seq<XmlEventView>, b: Seq<XmlEventView>)
    ensures
        decode_events(st, a + b) == match decode_events(st, a) {
            Some(q) => decode_events(q, b),
            None => None,
        },
    decreases b.len(),
{
    if b.len() == 0 {
        assert(a + b =~= a);
    } else {
        assert((a + b).drop_last() =~= a + b.drop_last());
        assert((a + b).last() == b.last());
        lemma_decode_concat(st, a, b.drop_last());
    }
}

/// Decoding one event is one step.
pub proof fn lemma_decode_one(st: DecodeState, event: XmlEventView)
    ensures
        decode_events(st, seq![event]) == decode_step(st, event),
{
    assert(seq![event].drop_last() =~= Seq::<XmlEventView>::empty());
    assert(decode_events(st, Seq::<XmlEventView>::empty()) == Some(st));
    assert(seq![event].last() == event);
}

/// At top level, the `item` tags written for a list of equipped slots add
/// that list to the equipped slots.
pub proof fn lemma_items_read_back(st: DecodeState, list: Seq<ItemTagView>)
    requires
        !st.in_stash,
        !st.in_backpack,
    ensures
        decode_events(st, item_events(list)) == Some(
            DecodeState {
                person: PersonView { item_list: st.person.item_list + list, ..st.person },
                ..st
            },
        ),
    decreases list.len(),
{
    lemma_names_differ();
    if list.len() == 0 {
        assert(item_events(list) =~= Seq::<XmlEventView>::empty());
        assert(st.person.item_list + list =~= st.person.item_list);
    } else {
        let events = item_events(list);
        assert(events.drop_last() =~= item_events(list.drop_last()));
        assert(events.last() == XmlEventView::Empty(item_tag(list.last())));
        lemma_items_read_back(st, list.drop_last());
        lemma_item_attributes_read_back(list.last());
        assert((st.person.item_list + list.drop_last()).push(list.last()) =~= st.person.item_list
            + list);
    }
}

/// Inside `stash` only, the `item_group` tags written for a list of
/// entries add that list to the stash.
pub proof fn lemma_stash_groups_read_back(st: DecodeState, list: Seq<ItemGroupTagView>)
    requires
        st.in_stash,
        !st.in_backpack,
    ensures
        decode_events(st, group_events(list)) == Some(
            DecodeState {
                person: PersonView {
                    stash_item_list: st.person.stash_item_list + list,
                    ..st.person
                },
                ..st
            },
        ),
    decreases list.len(),
{
    lemma_names_differ();
    if list.len() == 0 {
        assert(group_events(list) =~= Seq::<XmlEventView>::empty());
        assert(st.person.stash_item_list + list =~= st.person.stash_item_list);
    } else {
        let events = group_events(list);
        assert(events.drop_last() =~= group_events(list.drop_last()));
        assert(events.last() == XmlEventView::Empty(item_group_tag(list.last())));
        lemma_stash_groups_read_back(st, list.drop_last());
        lemma_group_attributes_read_back(list.last());
        assert((st.person.stash_item_list + list.drop_last()).push(list.last())
            =~= st.person.stash_item_list + list);
    }
}

/// Inside `backpack`, the `item_group` tags written for a list of entries
/// add that list to the backpack.
pub proof fn lemma_backpack_groups_read_back(st: DecodeState, list: Seq<ItemGroupTagView>)
    requires
        st.in_backpack,
    ensures
        decode_events(st, group_events(list)) == Some(
            DecodeState {
                person: PersonView {
                    backpack_item_list: st.person.backpack_item_list + list,
                    ..st.person
                },
                ..st
            },
        ),
    decreases list.len(),
{
    lemma_names_differ();
    if list.len() == 0 {
        assert(group_events(list) =~= Seq::<XmlEventView>::empty());
        assert(st.person.backpack_item_list + list =~= st.person.backpack_item_list);
    } else {
        let events = group_events(list);
        assert(events.drop_last() =~= group_events(list.drop_last()));
        assert(events.last() == XmlEventView::Empty(item_group_tag(list.last())));
        lemma_backpack_groups_read_back(st, list.drop_last());
        lemma_group_attributes_read_back(list.last());
        assert((st.person.backpack_item_list + list.drop_last()).push(list.last())
            =~= st.person.backpack_item_list + list);
    }
}

/// The state after the `person` tag and the order of `p`, from the start.
pub open spec fn state_after_head(p: PersonView) -> DecodeState {
    DecodeState {
        person: PersonView { order: p.order, ..with_scalars_of(default_person(), p) },
        in_stash: false,
        in_backpack: false,
    }
}

/// The `person` tag and the `order` tag written for `p` give its scalar
/// fields and its order.
pub proof fn lemma_head_read_back(p: PersonView)
    ensures
        decode_events(
            initial_state(),
            seq![XmlEventView::Start(person_tag(p)), XmlEventView::Empty(order_tag(p.order))],
        ) == Some(state_after_head(p)),
{
    let s0 = initial_state();
    let e1 = XmlEventView::Start(person_tag(p));
    let e2 = XmlEventView::Empty(order_tag(p.order));
    let s1 = DecodeState { person: with_scalars_of(default_person(), p), ..s0 };
    assert(decode_events(s0, seq![e1]) == Some(s1)) by {
        lemma_person_attributes_read_back(default_person(), p);
        lemma_decode_one(s0, e1);
    }
    assert(decode_events(s1, seq![e2]) == Some(state_after_head(p))) by {
        lemma_names_differ();
        lemma_order_attributes_read_back(p.order);
        lemma_decode_one(s1, e2);
    }
    lemma_decode_concat(s0, seq![e1], seq![e2]);
    assert(seq![e1] + seq![e2] =~= seq![e1, e2]);
}

/// At top level, the `stash` element written for `p` gives the stash its
/// hard capacity and adds its entries.
pub proof fn lemma_stash_read_back(st: DecodeState, p: PersonView)
    requires
        !st.in_stash,
        !st.in_backpack,
    ensures
        decode_events(st, stash_events(p)) == Some(
            DecodeState {
                person: PersonView {
                    stash_hard_capacity: p.stash_hard_capacity,
                    stash_item_list: st.person.stash_item_list + p.stash_item_list,
                    ..st.person
                },
                ..st
            },
        ),
{
    let e1 = XmlEventView::Start(container_tag("stash"@, p.stash_hard_capacity));
    let e3 = XmlEventView::End("stash"@);
    let s1 = DecodeState {
        person: PersonView { stash_hard_capacity: p.stash_hard_capacity, ..st.person },
        in_stash: true,
        ..st
    };
    let s2 = DecodeState {
        person: PersonView {
            stash_item_list: st.person.stash_item_list + p.stash_item_list,
            ..s1.person
        },
        ..s1
    };
    let s3 = DecodeState { in_stash: false, ..s2 };
    assert(decode_events(st, seq![e1]) == Some(s1)) by {
        lemma_names_differ();
        lemma_capacity_attributes_read_back(
            st.person.stash_hard_capacity,
            "stash"@,
            p.stash_hard_capacity,
        );
        lemma_decode_one(st, e1);
    }
    assert(decode_events(s1, group_events(p.stash_item_list)) == Some(s2)) by {
        lemma_stash_groups_read_back(s1, p.stash_item_list);
    }
    assert(decode_events(s2, seq![e3]) == Some(s3)) by {
        lemma_decode_one(s2, e3);
    }
    lemma_decode_concat(st, seq![e1], group_events(p.stash_item_list));
    lemma_decode_concat(st, seq![e1] + group_events(p.stash_item_list), seq![e3]);
}

/// At top level, the `backpack` element written for `p` gives the backpack
/// its hard capacity and adds its entries, if there are any.
pub proof fn lemma_backpack_read_back(st: DecodeState, p: PersonView)
    requires
        !st.in_stash,
        !st.in_backpack,
        p.backpack_item_list.len() == 0 ==> p.backpack_hard_capacity
            == st.person.backpack_hard_capacity,
    ensures
        decode_events(st, backpack_events(p)) == Some(
            DecodeState {
                person: PersonView {
                    backpack_hard_capacity: p.backpack_hard_capacity,
                    backpack_item_list: st.person.backpack_item_list + p.backpack_item_list,
                    ..st.person
                },
                ..st
            },
        ),
{
    if p.backpack_item_list.len() == 0 {
        let e = XmlEventView::Empty(container_tag("backpack"@, p.backpack_hard_capacity));
        assert(decode_events(st, seq![e]) == Some(st)) by {
            lemma_names_differ();
            lemma_decode_one(st, e);
        }
        assert(st.person.backpack_item_list + p.backpack_item_list
            =~= st.person.backpack_item_list);
    } else {
        let e1 = XmlEventView::Start(container_tag("backpack"@, p.backpack_hard_capacity));
        let e3 = XmlEventView::End("backpack"@);
        let s1 = DecodeState {
            person: PersonView { backpack_hard_capacity: p.backpack_hard_capacity, ..st.person },
            in_backpack: true,
            ..st
        };
        let s2 = DecodeState {
            person: PersonView {
                backpack_item_list: st.person.backpack_item_list + p.backpack_item_list,
                ..s1.person
            },
            ..s1
        };
        let s3 = DecodeState { in_backpack: false, ..s2 };
        assert(decode_events(st, seq![e1]) == Some(s1)) by {
            lemma_names_differ();
            lemma_capacity_attributes_read_back(
                st.person.backpack_hard_capacity,
                "backpack"@,
                p.backpack_hard_capacity,
            );
            lemma_decode_one(st, e1);
        }
        assert(decode_events(s1, group_events(p.backpack_item_list)) == Some(s2)) by {
            lemma_backpack_groups_read_back(s1, p.backpack_item_list);
        }
        assert(decode_events(s2, seq![e3]) == Some(s3)) by {
            lemma_names_differ();
            lemma_decode_one(s2, e3);
        }
        lemma_decode_concat(st, seq![e1], group_events(p.backpack_item_list));
        lemma_decode_concat(st, seq![e1] + group_events(p.backpack_item_list), seq![e3]);
    }
}

/// Decoding the events written for a person gives that person back, and
/// so encoding the decoded person gives the same text again.
///
/// A self-closing `backpack` tag is passed over when read, so an empty
/// backpack must have the default hard capacity for this to hold.
pub proof fn lemma_person_round_trip(p: PersonView)
    requires
        p.backpack_item_list.len() == 0 ==> p.backpack_hard_capacity == MAX_DEFAULT_BACKPACK_LEN,
    ensures
        person_of_events(person_events(p)) == Some(p),
        match person_of_events(person_events(p)) {
            Some(q) => crate::xml::xml_bytes(person_events(q)) == crate::xml::xml_bytes(
                person_events(p),
            ),
            None => false,
        },
{
    let s0 = initial_state();
    let head = seq![XmlEventView::Start(person_tag(p)), XmlEventView::Empty(order_tag(p.order))];
    let s2 = state_after_head(p);
    lemma_head_read_back(p);
    let s3 = DecodeState { person: PersonView { item_list: p.item_list, ..s2.person }, ..s2 };
    assert(decode_events(s2, item_events(p.item_list)) == Some(s3)) by {
        lemma_items_read_back(s2, p.item_list);
        assert(s2.person.item_list + p.item_list =~= p.item_list);
    }
    let s4 = DecodeState {
        person: PersonView {
            stash_hard_capacity: p.stash_hard_capacity,
            stash_item_list: p.stash_item_list,
            ..s3.person
        },
        ..s3
    };
    assert(decode_events(s3, stash_events(p)) == Some(s4)) by {
        lemma_stash_read_back(s3, p);
        assert(s3.person.stash_item_list + p.stash_item_list =~= p.stash_item_list);
    }
    let s5 = DecodeState {
        person: PersonView {
            backpack_hard_capacity: p.backpack_hard_capacity,
            backpack_item_list: p.backpack_item_list,
            ..s4.person
        },
        ..s4
    };
    assert(decode_events(s4, backpack_events(p)) == Some(s5)) by {
        lemma_backpack_read_back(s4, p);
        assert(s4.person.backpack_item_list + p.backpack_item_list =~= p.backpack_item_list);
    }
    let e_end = XmlEventView::End("person"@);
    assert(decode_events(s5, seq![e_end]) == Some(s5)) by {
        lemma_names_differ();
        lemma_decode_one(s5, e_end);
    }
    lemma_decode_concat(s0, head, item_events(p.item_list));
    lemma_decode_concat(s0, head + item_events(p.item_list), stash_events(p));
    lemma_decode_concat(s0, head + item_events(p.item_list) + stash_events(p), backpack_events(p));
    lemma_decode_concat(
        s0,
        head + item_events(p.item_list) + stash_events(p) + backpack_events(p),
        seq![e_end],
    );
    assert(decode_events(s0, person_events(p)) == Some(s5));
    assert(s5.person == p);
}

/// An empty backpack is written as one self-closing `backpack` tag. A
/// backpack with entries is written as a start tag, one `item_group` tag
/// for each entry in list order, and an end tag. The stash is written as a
/// start tag, its entries and an end tag, whether it has entries or not.
pub proof fn lemma_backpack_element(p: PersonView)
    ensures
        p.backpack_item_list.len() == 0 ==> backpack_events(p) == seq![
            XmlEventView::Empty(container_tag("backpack"@, p.backpack_hard_capacity)),
        ],
        p.backpack_item_list.len() > 0 ==> {
            &&& backpack_events(p).len() == p.backpack_item_list.len() + 2
            &&& backpack_events(p).first() == XmlEventView::Start(
                container_tag("backpack"@, p.backpack_hard_capacity),
            )
            &&& backpack_events(p).last() == XmlEventView::End("backpack"@)
            &&& forall|i: int|
                0 <= i < p.backpack_item_list.len() ==> #[trigger] backpack_events(p)[i + 1]
                    == XmlEventView::Empty(item_group_tag(p.backpack_item_list[i]))
        },
        stash_events(p).len() == p.stash_item_list.len() + 2,
        stash_events(p).first() == XmlEventView::Start(
            container_tag("stash"@, p.stash_hard_capacity),
        ),
        stash_events(p).last() == XmlEventView::End("stash"@),
        forall|i: int|
            0 <= i < p.stash_item_list.len() ==> #[trigger] stash_events(p)[i + 1]
                == XmlEventView::Empty(item_group_tag(p.stash_item_list[i])),
{
}

/// A deletion leaves no list longer than it was.
pub proof fn lemma_without_keys_len(list: Seq<ItemGroupTagView>, keys: Seq<Seq<char>>)
    ensures
        without_keys(list, keys).len() <= list.len(),
    decreases list.len(),
{
    if list.len() > 0 {
        lemma_without_keys_len(list.drop_last(), keys);
    }
}

/// After a deletion no entry of a list has a deleted key, and each entry
/// that is left was there before.
pub proof fn lemma_without_keys_members(list: Seq<ItemGroupTagView>, keys: Seq<Seq<char>>, i: int)
    requires
        0 <= i < without_keys(list, keys).len(),
    ensures
        !keys.contains(without_keys(list, keys)[i].key),
        list.contains(without_keys(list, keys)[i]),
    decreases list.len(),
{
    if list.len() > 0 {
        let rest = list.drop_last();
        let out = without_keys(rest, keys);
        if i < out.len() {
            lemma_without_keys_members(rest, keys, i);
            let j = choose|j: int| 0 <= j < rest.len() && rest[j] == out[i];
            assert(list[j] == out[i]);
        } else {
            assert(list[list.len() - 1] == without_keys(list, keys)[i]);
        }
    }
}

/// A deletion keeps the number and the places of the equipped slots, and
/// turns each slot of a deleted key into a slot without key, with index -1
/// and amount 0.
pub proof fn lemma_delete_vacates(p: PersonView, keys: Seq<Seq<char>>, i: int)
    requires
        0 <= i < p.item_list.len(),
    ensures
        deleted(p, keys).item_list.len() == p.item_list.len(),
        deleted(p, keys).item_list[i].slot == p.item_list[i].slot,
        keys.contains(p.item_list[i].key) ==> deleted(p, keys).item_list[i] == (ItemTagView {
            slot: p.item_list[i].slot,
            index: -1i32,
            amount: 0,
            key: Seq::<char>::empty(),
        }),
        !keys.contains(p.item_list[i].key) ==> deleted(p, keys).item_list[i] == p.item_list[i],
{
}

/// The backpack that a successful insertion leaves is as long as the
/// distinct incoming keys and the untouched entries together.
pub proof fn lemma_insert_length(p: PersonView, incoming: Seq<ItemGroupTagView>, q: PersonView)
    requires
        unique_keys(p.backpack_item_list),
        inserted(p, incoming) == Ok::<PersonView, ErrorKind>(q),
    ensures
        q.backpack_item_list.len() == seeded(incoming).len() + untouched_count(
            p.backpack_item_list,
            incoming,
        ),
        unique_keys(q.backpack_item_list),
{
    lemma_merged(p.backpack_item_list, incoming);
}

/// A successful insertion leaves both lists within their hard capacities,
/// where the distinct incoming keys and the untouched entries together are
/// within the hard capacity of the backpack.
pub proof fn lemma_insert_within_capacity(
    p: PersonView,
    incoming: Seq<ItemGroupTagView>,
    q: PersonView,
)
    requires
        p.within_capacity(),
        unique_keys(p.backpack_item_list),
        seeded(incoming).len() + untouched_count(p.backpack_item_list, incoming)
            <= p.backpack_hard_capacity,
        inserted(p, incoming) == Ok::<PersonView, ErrorKind>(q),
    ensures
        q.within_capacity(),
{
    lemma_insert_length(p, incoming, q);
}

/// A deletion leaves both lists within their hard capacities.
pub proof fn lemma_delete_within_capacity(p: PersonView, keys: Seq<Seq<char>>)
    requires
        p.within_capacity(),
    ensures
        deleted(p, keys).within_capacity(),
{
    lemma_without_keys_len(p.backpack_item_list, keys);
    lemma_without_keys_len(p.stash_item_list, keys);
}

/// A successful replacement of the backpack or of the stash leaves both
/// lists within their hard capacities.
pub proof fn lemma_replace_within_capacity(
    p: PersonView,
    list: Seq<ItemGroupTagView>,
    q: PersonView,
)
    requires
        p.within_capacity(),
        with_backpack(p, list) == Ok::<PersonView, ErrorKind>(q) || with_stash(p, list) == Ok::<
            PersonView,
            ErrorKind,
        >(q),
    ensures
        q.within_capacity(),
{
}

/// A successful change of soldier group, and a reset of authority, leave
/// both lists as they are, and so within their hard capacities.
pub proof fn lemma_progress_within_capacity(
    p: PersonView,
    group: Seq<char>,
    cost: Decimal,
    authority: Decimal,
    q: PersonView,
)
    requires
        p.within_capacity(),
        regrouped(p, group, cost) == Ok::<PersonView, ErrorKind>(q),
    ensures
        q.within_capacity(),
        with_authority(p, authority).within_capacity(),
{
}

/// Of many persons, each that an insertion changes is within its hard
/// capacities afterwards, where each was so before and the insertion fits
/// each as `lemma_insert_within_capacity` asks.
pub proof fn lemma_insert_updates_within_capacity(
    all: Seq<(u64, PersonView)>,
    incoming: Seq<ItemGroupTagView>,
)
    requires
        forall|j: int|
            0 <= j < all.len() ==> {
                &&& (#[trigger] all[j]).1.within_capacity()
                &&& unique_keys(all[j].1.backpack_item_list)
                &&& seeded(incoming).len() + untouched_count(all[j].1.backpack_item_list, incoming)
                    <= all[j].1.backpack_hard_capacity
            },
    ensures
        forall|i: int|
            0 <= i < insert_updates(all, incoming).len() ==> (#[trigger] insert_updates(
                all,
                incoming,
            )[i]).1.within_capacity(),
    decreases all.len(),
{
    if all.len() > 0 {
        let rest = all.drop_last();
        assert forall|j: int| 0 <= j < rest.len() implies {
            &&& (#[trigger] rest[j]).1.within_capacity()
            &&& unique_keys(rest[j].1.backpack_item_list)
            &&& seeded(incoming).len() + untouched_count(rest[j].1.backpack_item_list, incoming)
                <= rest[j].1.backpack_hard_capacity
        } by {
            assert(rest[j] == all[j]);
        }
        lemma_insert_updates_within_capacity(rest, incoming);
        let last = all[all.len() - 1];
        let out = insert_updates(all, incoming);
        let prior = insert_updates(rest, incoming);
        assert(all.last() == last);
        assert forall|i: int| 0 <= i < out.len() implies (#[trigger] out[i]).1.within_capacity() by {
            if let Ok(q) = inserted(last.1, incoming) {
                lemma_insert_within_capacity(last.1, incoming, q);
                assert(out == prior.push((last.0, q)));
                if i < prior.len() {
                    assert(out[i] == prior[i]);
                }
            } else {
                assert(out == prior);
            }
        }
    }
}

/// Of many persons, each that a deletion or a change of soldier group
/// hands back is within its hard capacities, where each was so before.
pub proof fn lemma_updates_within_capacity(
    all: Seq<(u64, PersonView)>,
    keys: Seq<Seq<char>>,
    group: Seq<char>,
    cost: Decimal,
)
    requires
        forall|j: int| 0 <= j < all.len() ==> (#[trigger] all[j]).1.within_capacity(),
    ensures
        forall|i: int|
            0 <= i < delete_updates(all, keys).len() ==> (#[trigger] delete_updates(
                all,
                keys,
            )[i]).1.within_capacity(),
        forall|i: int|
            0 <= i < group_updates(all, group, cost).len() ==> (#[trigger] group_updates(
                all,
                group,
                cost,
            )[i]).1.within_capacity(),
    decreases all.len(),
{
    assert forall|i: int| 0 <= i < delete_updates(all, keys).len() implies (
    #[trigger] delete_updates(all, keys)[i]).1.within_capacity() by {
        lemma_delete_within_capacity(all[i].1, keys);
    }
    if all.len() > 0 {
        let rest = all.drop_last();
        assert forall|j: int| 0 <= j < rest.len() implies (#[trigger] rest[j]).1.within_capacity() by {
            assert(rest[j] == all[j]);
        }
        lemma_updates_within_capacity(rest, keys, group, cost);
        let last = all[all.len() - 1];
        assert(last.1.within_capacity());
        assert(all.last() == last);
        let out = group_updates(all, group, cost);
        let prior = group_updates(rest, group, cost);
        assert forall|i: int| 0 <= i < out.len() implies (#[trigger] out[i]).1.within_capacity() by {
            if let Ok(q) = regrouped(last.1, group, cost) {
                assert(out == prior.push((last.0, q)));
                if i < prior.len() {
                    assert(out[i] == prior[i]);
                }
            } else {
                assert(out == prior);
            }
        }
    }
}

/// Of many persons, each is either changed or skipped: the changed and the
/// skipped together are as many as were given.
pub proof fn lemma_outcome_counts(
    all: Seq<(u64, PersonView)>,
    incoming: Seq<ItemGroupTagView>,
    group: Seq<char>,
    cost: Decimal,
)
    ensures
        insert_updates(all, incoming).len() + insert_skips(all, incoming).len() == all.len(),
        group_updates(all, group, cost).len() + group_skips(all, group, cost).len() == all.len(),
    decreases all.len(),
{
    if all.len() > 0 {
        lemma_outcome_counts(all.drop_last(), incoming, group, cost);
    }
}

/// After the same list was inserted twice, the backpack holds of each
/// inserted key twice what it held after the first insertion, less what it
/// held before; of every other key it holds what it held before.
pub proof fn lemma_insert_twice(
    p: PersonView,
    incoming: Seq<ItemGroupTagView>,
    q1: PersonView,
    q2: PersonView,
)
    requires
        unique_keys(p.backpack_item_list),
        inserted(p, incoming) == Ok::<PersonView, ErrorKind>(q1),
        inserted(q1, incoming) == Ok::<PersonView, ErrorKind>(q2),
    ensures
        forall|k: Seq<char>|
            has_key(incoming, k) ==> #[trigger] amount_of(q2.backpack_item_list, k) + amount_of(
                p.backpack_item_list,
                k,
            ) == 2 * amount_of(q1.backpack_item_list, k),
        forall|k: Seq<char>|
            !has_key(incoming, k) ==> #[trigger] amount_of(q2.backpack_item_list, k) == amount_of(
                p.backpack_item_list,
                k,
            ),
{
    lemma_merged(p.backpack_item_list, incoming);
    lemma_merged(q1.backpack_item_list, incoming);
    assert forall|k: Seq<char>| has_key(incoming, k) implies #[trigger] amount_of(
        q2.backpack_item_list,
        k,
    ) + amount_of(p.backpack_item_list, k) == 2 * amount_of(q1.backpack_item_list, k) by {
        assert(amount_of(q1.backpack_item_list, k) == amount_of(seeded(incoming), k) + amount_of(
            p.backpack_item_list,
            k,
        ));
        assert(amount_of(q2.backpack_item_list, k) == amount_of(seeded(incoming), k) + amount_of(
            q1.backpack_item_list,
            k,
        ));
    }
    assert forall|k: Seq<char>| !has_key(incoming, k) implies #[trigger] amount_of(
        q2.backpack_item_list,
        k,
    ) == amount_of(p.backpack_item_list, k) by {
        assert(amount_of(q1.backpack_item_list, k) == amount_of(p.backpack_item_list, k));
    }
}

/// After the same list was inserted twice into an empty backpack, the
/// backpack holds of every key exactly twice what it held after the first
/// insertion.
pub proof fn lemma_insert_twice_doubles(
    p: PersonView,
    incoming: Seq<ItemGroupTagView>,
    q1: PersonView,
    q2: PersonView,
)
    requires
        p.backpack_item_list.len() == 0,
        inserted(p, incoming) == Ok::<PersonView, ErrorKind>(q1),
        inserted(q1, incoming) == Ok::<PersonView, ErrorKind>(q2),
    ensures
        forall|k: Seq<char>| #[trigger]
            amount_of(q2.backpack_item_list, k) == 2 * amount_of(q1.backpack_item_list, k),
{
    lemma_insert_twice(p, incoming, q1, q2);
    lemma_merged(p.backpack_item_list, incoming);
    assert forall|k: Seq<char>| #[trigger]
        amount_of(q2.backpack_item_list, k) == 2 * amount_of(q1.backpack_item_list, k) by {
        lemma_key_index(p.backpack_item_list, k);
        assert(amount_of(p.backpack_item_list, k) == 0);
        if !has_key(incoming, k) {
            assert(amount_of(q1.backpack_item_list, k) == amount_of(p.backpack_item_list, k));
        }
    }
}

} // verus!
