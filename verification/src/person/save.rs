//! Encoding a person as the text of its file.
use vstd::prelude::*;
use vstd::string::*;
use vstd::utf8::encode_utf8;
use crate::decimal::decimal_text;
use crate::decimal::Decimal;
use crate::person::inventory::key_views;
use crate::person::service::delete_items;
use crate::person::service::deleted;
use crate::person::service::insert_backpack;
use crate::person::service::inserted;
use crate::person::service::regrouped;
use crate::person::service::update_soldier_group;
use crate::error::ErrorKind;
use crate::person::model::group_views;
use crate::person::model::item_views;
use crate::person::model::ItemGroupTag;
use crate::person::model::ItemGroupTagView;
use crate::person::model::ItemTag;
use crate::person::model::ItemTagView;
use crate::person::model::OrderTag;
use crate::person::model::OrderTagView;
use crate::person::model::Person;
use crate::person::model::PersonView;
use crate::text::int_text;
use crate::text::push_int;
use crate::xml::after_events;
use crate::xml::event_views;
use crate::xml::fits;
use crate::xml::initial_writer;
use crate::xml::lemma_write_concat;
use crate::xml::lemma_write_empty_tags;
use crate::xml::lemma_write_one;
use crate::xml::lemma_xml_bytes_are_utf8;
use crate::xml::writable;
use crate::xml::WriterState;
use crate::xml::str_from_utf8;
use crate::xml::write_events;
use crate::xml::xml_bytes;
use crate::xml::XmlAttribute;
use crate::xml::XmlAttributeView;
use crate::xml::XmlEvent;
use crate::xml::XmlEventView;
use crate::xml::XmlTag;
use crate::xml::XmlTagView;

verus! {

/// The attribute named `key` with the value `value`.
pub open spec fn attr(key: Seq<char>, value: Seq<char>) -> XmlAttributeView {
    XmlAttributeView { key, value }
}

/// The attributes of the `person` tag, in the order a file holds them.
pub open spec fn person_attributes(p: PersonView) -> Seq<XmlAttributeView> {
    seq![
        attr("max_authority_reached"@, decimal_text(p.max_authority_reached.micros as int)),
        attr("authority"@, decimal_text(p.authority.micros as int)),
        attr("job_points"@, decimal_text(p.job_points.micros as int)),
        attr("faction"@, p.faction),
        attr("name"@, p.name),
        attr("version"@, int_text(p.version as int)),
        attr("alive"@, int_text(p.alive as int)),
        attr("soldier_group_id"@, int_text(p.soldier_group_id as int)),
        attr("soldier_group_name"@, p.soldier_group_name),
        attr("block"@, p.block),
        attr("squad_size_setting"@, decimal_text(p.squad_size_setting.micros as int)),
    ]
}

/// The `person` start tag.
pub open spec fn person_tag(p: PersonView) -> XmlTagView {
    XmlTagView { name: "person"@, attributes: person_attributes(p) }
}

/// The self-closing `order` tag.
pub open spec fn order_tag(order: OrderTagView) -> XmlTagView {
    XmlTagView {
        name: "order"@,
        attributes: seq![
            attr("moving"@, int_text(order.moving as int)),
            attr("target"@, order.target),
            attr("class"@, int_text(order.class as int)),
        ],
    }
}

/// The self-closing `item` tag of an equipped slot.
pub open spec fn item_tag(item: ItemTagView) -> XmlTagView {
    XmlTagView {
        name: "item"@,
        attributes: seq![
            attr("slot"@, int_text(item.slot as int)),
            attr("index"@, int_text(item.index as int)),
            attr("amount"@, int_text(item.amount as int)),
            attr("key"@, item.key),
        ],
    }
}

/// The self-closing `item_group` tag of a grouped entry.
pub open spec fn item_group_tag(item: ItemGroupTagView) -> XmlTagView {
    XmlTagView {
        name: "item_group"@,
        attributes: seq![
            attr("class"@, int_text(item.class as int)),
            attr("index"@, int_text(item.index as int)),
            attr("key"@, item.key),
            attr("amount"@, int_text(item.amount as int)),
        ],
    }
}

/// The `stash` or `backpack` tag, which declares the hard capacity.
pub open spec fn container_tag(name: Seq<char>, hard_capacity: u16) -> XmlTagView {
    XmlTagView {
        name,
        attributes: seq![attr("hard_capacity"@, int_text(hard_capacity as int))],
    }
}

/// One self-closing `item` tag for each equipped slot, in list order.
pub open spec fn item_events(list: Seq<ItemTagView>) -> Seq<XmlEventView> {
    list.map_values(|item: ItemTagView| XmlEventView::Empty(item_tag(item)))
}

/// One self-closing `item_group` tag for each grouped entry, in list order.
pub open spec fn group_events(list: Seq<ItemGroupTagView>) -> Seq<XmlEventView> {
    list.map_values(|item: ItemGroupTagView| XmlEventView::Empty(item_group_tag(item)))
}

/// The `stash` element: always a start tag, the entries and an end tag.
pub open spec fn stash_events(p: PersonView) -> Seq<XmlEventView> {
    seq![XmlEventView::Start(container_tag("stash"@, p.stash_hard_capacity))] + group_events(
        p.stash_item_list,
    ) + seq![XmlEventView::End("stash"@)]
}

/// The `backpack` element: one self-closing tag where the backpack is
/// empty, else a start tag, the entries and an end tag.
pub open spec fn backpack_events(p: PersonView) -> Seq<XmlEventView> {
    if p.backpack_item_list.len() == 0 {
        seq![XmlEventView::Empty(container_tag("backpack"@, p.backpack_hard_capacity))]
    } else {
        seq![XmlEventView::Start(container_tag("backpack"@, p.backpack_hard_capacity))]
            + group_events(p.backpack_item_list) + seq![XmlEventView::End("backpack"@)]
    }
}

/// The events of a person file: the `person` start tag, the order, the
/// equipped slots, the stash, the backpack and the `person` end tag.
pub open spec fn person_events(p: PersonView) -> Seq<XmlEventView> {
    seq![XmlEventView::Start(person_tag(p)), XmlEventView::Empty(order_tag(p.order))]
        + item_events(p.item_list) + stash_events(p) + backpack_events(p) + seq![
        XmlEventView::End("person"@),
    ]
}

/// An attribute with a text as its value.
fn text_attribute(key: &str, value: &str) -> (r: XmlAttribute)
    ensures
        r@ == attr(key@, value@),
{
    XmlAttribute { key: String::from_str(key), value: String::from_str(value) }
}

/// An attribute with a quantity as its value.
fn decimal_attribute(key: &str, value: Decimal) -> (r: XmlAttribute)
    ensures
        r@ == attr(key@, decimal_text(value.micros as int)),
{
    XmlAttribute { key: String::from_str(key), value: value.to_text() }
}

/// An attribute with an integer as its value.
fn int_attribute(key: &str, value: i64) -> (r: XmlAttribute)
    ensures
        r@ == attr(key@, int_text(value as int)),
{
    let mut text = String::new();
    push_int(&mut text, value);
    assert(text@ =~= int_text(value as int));
    XmlAttribute { key: String::from_str(key), value: text }
}

/// An attribute with a count as its value.
fn count_attribute(key: &str, value: u64) -> (r: XmlAttribute)
    ensures
        r@ == attr(key@, int_text(value as int)),
{
    let mut text = String::new();
    crate::text::push_nat(&mut text, value);
    assert(text@ =~= int_text(value as int));
    XmlAttribute { key: String::from_str(key), value: text }
}

/// Builds the `person` start tag.
fn build_person_tag(p: &Person) -> (r: XmlTag)
    ensures
        r@ == person_tag(p@),
{
    let mut attributes: Vec<XmlAttribute> = Vec::new();
    attributes.push(decimal_attribute("max_authority_reached", p.max_authority_reached));
    attributes.push(decimal_attribute("authority", p.authority));
    attributes.push(decimal_attribute("job_points", p.job_points));
    attributes.push(text_attribute("faction", p.faction.as_str()));
    attributes.push(text_attribute("name", p.name.as_str()));
    attributes.push(int_attribute("version", p.version as i64));
    attributes.push(int_attribute("alive", p.alive as i64));
    attributes.push(int_attribute("soldier_group_id", p.soldier_group_id as i64));
    attributes.push(text_attribute("soldier_group_name", p.soldier_group_name.as_str()));
    attributes.push(text_attribute("block", p.block.as_str()));
    attributes.push(decimal_attribute("squad_size_setting", p.squad_size_setting));
    let tag = XmlTag { name: String::from_str("person"), attributes };
    assert(tag@.attributes =~= person_attributes(p@));
    tag
}

/// Builds the `order` tag.
fn build_order_tag(order: &OrderTag) -> (r: XmlTag)
    ensures
        r@ == order_tag(order@),
{
    let mut attributes: Vec<XmlAttribute> = Vec::new();
    attributes.push(int_attribute("moving", order.moving as i64));
    attributes.push(text_attribute("target", order.target.as_str()));
    attributes.push(int_attribute("class", order.class as i64));
    let tag = XmlTag { name: String::from_str("order"), attributes };
    assert(tag@.attributes =~= order_tag(order@).attributes);
    tag
}

/// Builds the `item` tag of an equipped slot.
fn build_item_tag(item: &ItemTag) -> (r: XmlTag)
    ensures
        r@ == item_tag(item@),
{
    let mut attributes: Vec<XmlAttribute> = Vec::new();
    attributes.push(int_attribute("slot", item.slot as i64));
    attributes.push(int_attribute("index", item.index as i64));
    attributes.push(int_attribute("amount", item.amount as i64));
    attributes.push(text_attribute("key", item.key.as_str()));
    let tag = XmlTag { name: String::from_str("item"), attributes };
    assert(tag@.attributes =~= item_tag(item@).attributes);
    tag
}

/// Builds the `item_group` tag of a grouped entry.
fn build_item_group_tag(item: &ItemGroupTag) -> (r: XmlTag)
    ensures
        r@ == item_group_tag(item@),
{
    let mut attributes: Vec<XmlAttribute> = Vec::new();
    attributes.push(int_attribute("class", item.class as i64));
    attributes.push(int_attribute("index", item.index as i64));
    attributes.push(text_attribute("key", item.key.as_str()));
    attributes.push(count_attribute("amount", item.amount));
    let tag = XmlTag { name: String::from_str("item_group"), attributes };
    assert(tag@.attributes =~= item_group_tag(item@).attributes);
    tag
}

/// Builds the `stash` or `backpack` tag.
fn build_container_tag(name: &str, hard_capacity: u16) -> (r: XmlTag)
    ensures
        r@ == container_tag(name@, hard_capacity),
{
    let mut attributes: Vec<XmlAttribute> = Vec::new();
    attributes.push(int_attribute("hard_capacity", hard_capacity as i64));
    let tag = XmlTag { name: String::from_str(name), attributes };
    assert(tag@.attributes =~= container_tag(name@, hard_capacity).attributes);
    tag
}

/// Appends one `item` tag for each equipped slot.
fn push_item_events(events: &mut Vec<XmlEvent>, list: &Vec<ItemTag>)
    ensures
        event_views(final(events)@) == event_views(old(events)@) + item_events(
            item_views(list@),
        ),
{
    let ghost before = event_views(events@);
    let ghost all = item_events(item_views(list@));
    let mut i: usize = 0;
    assert(event_views(events@) =~= before + all.take(0));
    while i < list.len()
        invariant
            i <= list.len(),
            all == item_events(item_views(list@)),
            event_views(events@) == before + all.take(i as int),
        decreases list.len() - i,
    {
        let tag = build_item_tag(&list[i]);
        let ghost prior = events@;
        events.push(XmlEvent::Empty(tag));
        proof {
            assert(all[i as int] == XmlEventView::Empty(item_tag(list@[i as int]@)));
            assert(event_views(events@) =~= event_views(prior).push(XmlEventView::Empty(tag@)));
            assert(all.take(i + 1) =~= all.take(i as int).push(all[i as int]));
            assert(event_views(events@) =~= before + all.take(i + 1));
        }
        i = i + 1;
    }
    assert(all.take(i as int) =~= all);
}

/// Appends one `item_group` tag for each grouped entry.
fn push_group_events(events: &mut Vec<XmlEvent>, list: &Vec<ItemGroupTag>)
    ensures
        event_views(final(events)@) == event_views(old(events)@) + group_events(
            group_views(list@),
        ),
{
    let ghost before = event_views(events@);
    let ghost all = group_events(group_views(list@));
    let mut i: usize = 0;
    assert(event_views(events@) =~= before + all.take(0));
    while i < list.len()
        invariant
            i <= list.len(),
            all == group_events(group_views(list@)),
            event_views(events@) == before + all.take(i as int),
        decreases list.len() - i,
    {
        let tag = build_item_group_tag(&list[i]);
        let ghost prior = events@;
        events.push(XmlEvent::Empty(tag));
        proof {
            assert(all[i as int] == XmlEventView::Empty(item_group_tag(list@[i as int]@)));
            assert(event_views(events@) =~= event_views(prior).push(XmlEventView::Empty(tag@)));
            assert(all.take(i + 1) =~= all.take(i as int).push(all[i as int]));
            assert(event_views(events@) =~= before + all.take(i + 1));
        }
        i = i + 1;
    }
    assert(all.take(i as int) =~= all);
}

/// The events of a person file.
pub fn build_person_events(p: &Person) -> (r: Vec<XmlEvent>)
    ensures
        event_views(r@) == person_events(p@),
{
    let mut events: Vec<XmlEvent> = Vec::new();
    events.push(XmlEvent::Start(build_person_tag(p)));
    events.push(XmlEvent::Empty(build_order_tag(&p.order)));
    assert(event_views(events@) =~= seq![
        XmlEventView::Start(person_tag(p@)),
        XmlEventView::Empty(order_tag(p@.order)),
    ]);
    push_item_events(&mut events, &p.item_list);
    let ghost e1 = event_views(events@);
    events.push(XmlEvent::Start(build_container_tag("stash", p.stash_hard_capacity)));
    let ghost e2 = event_views(events@);
    assert(e2 =~= e1.push(XmlEventView::Start(container_tag("stash"@, p@.stash_hard_capacity))));
    push_group_events(&mut events, &p.stash_item_list);
    let ghost e3 = event_views(events@);
    events.push(XmlEvent::End(String::from_str("stash")));
    let ghost e4 = event_views(events@);
    assert(e4 =~= e3.push(XmlEventView::End("stash"@)));
    assert(e4 =~= e1 + stash_events(p@));
    if p.backpack_item_list.len() == 0 {
        events.push(XmlEvent::Empty(build_container_tag("backpack", p.backpack_hard_capacity)));
        assert(event_views(events@) =~= e4 + backpack_events(p@));
    } else {
        events.push(XmlEvent::Start(build_container_tag("backpack", p.backpack_hard_capacity)));
        let ghost e5 = event_views(events@);
        assert(e5 =~= e4.push(
            XmlEventView::Start(container_tag("backpack"@, p@.backpack_hard_capacity)),
        ));
        push_group_events(&mut events, &p.backpack_item_list);
        let ghost e6 = event_views(events@);
        events.push(XmlEvent::End(String::from_str("backpack")));
        assert(event_views(events@) =~= e6.push(XmlEventView::End("backpack"@)));
        assert(event_views(events@) =~= e4 + backpack_events(p@));
    }
    let ghost e7 = event_views(events@);
    events.push(XmlEvent::End(String::from_str("person")));
    assert(event_views(events@) =~= e7.push(XmlEventView::End("person"@)));
    assert(event_views(events@) =~= person_events(p@));
    events
}

/// A start tag, self-closing tags and an end tag can be written where
/// there is room for one more level of indentation, and leave the
/// indentation as long as it was.
pub proof fn lemma_element_writable(
    st: WriterState,
    tag: XmlTagView,
    inner: Seq<XmlEventView>,
    name: Seq<char>,
)
    requires
        st.indent_unit.len() == 4,
        st.indent.len() + 4 <= usize::MAX,
        forall|i: int| 0 <= i < inner.len() ==> (#[trigger] inner[i]) is Empty,
    ensures
        fits(st, seq![XmlEventView::Start(tag)] + inner + seq![XmlEventView::End(name)]),
        after_events(
            st,
            seq![XmlEventView::Start(tag)] + inner + seq![XmlEventView::End(name)],
        ).indent.len() == st.indent.len(),
        after_events(
            st,
            seq![XmlEventView::Start(tag)] + inner + seq![XmlEventView::End(name)],
        ).indent_unit == st.indent_unit,
{
    let start = seq![XmlEventView::Start(tag)];
    let end = seq![XmlEventView::End(name)];
    lemma_write_one(st, XmlEventView::Start(tag));
    let s1 = after_events(st, start);
    lemma_write_empty_tags(s1, inner);
    lemma_write_concat(st, start, inner);
    let s2 = after_events(st, start + inner);
    lemma_write_one(s2, XmlEventView::End(name));
    lemma_write_concat(st, start + inner, end);
}

/// The events of a person can always be written: they never nest deeper
/// than two levels.
pub proof fn lemma_person_events_writable(p: PersonView)
    ensures
        writable(person_events(p)),
{
    let s0 = initial_writer(32, 4);
    let e_person = XmlEventView::Start(person_tag(p));
    let e_order = XmlEventView::Empty(order_tag(p.order));
    let e_end = XmlEventView::End("person"@);
    let head = seq![e_person, e_order];
    let items = item_events(p.item_list);
    lemma_write_one(s0, e_person);
    let s1 = after_events(s0, seq![e_person]);
    lemma_write_one(s1, e_order);
    lemma_write_concat(s0, seq![e_person], seq![e_order]);
    assert(seq![e_person] + seq![e_order] =~= head);
    let s2 = after_events(s0, head);
    assert(s2.indent.len() == 4 && s2.indent_unit.len() == 4);
    lemma_write_empty_tags(s2, items);
    lemma_write_concat(s0, head, items);
    let s3 = after_events(s0, head + items);
    assert(s3.indent.len() == 4 && s3.indent_unit.len() == 4);
    lemma_element_writable(
        s3,
        container_tag("stash"@, p.stash_hard_capacity),
        group_events(p.stash_item_list),
        "stash"@,
    );
    lemma_write_concat(s0, head + items, stash_events(p));
    let s4 = after_events(s0, head + items + stash_events(p));
    assert(s4.indent.len() == 4 && s4.indent_unit.len() == 4);
    if p.backpack_item_list.len() == 0 {
        lemma_write_one(
            s4,
            XmlEventView::Empty(container_tag("backpack"@, p.backpack_hard_capacity)),
        );
    } else {
        lemma_element_writable(
            s4,
            container_tag("backpack"@, p.backpack_hard_capacity),
            group_events(p.backpack_item_list),
            "backpack"@,
        );
    }
    lemma_write_concat(s0, head + items + stash_events(p), backpack_events(p));
    let s5 = after_events(s0, head + items + stash_events(p) + backpack_events(p));
    lemma_write_one(s5, e_end);
    lemma_write_concat(
        s0,
        head + items + stash_events(p) + backpack_events(p),
        seq![e_end],
    );
}

/// Encodes a person as the text of its file: its events, written with four
/// spaces of indentation per level. Every person can be encoded.
pub fn save_person(p: &Person) -> (r: Result<String, ErrorKind>)
    ensures
        r is Ok,
        encode_utf8(r->Ok_0@) == xml_bytes(person_events(p@)),
{
    let events = build_person_events(p);
    proof {
        lemma_person_events_writable(p@);
        lemma_xml_bytes_are_utf8(person_events(p@));
    }
    match write_events(&events) {
        Ok(bytes) => match str_from_utf8(bytes.as_slice()) {
            Some(text) => Ok(text.to_owned()),
            None => Err(ErrorKind::IOError),
        },
        Err(e) => Err(e),
    }
}

/// The views of a list of persons with their ids.
pub open spec fn entity_views(all: Seq<(u64, Person)>) -> Seq<(u64, PersonView)> {
    all.map_values(|e: (u64, Person)| (e.0, e.1@))
}

/// The persons that an insertion changes, each with its id, in the order
/// they were given.
pub open spec fn insert_updates(all: Seq<(u64, PersonView)>, incoming: Seq<ItemGroupTagView>)
    -> Seq<(u64, PersonView)>
    decreases all.len(),
{
    if all.len() == 0 {
        Seq::<(u64, PersonView)>::empty()
    } else {
        match inserted(all.last().1, incoming) {
            Ok(q) => insert_updates(all.drop_last(), incoming).push((all.last().0, q)),
            Err(_) => insert_updates(all.drop_last(), incoming),
        }
    }
}

/// The ids of the persons that an insertion skips, each with the reason,
/// in the order they were given.
pub open spec fn insert_skips(all: Seq<(u64, PersonView)>, incoming: Seq<ItemGroupTagView>) -> Seq<
    (u64, ErrorKind),
>
    decreases all.len(),
{
    if all.len() == 0 {
        Seq::<(u64, ErrorKind)>::empty()
    } else {
        match inserted(all.last().1, incoming) {
            Ok(_) => insert_skips(all.drop_last(), incoming),
            Err(e) => insert_skips(all.drop_last(), incoming).push((all.last().0, e)),
        }
    }
}

/// The persons after a deletion, each with its id.
pub open spec fn delete_updates(all: Seq<(u64, PersonView)>, keys: Seq<Seq<char>>) -> Seq<
    (u64, PersonView),
> {
    all.map_values(|e: (u64, PersonView)| (e.0, deleted(e.1, keys)))
}

/// The persons that a change of soldier group changes, each with its id,
/// in the order they were given.
pub open spec fn group_updates(all: Seq<(u64, PersonView)>, group: Seq<char>, cost: Decimal)
    -> Seq<(u64, PersonView)>
    decreases all.len(),
{
    if all.len() == 0 {
        Seq::<(u64, PersonView)>::empty()
    } else {
        match regrouped(all.last().1, group, cost) {
            Ok(q) => group_updates(all.drop_last(), group, cost).push((all.last().0, q)),
            Err(_) => group_updates(all.drop_last(), group, cost),
        }
    }
}

/// The ids of the persons that a change of soldier group skips, each with
/// the reason, in the order they were given.
pub open spec fn group_skips(all: Seq<(u64, PersonView)>, group: Seq<char>, cost: Decimal) -> Seq<
    (u64, ErrorKind),
>
    decreases all.len(),
{
    if all.len() == 0 {
        Seq::<(u64, ErrorKind)>::empty()
    } else {
        match regrouped(all.last().1, group, cost) {
            Ok(_) => group_skips(all.drop_last(), group, cost),
            Err(e) => group_skips(all.drop_last(), group, cost).push((all.last().0, e)),
        }
    }
}

/// Inserts `item_list` into the backpack of each person.
///
/// Hands back the changed persons, to be written back, and the ids of the
/// persons that were skipped because the insertion would exceed the hard
/// capacity of their backpack.
pub fn insert_person_list_backpack(
    all_person_list: &Vec<(u64, Person)>,
    item_list: &Vec<ItemGroupTag>,
) -> (r: (Vec<(u64, Person)>, Vec<(u64, ErrorKind)>))
    ensures
        entity_views(r.0@) == insert_updates(
            entity_views(all_person_list@),
            group_views(item_list@),
        ),
        r.1@ == insert_skips(entity_views(all_person_list@), group_views(item_list@)),
{
    let ghost all = entity_views(all_person_list@);
    let ghost incoming = group_views(item_list@);
    let mut updated: Vec<(u64, Person)> = Vec::new();
    let mut skipped: Vec<(u64, ErrorKind)> = Vec::new();
    let mut i: usize = 0;
    assert(all.take(0) =~= Seq::<(u64, PersonView)>::empty());
    assert(entity_views(updated@) =~= Seq::<(u64, PersonView)>::empty());
    while i < all_person_list.len()
        invariant
            i <= all_person_list.len(),
            all == entity_views(all_person_list@),
            incoming == group_views(item_list@),
            entity_views(updated@) == insert_updates(all.take(i as int), incoming),
            skipped@ == insert_skips(all.take(i as int), incoming),
        decreases all_person_list.len() - i,
    {
        proof {
            assert(all.take(i + 1).drop_last() =~= all.take(i as int));
            assert(all.take(i + 1).last() == (
                all_person_list@[i as int].0,
                all_person_list@[i as int].1@,
            ));
        }
        let id = all_person_list[i].0;
        match insert_backpack(&all_person_list[i].1, item_list) {
            Ok(q) => {
                let ghost prior = entity_views(updated@);
                let ghost qv = q@;
                updated.push((id, q));
                assert(entity_views(updated@) =~= prior.push((id, qv)));
            },
            Err(e) => {
                skipped.push((id, e));
            },
        }
        i = i + 1;
    }
    assert(all.take(i as int) =~= all);
    (updated, skipped)
}

/// Deletes the items of the keys in `item_list` from each person.
///
/// Hands back the changed persons, to be written back. No person is
/// skipped.
pub fn delete_person_item_list(all_person_list: &Vec<(u64, Person)>, item_list: &Vec<String>) -> (r:
    Vec<(u64, Person)>)
    ensures
        entity_views(r@) == delete_updates(entity_views(all_person_list@), key_views(item_list@)),
{
    let mut updated: Vec<(u64, Person)> = Vec::new();
    let mut i: usize = 0;
    while i < all_person_list.len()
        invariant
            i <= all_person_list.len(),
            updated.len() == i,
            forall|k: int|
                0 <= k < i ==> (#[trigger] updated@[k]).0 == all_person_list@[k].0 && updated@[k].1@
                    == deleted(all_person_list@[k].1@, key_views(item_list@)),
        decreases all_person_list.len() - i,
    {
        let id = all_person_list[i].0;
        let q = delete_items(&all_person_list[i].1, item_list);
        updated.push((id, q));
        i = i + 1;
    }
    assert(entity_views(updated@) =~= delete_updates(
        entity_views(all_person_list@),
        key_views(item_list@),
    ));
    updated
}

/// Moves each person to the soldier group `group` for `cost` job points.
///
/// Hands back the changed persons, to be written back, and the ids of the
/// persons that were skipped because they have fewer job points than
/// `cost`.
pub fn update_person_list_soldier_group(
    all_person_list: &Vec<(u64, Person)>,
    group: &str,
    cost: Decimal,
) -> (r: (Vec<(u64, Person)>, Vec<(u64, ErrorKind)>))
    ensures
        entity_views(r.0@) == group_updates(entity_views(all_person_list@), group@, cost),
        r.1@ == group_skips(entity_views(all_person_list@), group@, cost),
{
    let ghost all = entity_views(all_person_list@);
    let mut updated: Vec<(u64, Person)> = Vec::new();
    let mut skipped: Vec<(u64, ErrorKind)> = Vec::new();
    let mut i: usize = 0;
    assert(all.take(0) =~= Seq::<(u64, PersonView)>::empty());
    assert(entity_views(updated@) =~= Seq::<(u64, PersonView)>::empty());
    while i < all_person_list.len()
        invariant
            i <= all_person_list.len(),
            all == entity_views(all_person_list@),
            entity_views(updated@) == group_updates(all.take(i as int), group@, cost),
            skipped@ == group_skips(all.take(i as int), group@, cost),
        decreases all_person_list.len() - i,
    {
        proof {
            assert(all.take(i + 1).drop_last() =~= all.take(i as int));
            assert(all.take(i + 1).last() == (
                all_person_list@[i as int].0,
                all_person_list@[i as int].1@,
            ));
        }
        let id = all_person_list[i].0;
        match update_soldier_group(&all_person_list[i].1, group, cost) {
            Ok(q) => {
                let ghost prior = entity_views(updated@);
                let ghost qv = q@;
                updated.push((id, q));
                assert(entity_views(updated@) =~= prior.push((id, qv)));
            },
            Err(e) => {
                skipped.push((id, e));
            },
        }
        i = i + 1;
    }
    assert(all.take(i as int) =~= all);
    (updated, skipped)
}

} // verus!
