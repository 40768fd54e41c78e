//! Decoding a person from the events of its file.
use vstd::prelude::*;
use vstd::string::*;
use crate::decimal::decimal_field;
use crate::decimal::parse_decimal;
use crate::error::ErrorKind;
use crate::person::model::default_order;
use crate::person::model::default_person;
use crate::person::model::group_views;
use crate::person::model::item_views;
use crate::person::model::ItemGroupTag;
use crate::person::model::ItemGroupTagView;
use crate::person::model::ItemTag;
use crate::person::model::ItemTagView;
use crate::person::model::OrderTag;
use crate::person::model::OrderTagView;
use crate::person::model::Person;
use crate::person::model::PersonView;
use crate::text::i32_of_text;
use crate::text::i8_of_text;
use crate::text::parse_i32;
use crate::text::parse_i8;
use crate::text::parse_u16;
use crate::text::parse_u64;
use crate::text::same_text;
use crate::text::u16_of_text;
use crate::text::u64_of_text;
use crate::xml::attribute_views;
use crate::xml::event_views;
use crate::xml::read_events;
use crate::xml::read_of;
use crate::xml::XmlAttribute;
use crate::xml::XmlAttributeView;
use crate::xml::XmlEvent;
use crate::xml::XmlEventView;
use crate::xml::XmlTagView;

verus! {

/// A person with one attribute of the `person` tag taken in. An attribute
/// of an unknown name changes nothing; a number that cannot be read gives
/// `None`.
pub open spec fn person_with_attribute(p: PersonView, a: XmlAttributeView) -> Option<PersonView> {
    if a.key == "max_authority_reached"@ {
        match decimal_field(a.value) {
            Some(v) => Some(PersonView { max_authority_reached: v, ..p }),
            None => None,
        }
    } else if a.key == "authority"@ {
        match decimal_field(a.value) {
            Some(v) => Some(PersonView { authority: v, ..p }),
            None => None,
        }
    } else if a.key == "job_points"@ {
        match decimal_field(a.value) {
            Some(v) => Some(PersonView { job_points: v, ..p }),
            None => None,
        }
    } else if a.key == "faction"@ {
        Some(PersonView { faction: a.value, ..p })
    } else if a.key == "name"@ {
        Some(PersonView { name: a.value, ..p })
    } else if a.key == "version"@ {
        match u16_of_text(a.value) {
            Some(v) => Some(PersonView { version: v, ..p }),
            None => None,
        }
    } else if a.key == "alive"@ {
        match i8_of_text(a.value) {
            Some(v) => Some(PersonView { alive: v, ..p }),
            None => None,
        }
    } else if a.key == "soldier_group_id"@ {
        match i8_of_text(a.value) {
            Some(v) => Some(PersonView { soldier_group_id: v, ..p }),
            None => None,
        }
    } else if a.key == "soldier_group_name"@ {
        Some(PersonView { soldier_group_name: a.value, ..p })
    } else if a.key == "block"@ {
        Some(PersonView { block: a.value, ..p })
    } else if a.key == "squad_size_setting"@ {
        match decimal_field(a.value) {
            Some(v) => Some(PersonView { squad_size_setting: v, ..p }),
            None => None,
        }
    } else {
        Some(p)
    }
}

/// A person with the attributes of the `person` tag taken in, in order.
pub open spec fn person_with_attributes(p: PersonView, list: Seq<XmlAttributeView>) -> Option<
    PersonView,
>
    decreases list.len(),
{
    if list.len() == 0 {
        Some(p)
    } else {
        match person_with_attributes(p, list.drop_last()) {
            Some(q) => person_with_attribute(q, list.last()),
            None => None,
        }
    }
}

/// An order with one attribute of the `order` tag taken in.
pub open spec fn order_with_attribute(o: OrderTagView, a: XmlAttributeView) -> Option<
    OrderTagView,
> {
    if a.key == "moving"@ {
        match i32_of_text(a.value) {
            Some(v) => Some(OrderTagView { moving: v, ..o }),
            None => None,
        }
    } else if a.key == "target"@ {
        Some(OrderTagView { target: a.value, ..o })
    } else if a.key == "class"@ {
        match i8_of_text(a.value) {
            Some(v) => Some(OrderTagView { class: v, ..o }),
            None => None,
        }
    } else {
        Some(o)
    }
}

/// An order with the attributes of the `order` tag taken in, in order.
pub open spec fn order_with_attributes(o: OrderTagView, list: Seq<XmlAttributeView>) -> Option<
    OrderTagView,
>
    decreases list.len(),
{
    if list.len() == 0 {
        Some(o)
    } else {
        match order_with_attributes(o, list.drop_last()) {
            Some(q) => order_with_attribute(q, list.last()),
            None => None,
        }
    }
}

/// An equipped slot with one attribute of an `item` tag taken in.
pub open spec fn item_with_attribute(i: ItemTagView, a: XmlAttributeView) -> Option<ItemTagView> {
    if a.key == "slot"@ {
        match i8_of_text(a.value) {
            Some(v) => Some(ItemTagView { slot: v, ..i }),
            None => None,
        }
    } else if a.key == "index"@ {
        match i32_of_text(a.value) {
            Some(v) => Some(ItemTagView { index: v, ..i }),
            None => None,
        }
    } else if a.key == "amount"@ {
        match i8_of_text(a.value) {
            Some(v) => Some(ItemTagView { amount: v, ..i }),
            None => None,
        }
    } else if a.key == "key"@ {
        Some(ItemTagView { key: a.value, ..i })
    } else {
        Some(i)
    }
}

/// An equipped slot with the attributes of an `item` tag taken in, in order.
pub open spec fn item_with_attributes(i: ItemTagView, list: Seq<XmlAttributeView>) -> Option<
    ItemTagView,
>
    decreases list.len(),
{
    if list.len() == 0 {
        Some(i)
    } else {
        match item_with_attributes(i, list.drop_last()) {
            Some(q) => item_with_attribute(q, list.last()),
            None => None,
        }
    }
}

/// A grouped entry with one attribute of an `item_group` tag taken in.
pub open spec fn group_with_attribute(g: ItemGroupTagView, a: XmlAttributeView) -> Option<
    ItemGroupTagView,
> {
    if a.key == "class"@ {
        match i8_of_text(a.value) {
            Some(v) => Some(ItemGroupTagView { class: v, ..g }),
            None => None,
        }
    } else if a.key == "index"@ {
        match i32_of_text(a.value) {
            Some(v) => Some(ItemGroupTagView { index: v, ..g }),
            None => None,
        }
    } else if a.key == "key"@ {
        Some(ItemGroupTagView { key: a.value, ..g })
    } else if a.key == "amount"@ {
        match u64_of_text(a.value) {
            Some(v) => Some(ItemGroupTagView { amount: v, ..g }),
            None => None,
        }
    } else {
        Some(g)
    }
}

/// A grouped entry with the attributes of an `item_group` tag taken in, in
/// order.
pub open spec fn group_with_attributes(g: ItemGroupTagView, list: Seq<XmlAttributeView>)
    -> Option<ItemGroupTagView>
    decreases list.len(),
{
    if list.len() == 0 {
        Some(g)
    } else {
        match group_with_attributes(g, list.drop_last()) {
            Some(q) => group_with_attribute(q, list.last()),
            None => None,
        }
    }
}

/// A hard capacity with one attribute of a `stash` or `backpack` tag taken
/// in: `hard_capacity` replaces it.
pub open spec fn capacity_with_attribute(c: u16, a: XmlAttributeView) -> Option<u16> {
    if a.key == "hard_capacity"@ {
        u16_of_text(a.value)
    } else {
        Some(c)
    }
}

/// A hard capacity with the attributes of a `stash` or `backpack` tag taken
/// in, in order.
pub open spec fn capacity_with_attributes(c: u16, list: Seq<XmlAttributeView>) -> Option<u16>
    decreases list.len(),
{
    if list.len() == 0 {
        Some(c)
    } else {
        match capacity_with_attributes(c, list.drop_last()) {
            Some(q) => capacity_with_attribute(q, list.last()),
            None => None,
        }
    }
}

/// The equipped slot that an `item` tag without attributes stands for.
pub open spec fn default_item() -> ItemTagView {
    ItemTagView { slot: 0, index: 0, amount: 0, key: Seq::<char>::empty() }
}

/// The grouped entry that an `item_group` tag without attributes stands for.
pub open spec fn default_group() -> ItemGroupTagView {
    ItemGroupTagView { class: 0, index: 0, key: Seq::<char>::empty(), amount: 0 }
}

/// What the decoder knows between two events: the person so far and
/// whether it stands inside `stash` or inside `backpack`.
pub struct DecodeState {
    pub person: PersonView,
    pub in_stash: bool,
    pub in_backpack: bool,
}

/// The state that decoding starts in: the default person, at top level.
pub open spec fn initial_state() -> DecodeState {
    DecodeState { person: default_person(), in_stash: false, in_backpack: false }
}

/// The state after a start tag. `person` gives the scalar fields; `stash`
/// and `backpack` are entered and may declare their hard capacity; any
/// other element is passed over.
pub open spec fn after_start(st: DecodeState, tag: XmlTagView) -> Option<DecodeState> {
    if tag.name == "person"@ {
        match person_with_attributes(st.person, tag.attributes) {
            Some(p) => Some(DecodeState { person: p, ..st }),
            None => None,
        }
    } else if tag.name == "stash"@ {
        match capacity_with_attributes(st.person.stash_hard_capacity, tag.attributes) {
            Some(c) => Some(
                DecodeState {
                    person: PersonView { stash_hard_capacity: c, ..st.person },
                    in_stash: true,
                    ..st
                },
            ),
            None => None,
        }
    } else if tag.name == "backpack"@ {
        match capacity_with_attributes(st.person.backpack_hard_capacity, tag.attributes) {
            Some(c) => Some(
                DecodeState {
                    person: PersonView { backpack_hard_capacity: c, ..st.person },
                    in_backpack: true,
                    ..st
                },
            ),
            None => None,
        }
    } else {
        Some(st)
    }
}

/// The state after a self-closing tag. `order` replaces the order;
/// `item_group` adds an entry to the backpack or the stash, whichever the
/// decoder stands in, the backpack first; `item` adds an equipped slot at
/// top level. An `item_group` at top level and an `item` inside a list are
/// read and dropped. Any other element is passed over, a self-closing
/// `stash` or `backpack` too.
pub open spec fn after_empty(st: DecodeState, tag: XmlTagView) -> Option<DecodeState> {
    if tag.name == "order"@ {
        match order_with_attributes(default_order(), tag.attributes) {
            Some(o) => Some(DecodeState { person: PersonView { order: o, ..st.person }, ..st }),
            None => None,
        }
    } else if tag.name == "item_group"@ {
        match group_with_attributes(default_group(), tag.attributes) {
            Some(g) => if st.in_backpack {
                Some(
                    DecodeState {
                        person: PersonView {
                            backpack_item_list: st.person.backpack_item_list.push(g),
                            ..st.person
                        },
                        ..st
                    },
                )
            } else if st.in_stash {
                Some(
                    DecodeState {
                        person: PersonView {
                            stash_item_list: st.person.stash_item_list.push(g),
                            ..st.person
                        },
                        ..st
                    },
                )
            } else {
                Some(st)
            },
            None => None,
        }
    } else if tag.name == "item"@ {
        match item_with_attributes(default_item(), tag.attributes) {
            Some(i) => if !st.in_backpack && !st.in_stash {
                Some(
                    DecodeState {
                        person: PersonView { item_list: st.person.item_list.push(i), ..st.person },
                        ..st
                    },
                )
            } else {
                Some(st)
            },
            None => None,
        }
    } else {
        Some(st)
    }
}

/// The state after an end tag: `stash` and `backpack` are left.
pub open spec fn after_end(st: DecodeState, name: Seq<char>) -> DecodeState {
    if name == "stash"@ {
        DecodeState { in_stash: false, ..st }
    } else if name == "backpack"@ {
        DecodeState { in_backpack: false, ..st }
    } else {
        st
    }
}

/// The state after one event; `None` where a number cannot be read.
pub open spec fn decode_step(st: DecodeState, event: XmlEventView) -> Option<DecodeState> {
    match event {
        XmlEventView::Start(tag) => after_start(st, tag),
        XmlEventView::Empty(tag) => after_empty(st, tag),
        XmlEventView::End(name) => Some(after_end(st, name)),
    }
}

/// The state after a list of events, taken in order.
pub open spec fn decode_events(st: DecodeState, events: Seq<XmlEventView>) -> Option<DecodeState>
    decreases events.len(),
{
    if events.len() == 0 {
        Some(st)
    } else {
        match decode_events(st, events.drop_last()) {
            Some(q) => decode_step(q, events.last()),
            None => None,
        }
    }
}

/// The person that a list of events describes; `None` where a number cannot
/// be read.
pub open spec fn person_of_events(events: Seq<XmlEventView>) -> Option<PersonView> {
    match decode_events(initial_state(), events) {
        Some(st) => Some(st.person),
        None => None,
    }
}

/// Takes one attribute of the `person` tag in.
fn apply_person_attribute(p: &mut Person, a: &XmlAttribute) -> (r: Result<(), ErrorKind>)
    ensures
        match r {
            Ok(()) => person_with_attribute(old(p)@, a@) == Some(final(p)@),
            Err(e) => e == ErrorKind::ParseError && person_with_attribute(old(p)@, a@) is None,
        },
{
    let key = a.key.as_str();
    let value = a.value.as_str();
    if same_text(key, "max_authority_reached") {
        match parse_decimal(value) {
            Some(v) => {
                p.max_authority_reached = v;
            },
            None => {
                return Err(ErrorKind::ParseError);
            },
        }
    } else if same_text(key, "authority") {
        match parse_decimal(value) {
            Some(v) => {
                p.authority = v;
            },
            None => {
                return Err(ErrorKind::ParseError);
            },
        }
    } else if same_text(key, "job_points") {
        match parse_decimal(value) {
            Some(v) => {
                p.job_points = v;
            },
            None => {
                return Err(ErrorKind::ParseError);
            },
        }
    } else if same_text(key, "faction") {
        p.faction = a.value.clone();
    } else if same_text(key, "name") {
        p.name = a.value.clone();
    } else if same_text(key, "version") {
        match parse_u16(value) {
            Some(v) => {
                p.version = v;
            },
            None => {
                return Err(ErrorKind::ParseError);
            },
        }
    } else if same_text(key, "alive") {
        match parse_i8(value) {
            Some(v) => {
                p.alive = v;
            },
            None => {
                return Err(ErrorKind::ParseError);
            },
        }
    } else if same_text(key, "soldier_group_id") {
        match parse_i8(value) {
            Some(v) => {
                p.soldier_group_id = v;
            },
            None => {
                return Err(ErrorKind::ParseError);
            },
        }
    } else if same_text(key, "soldier_group_name") {
        p.soldier_group_name = a.value.clone();
    } else if same_text(key, "block") {
        p.block = a.value.clone();
    } else if same_text(key, "squad_size_setting") {
        match parse_decimal(value) {
            Some(v) => {
                p.squad_size_setting = v;
            },
            None => {
                return Err(ErrorKind::ParseError);
            },
        }
    }
    Ok(())
}

/// Takes the attributes of the `person` tag in.
pub fn apply_person_attributes(p: &mut Person, list: &Vec<XmlAttribute>) -> (r: Result<(), ErrorKind>)
    ensures
        match r {
            Ok(()) => person_with_attributes(old(p)@, attribute_views(list@)) == Some(final(p)@),
            Err(e) => e == ErrorKind::ParseError && person_with_attributes(
                old(p)@,
                attribute_views(list@),
            ) is None,
        },
{
    let ghost start = p@;
    let ghost all = attribute_views(list@);
    let mut i: usize = 0;
    assert(all.take(0) =~= Seq::<XmlAttributeView>::empty());
    while i < list.len()
        invariant
            i <= list.len(),
            all == attribute_views(list@),
            start == old(p)@,
            person_with_attributes(start, all.take(i as int)) == Some(p@),
        decreases list.len() - i,
    {
        proof {
            assert(all.take(i + 1).drop_last() =~= all.take(i as int));
            assert(all.take(i + 1).last() == list@[i as int]@);
            lemma_person_prefix_fails(start, all, i + 1);
        }
        match apply_person_attribute(p, &list[i]) {
            Ok(()) => {},
            Err(e) => {
                return Err(e);
            },
        }
        i = i + 1;
    }
    assert(all.take(i as int) =~= all);
    Ok(())
}

/// Where a prefix of the attributes cannot be taken in, the whole list
/// cannot.
pub proof fn lemma_person_prefix_fails(p: PersonView, list: Seq<XmlAttributeView>, k: int)
    requires
        0 <= k <= list.len(),
    ensures
        person_with_attributes(p, list.take(k)) is None ==> person_with_attributes(p, list) is None,
    decreases list.len(),
{
    if k == list.len() {
        assert(list.take(k) =~= list);
    } else {
        assert(list.drop_last().take(k) =~= list.take(k));
        lemma_person_prefix_fails(p, list.drop_last(), k);
    }
}

/// Where a prefix of the attributes cannot be taken in, the whole list
/// cannot.
pub proof fn lemma_order_prefix_fails(start: OrderTagView, list: Seq<XmlAttributeView>, k: int)
    requires
        0 <= k <= list.len(),
    ensures
        order_with_attributes(start, list.take(k)) is None ==> order_with_attributes(
            start,
            list,
        ) is None,
    decreases list.len(),
{
    if k == list.len() {
        assert(list.take(k) =~= list);
    } else {
        assert(list.drop_last().take(k) =~= list.take(k));
        lemma_order_prefix_fails(start, list.drop_last(), k);
    }
}

/// Where a prefix of the attributes cannot be taken in, the whole list
/// cannot.
pub proof fn lemma_item_prefix_fails(start: ItemTagView, list: Seq<XmlAttributeView>, k: int)
    requires
        0 <= k <= list.len(),
    ensures
        item_with_attributes(start, list.take(k)) is None ==> item_with_attributes(
            start,
            list,
        ) is None,
    decreases list.len(),
{
    if k == list.len() {
        assert(list.take(k) =~= list);
    } else {
        assert(list.drop_last().take(k) =~= list.take(k));
        lemma_item_prefix_fails(start, list.drop_last(), k);
    }
}

/// Where a prefix of the attributes cannot be taken in, the whole list
/// cannot.
pub proof fn lemma_group_prefix_fails(start: ItemGroupTagView, list: Seq<XmlAttributeView>, k: int)
    requires
        0 <= k <= list.len(),
    ensures
        group_with_attributes(start, list.take(k)) is None ==> group_with_attributes(
            start,
            list,
        ) is None,
    decreases list.len(),
{
    if k == list.len() {
        assert(list.take(k) =~= list);
    } else {
        assert(list.drop_last().take(k) =~= list.take(k));
        lemma_group_prefix_fails(start, list.drop_last(), k);
    }
}

/// Where a prefix of the attributes cannot be taken in, the whole list
/// cannot.
pub proof fn lemma_capacity_prefix_fails(start: u16, list: Seq<XmlAttributeView>, k: int)
    requires
        0 <= k <= list.len(),
    ensures
        capacity_with_attributes(start, list.take(k)) is None ==> capacity_with_attributes(
            start,
            list,
        ) is None,
    decreases list.len(),
{
    if k == list.len() {
        assert(list.take(k) =~= list);
    } else {
        assert(list.drop_last().take(k) =~= list.take(k));
        lemma_capacity_prefix_fails(start, list.drop_last(), k);
    }
}

/// Takes one attribute of the `order` tag in.
fn apply_order_attribute(o: &mut OrderTag, a: &XmlAttribute) -> (r: Result<(), ErrorKind>)
    ensures
        match r {
            Ok(()) => order_with_attribute(old(o)@, a@) == Some(final(o)@),
            Err(e) => e == ErrorKind::ParseError && order_with_attribute(old(o)@, a@) is None,
        },
{
    let key = a.key.as_str();
    let value = a.value.as_str();
    if same_text(key, "moving") {
        match parse_i32(value) {
            Some(v) => {
                o.moving = v;
            },
            None => {
                return Err(ErrorKind::ParseError);
            },
        }
    } else if same_text(key, "target") {
        o.target = a.value.clone();
    } else if same_text(key, "class") {
        match parse_i8(value) {
            Some(v) => {
                o.class = v;
            },
            None => {
                return Err(ErrorKind::ParseError);
            },
        }
    }
    Ok(())
}

/// Reads the order that the attributes of an `order` tag describe.
pub fn read_order(list: &Vec<XmlAttribute>) -> (r: Result<OrderTag, ErrorKind>)
    ensures
        match r {
            Ok(o) => order_with_attributes(default_order(), attribute_views(list@)) == Some(o@),
            Err(e) => e == ErrorKind::ParseError && order_with_attributes(
                default_order(),
                attribute_views(list@),
            ) is None,
        },
{
    let mut o = OrderTag::default();
    let ghost all = attribute_views(list@);
    let mut i: usize = 0;
    assert(all.take(0) =~= Seq::<XmlAttributeView>::empty());
    while i < list.len()
        invariant
            i <= list.len(),
            all == attribute_views(list@),
            order_with_attributes(default_order(), all.take(i as int)) == Some(o@),
        decreases list.len() - i,
    {
        proof {
            assert(all.take(i + 1).drop_last() =~= all.take(i as int));
            assert(all.take(i + 1).last() == list@[i as int]@);
            lemma_order_prefix_fails(default_order(), all, i + 1);
        }
        match apply_order_attribute(&mut o, &list[i]) {
            Ok(()) => {},
            Err(e) => {
                return Err(e);
            },
        }
        i = i + 1;
    }
    assert(all.take(i as int) =~= all);
    Ok(o)
}

/// Takes one attribute of an `item` tag in.
fn apply_item_attribute(item: &mut ItemTag, a: &XmlAttribute) -> (r: Result<(), ErrorKind>)
    ensures
        match r {
            Ok(()) => item_with_attribute(old(item)@, a@) == Some(final(item)@),
            Err(e) => e == ErrorKind::ParseError && item_with_attribute(old(item)@, a@) is None,
        },
{
    let key = a.key.as_str();
    let value = a.value.as_str();
    if same_text(key, "slot") {
        match parse_i8(value) {
            Some(v) => {
                item.slot = v;
            },
            None => {
                return Err(ErrorKind::ParseError);
            },
        }
    } else if same_text(key, "index") {
        match parse_i32(value) {
            Some(v) => {
                item.index = v;
            },
            None => {
                return Err(ErrorKind::ParseError);
            },
        }
    } else if same_text(key, "amount") {
        match parse_i8(value) {
            Some(v) => {
                item.amount = v;
            },
            None => {
                return Err(ErrorKind::ParseError);
            },
        }
    } else if same_text(key, "key") {
        item.key = a.value.clone();
    }
    Ok(())
}

/// Reads the equipped slot that the attributes of an `item` tag describe.
pub fn read_item(list: &Vec<XmlAttribute>) -> (r: Result<ItemTag, ErrorKind>)
    ensures
        match r {
            Ok(item) => item_with_attributes(default_item(), attribute_views(list@)) == Some(
                item@,
            ),
            Err(e) => e == ErrorKind::ParseError && item_with_attributes(
                default_item(),
                attribute_views(list@),
            ) is None,
        },
{
    let mut item = ItemTag::default();
    let ghost all = attribute_views(list@);
    let mut i: usize = 0;
    assert(all.take(0) =~= Seq::<XmlAttributeView>::empty());
    while i < list.len()
        invariant
            i <= list.len(),
            all == attribute_views(list@),
            item_with_attributes(default_item(), all.take(i as int)) == Some(item@),
        decreases list.len() - i,
    {
        proof {
            assert(all.take(i + 1).drop_last() =~= all.take(i as int));
            assert(all.take(i + 1).last() == list@[i as int]@);
            lemma_item_prefix_fails(default_item(), all, i + 1);
        }
        match apply_item_attribute(&mut item, &list[i]) {
            Ok(()) => {},
            Err(e) => {
                return Err(e);
            },
        }
        i = i + 1;
    }
    assert(all.take(i as int) =~= all);
    Ok(item)
}

/// Takes one attribute of an `item_group` tag in.
fn apply_group_attribute(g: &mut ItemGroupTag, a: &XmlAttribute) -> (r: Result<(), ErrorKind>)
    ensures
        match r {
            Ok(()) => group_with_attribute(old(g)@, a@) == Some(final(g)@),
            Err(e) => e == ErrorKind::ParseError && group_with_attribute(old(g)@, a@) is None,
        },
{
    let key = a.key.as_str();
    let value = a.value.as_str();
    if same_text(key, "class") {
        match parse_i8(value) {
            Some(v) => {
                g.class = v;
            },
            None => {
                return Err(ErrorKind::ParseError);
            },
        }
    } else if same_text(key, "index") {
        match parse_i32(value) {
            Some(v) => {
                g.index = v;
            },
            None => {
                return Err(ErrorKind::ParseError);
            },
        }
    } else if same_text(key, "key") {
        g.key = a.value.clone();
    } else if same_text(key, "amount") {
        match parse_u64(value) {
            Some(v) => {
                g.amount = v;
            },
            None => {
                return Err(ErrorKind::ParseError);
            },
        }
    }
    Ok(())
}

/// Reads the grouped entry that the attributes of an `item_group` tag
/// describe.
fn read_group(list: &Vec<XmlAttribute>) -> (r: Result<ItemGroupTag, ErrorKind>)
    ensures
        match r {
            Ok(g) => group_with_attributes(default_group(), attribute_views(list@)) == Some(g@),
            Err(e) => e == ErrorKind::ParseError && group_with_attributes(
                default_group(),
                attribute_views(list@),
            ) is None,
        },
{
    let mut g = ItemGroupTag::default();
    let ghost all = attribute_views(list@);
    let mut i: usize = 0;
    assert(all.take(0) =~= Seq::<XmlAttributeView>::empty());
    while i < list.len()
        invariant
            i <= list.len(),
            all == attribute_views(list@),
            group_with_attributes(default_group(), all.take(i as int)) == Some(g@),
        decreases list.len() - i,
    {
        proof {
            assert(all.take(i + 1).drop_last() =~= all.take(i as int));
            assert(all.take(i + 1).last() == list@[i as int]@);
            lemma_group_prefix_fails(default_group(), all, i + 1);
        }
        match apply_group_attribute(&mut g, &list[i]) {
            Ok(()) => {},
            Err(e) => {
                return Err(e);
            },
        }
        i = i + 1;
    }
    assert(all.take(i as int) =~= all);
    Ok(g)
}

/// Reads the hard capacity that the attributes of a `stash` or `backpack`
/// tag leave, starting from `current`.
fn read_capacity(current: u16, list: &Vec<XmlAttribute>) -> (r: Result<u16, ErrorKind>)
    ensures
        match r {
            Ok(c) => capacity_with_attributes(current, attribute_views(list@)) == Some(c),
            Err(e) => e == ErrorKind::ParseError && capacity_with_attributes(
                current,
                attribute_views(list@),
            ) is None,
        },
{
    let mut c = current;
    let ghost all = attribute_views(list@);
    let mut i: usize = 0;
    assert(all.take(0) =~= Seq::<XmlAttributeView>::empty());
    while i < list.len()
        invariant
            i <= list.len(),
            all == attribute_views(list@),
            capacity_with_attributes(current, all.take(i as int)) == Some(c),
        decreases list.len() - i,
    {
        proof {
            assert(all.take(i + 1).drop_last() =~= all.take(i as int));
            assert(all.take(i + 1).last() == list@[i as int]@);
            lemma_capacity_prefix_fails(current, all, i + 1);
        }
        if same_text(list[i].key.as_str(), "hard_capacity") {
            match parse_u16(list[i].value.as_str()) {
                Some(v) => {
                    c = v;
                },
                None => {
                    return Err(ErrorKind::ParseError);
                },
            }
        }
        i = i + 1;
    }
    assert(all.take(i as int) =~= all);
    Ok(c)
}

/// Where a prefix of the events cannot be decoded, the whole list cannot.
pub proof fn lemma_decode_prefix_fails(st: DecodeState, events: Seq<XmlEventView>, k: int)
    requires
        0 <= k <= events.len(),
    ensures
        decode_events(st, events.take(k)) is None ==> decode_events(st, events) is None,
    decreases events.len(),
{
    if k == events.len() {
        assert(events.take(k) =~= events);
    } else {
        assert(events.drop_last().take(k) =~= events.take(k));
        lemma_decode_prefix_fails(st, events.drop_last(), k);
    }
}

/// Decodes a person from the events of its file, starting from the
/// default person.
///
/// Fails with `ParseError` where a number cannot be read.
pub fn person_from_events(events: &Vec<XmlEvent>) -> (r: Result<Person, ErrorKind>)
    ensures
        match r {
            Ok(p) => person_of_events(event_views(events@)) == Some(p@),
            Err(e) => e == ErrorKind::ParseError && person_of_events(event_views(events@))
                is None,
        },
{
    let mut person = Person::default();
    let mut in_stash = false;
    let mut in_backpack = false;
    let ghost all = event_views(events@);
    let mut i: usize = 0;
    assert(all.take(0) =~= Seq::<XmlEventView>::empty());
    while i < events.len()
        invariant
            i <= events.len(),
            all == event_views(events@),
            decode_events(initial_state(), all.take(i as int)) == Some(
                DecodeState { person: person@, in_stash, in_backpack },
            ),
        decreases events.len() - i,
    {
        proof {
            assert(all.take(i + 1).drop_last() =~= all.take(i as int));
            assert(all.take(i + 1).last() == events@[i as int]@);
            lemma_decode_prefix_fails(initial_state(), all, i + 1);
        }
        let ghost before = DecodeState { person: person@, in_stash, in_backpack };
        match &events[i] {
            XmlEvent::Start(tag) => {
                let name = tag.name.as_str();
                if same_text(name, "person") {
                    match apply_person_attributes(&mut person, &tag.attributes) {
                        Ok(()) => {},
                        Err(e) => {
                            return Err(e);
                        },
                    }
                } else if same_text(name, "stash") {
                    match read_capacity(person.stash_hard_capacity, &tag.attributes) {
                        Ok(c) => {
                            person.stash_hard_capacity = c;
                            in_stash = true;
                        },
                        Err(e) => {
                            return Err(e);
                        },
                    }
                } else if same_text(name, "backpack") {
                    match read_capacity(person.backpack_hard_capacity, &tag.attributes) {
                        Ok(c) => {
                            person.backpack_hard_capacity = c;
                            in_backpack = true;
                        },
                        Err(e) => {
                            return Err(e);
                        },
                    }
                }
            },
            XmlEvent::Empty(tag) => {
                let name = tag.name.as_str();
                if same_text(name, "order") {
                    match read_order(&tag.attributes) {
                        Ok(o) => {
                            person.order = o;
                        },
                        Err(e) => {
                            return Err(e);
                        },
                    }
                } else if same_text(name, "item_group") {
                    match read_group(&tag.attributes) {
                        Ok(g) => {
                            if in_backpack {
                                let ghost prior = person.backpack_item_list@;
                                person.backpack_item_list.push(g);
                                assert(group_views(person.backpack_item_list@) =~= group_views(
                                    prior,
                                ).push(g@));
                            } else if in_stash {
                                let ghost prior = person.stash_item_list@;
                                person.stash_item_list.push(g);
                                assert(group_views(person.stash_item_list@) =~= group_views(
                                    prior,
                                ).push(g@));
                            }
                        },
                        Err(e) => {
                            return Err(e);
                        },
                    }
                } else if same_text(name, "item") {
                    match read_item(&tag.attributes) {
                        Ok(item) => {
                            if !in_backpack && !in_stash {
                                let ghost prior = person.item_list@;
                                person.item_list.push(item);
                                assert(item_views(person.item_list@) =~= item_views(prior).push(
                                    item@,
                                ));
                            }
                        },
                        Err(e) => {
                            return Err(e);
                        },
                    }
                }
            },
            XmlEvent::End(name) => {
                if same_text(name.as_str(), "stash") {
                    in_stash = false;
                } else if same_text(name.as_str(), "backpack") {
                    in_backpack = false;
                }
            },
        }
        assert(decode_step(before, events@[i as int]@) == Some(
            DecodeState { person: person@, in_stash, in_backpack },
        ));
        i = i + 1;
    }
    assert(all.take(i as int) =~= all);
    Ok(person)
}

/// The person that the content of a file describes: what its events
/// describe. `None` where the content is malformed and where a number
/// cannot be read.
pub open spec fn person_of_content(content: Seq<u8>) -> Option<PersonView> {
    match read_of(content) {
        Some(events) => person_of_events(events),
        None => None,
    }
}

/// Decodes a person from the content of its file: the events that the
/// reader finds in it, decoded as `person_from_events` does.
///
/// Fails with `ParseError` where the reader reports malformed content,
/// where a name or a value is not UTF-8, and where a number cannot be read.
pub fn extract_person(content: &[u8]) -> (r: Result<Person, ErrorKind>)
    ensures
        match r {
            Ok(p) => person_of_content(content@) == Some(p@),
            Err(e) => e == ErrorKind::ParseError && person_of_content(content@) is None,
        },
{
    match read_events(content) {
        Ok(events) => person_from_events(&events),
        Err(e) => Err(e),
    }
}

} // verus!
