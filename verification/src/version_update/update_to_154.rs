//! From schema 153 to schema 154.
//!
//! Older person files list every physical item of a backpack or stash on
//! its own, as an `item` tag without an amount. The current schema holds
//! one `item_group` per key with the number of items as its amount.
//! Profile files only carry a new version number.
use vstd::prelude::*;
use vstd::string::*;
use vstd::utf8::encode_utf8;
use regex::Regex;
use crate::constant::MAX_DEFAULT_BACKPACK_LEN;
use crate::constant::MAX_DEFAULT_STASH_LEN;
use crate::constant::MAX_PERSON_FILE_VERSION;
use crate::error::ErrorKind;
use crate::person::extract::apply_person_attributes;
use crate::person::extract::default_item;
use crate::person::extract::item_with_attributes;
use crate::person::extract::order_with_attributes;
use crate::person::extract::person_with_attributes;
use crate::person::extract::read_item;
use crate::person::extract::read_order;
use crate::person::inventory::absorb;
use crate::person::inventory::has_key;
use crate::person::inventory::key_index;
use crate::person::inventory::lemma_key_index;
use crate::person::merge::amount_of;
use crate::person::merge::lemma_absorb;
use crate::person::merge::lemma_key_index_unique;
use crate::person::model::unique_keys;
use crate::person::inventory::absorb_into;
use crate::person::model::default_order;
use crate::person::model::default_person;
use crate::person::model::group_views;
use crate::person::model::item_views;
use crate::person::model::stash_item_views;
use crate::person::model::ItemGroupTag;
use crate::person::model::ItemGroupTagView;
use crate::person::model::Person;
use crate::person::model::PersonView;
use crate::person::model::StashItemTag;
use crate::person::model::StashItemTagView;
use crate::person::save::person_events;
use crate::person::save::save_person;
use crate::text::i32_of_text;
use crate::text::i8_of_text;
use crate::text::parse_i32;
use crate::text::parse_i8;
use crate::text::same_text;
use crate::xml::attribute_views;
use crate::xml::event_views;
use crate::xml::read_events;
use crate::xml::read_of;
use crate::xml::xml_bytes;
use crate::xml::XmlAttribute;
use crate::xml::XmlAttributeView;
use crate::xml::XmlEvent;
use crate::xml::XmlEventView;
use crate::xml::XmlTagView;

verus! {

/// `regex::Error`, of which nothing is known here but that it is a
/// failure.
#[verifier::external_type_specification]
#[verifier::external_body]
pub struct ExRegexError(regex::Error);

/// The schema version of a person file that declares none.
pub const LEGACY_PERSON_FILE_VERSION: u16 = 153;

/// What finds the version of a profile file.
pub const GAME_VERSION_PATTERN: &'static str = "game_version=\"\\d+\"";

/// What stands in a profile file of the current schema in its place.
pub const GAME_VERSION_REPLACEMENT: &'static str = "game_version=\"154\"";

/// A person as a file of schema 153 holds it. `person` holds the scalar
/// fields, the order and the equipped slots; the inventory lists hold one
/// entry for each physical item.
#[derive(Debug, PartialEq, Eq)]
pub struct LegacyPerson {
    pub person: Person,
    pub backpack_item_list: Vec<StashItemTag>,
    pub stash_item_list: Vec<StashItemTag>,
}

/// What a `LegacyPerson` is to contracts.
pub struct LegacyPersonView {
    pub person: PersonView,
    pub backpack_item_list: Seq<StashItemTagView>,
    pub stash_item_list: Seq<StashItemTagView>,
}

impl View for LegacyPerson {
    type V = LegacyPersonView;

    open spec fn view(&self) -> LegacyPersonView {
        LegacyPersonView {
            person: self.person@,
            backpack_item_list: stash_item_views(self.backpack_item_list@),
            stash_item_list: stash_item_views(self.stash_item_list@),
        }
    }
}

/// The physical item that an `item` tag without attributes stands for.
pub open spec fn default_stash_item() -> StashItemTagView {
    StashItemTagView { class: 0, index: -1i32, key: Seq::<char>::empty() }
}

/// A physical item with one attribute of its `item` tag taken in.
pub open spec fn stash_item_with_attribute(s: StashItemTagView, a: XmlAttributeView) -> Option<
    StashItemTagView,
> {
    if a.key == "class"@ {
        match i8_of_text(a.value) {
            Some(v) => Some(StashItemTagView { class: v, ..s }),
            None => None,
        }
    } else if a.key == "index"@ {
        match i32_of_text(a.value) {
            Some(v) => Some(StashItemTagView { index: v, ..s }),
            None => None,
        }
    } else if a.key == "key"@ {
        Some(StashItemTagView { key: a.value, ..s })
    } else {
        Some(s)
    }
}

/// A physical item with the attributes of its `item` tag taken in, in
/// order.
pub open spec fn stash_item_with_attributes(s: StashItemTagView, list: Seq<XmlAttributeView>)
    -> Option<StashItemTagView>
    decreases list.len(),
{
    if list.len() == 0 {
        Some(s)
    } else {
        match stash_item_with_attributes(s, list.drop_last()) {
            Some(q) => stash_item_with_attribute(q, list.last()),
            None => None,
        }
    }
}

/// What the legacy decoder knows between two events.
pub struct LegacyState {
    pub legacy: LegacyPersonView,
    pub in_stash: bool,
    pub in_backpack: bool,
}

/// The state that legacy decoding starts in: the default person with
/// version 153 and empty lists, at top level.
pub open spec fn legacy_initial_state() -> LegacyState {
    LegacyState {
        legacy: LegacyPersonView {
            person: PersonView { version: LEGACY_PERSON_FILE_VERSION, ..default_person() },
            backpack_item_list: Seq::<StashItemTagView>::empty(),
            stash_item_list: Seq::<StashItemTagView>::empty(),
        },
        in_stash: false,
        in_backpack: false,
    }
}

/// The state after a start tag. `person` gives the scalar fields; `stash`
/// and `backpack` are entered, and what they declare is passed over.
pub open spec fn legacy_after_start(st: LegacyState, tag: XmlTagView) -> Option<LegacyState> {
    if tag.name == "person"@ {
        match person_with_attributes(st.legacy.person, tag.attributes) {
            Some(p) => Some(
                LegacyState { legacy: LegacyPersonView { person: p, ..st.legacy }, ..st },
            ),
            None => None,
        }
    } else if tag.name == "stash"@ {
        Some(LegacyState { in_stash: true, ..st })
    } else if tag.name == "backpack"@ {
        Some(LegacyState { in_backpack: true, ..st })
    } else {
        Some(st)
    }
}

/// The state after a self-closing tag. `order` replaces the order. `item`
/// adds a physical item to the backpack or the stash, whichever the
/// decoder stands in, the backpack first, and an equipped slot at top
/// level.
pub open spec fn legacy_after_empty(st: LegacyState, tag: XmlTagView) -> Option<LegacyState> {
    if tag.name == "order"@ {
        match order_with_attributes(default_order(), tag.attributes) {
            Some(o) => Some(
                LegacyState {
                    legacy: LegacyPersonView {
                        person: PersonView { order: o, ..st.legacy.person },
                        ..st.legacy
                    },
                    ..st
                },
            ),
            None => None,
        }
    } else if tag.name == "item"@ {
        if st.in_backpack || st.in_stash {
            match stash_item_with_attributes(default_stash_item(), tag.attributes) {
                Some(s) => if st.in_backpack {
                    Some(
                        LegacyState {
                            legacy: LegacyPersonView {
                                backpack_item_list: st.legacy.backpack_item_list.push(s),
                                ..st.legacy
                            },
                            ..st
                        },
                    )
                } else {
                    Some(
                        LegacyState {
                            legacy: LegacyPersonView {
                                stash_item_list: st.legacy.stash_item_list.push(s),
                                ..st.legacy
                            },
                            ..st
                        },
                    )
                },
                None => None,
            }
        } else {
            match item_with_attributes(default_item(), tag.attributes) {
                Some(i) => Some(
                    LegacyState {
                        legacy: LegacyPersonView {
                            person: PersonView {
                                item_list: st.legacy.person.item_list.push(i),
                                ..st.legacy.person
                            },
                            ..st.legacy
                        },
                        ..st
                    },
                ),
                None => None,
            }
        }
    } else {
        Some(st)
    }
}

/// The state after one event; `None` where a number cannot be read.
pub open spec fn legacy_step(st: LegacyState, event: XmlEventView) -> Option<LegacyState> {
    match event {
        XmlEventView::Start(tag) => legacy_after_start(st, tag),
        XmlEventView::Empty(tag) => legacy_after_empty(st, tag),
        XmlEventView::End(name) => if name == "stash"@ {
            Some(LegacyState { in_stash: false, ..st })
        } else if name == "backpack"@ {
            Some(LegacyState { in_backpack: false, ..st })
        } else {
            Some(st)
        },
    }
}

/// The state after a list of events, taken in order.
pub open spec fn legacy_after(st: LegacyState, events: Seq<XmlEventView>) -> Option<LegacyState>
    decreases events.len(),
{
    if events.len() == 0 {
        Some(st)
    } else {
        match legacy_after(st, events.drop_last()) {
            Some(q) => legacy_step(q, events.last()),
            None => None,
        }
    }
}

/// The legacy person that a list of events describes; `None` where a
/// number cannot be read.
pub open spec fn legacy_of_events(events: Seq<XmlEventView>) -> Option<LegacyPersonView> {
    match legacy_after(legacy_initial_state(), events) {
        Some(st) => Some(st.legacy),
        None => None,
    }
}

/// The stack of one item that a physical item starts.
pub open spec fn group_of_one(item: StashItemTagView) -> ItemGroupTagView {
    ItemGroupTagView { class: item.class, index: item.index, key: item.key, amount: 1 }
}

/// The grouped list of a list of physical items: one entry for each key,
/// in the order in which the keys first occur, with the class and the
/// index of the first item of the key and the number of its items as the
/// amount.
pub open spec fn grouped(list: Seq<StashItemTagView>) -> Seq<ItemGroupTagView>
    decreases list.len(),
{
    if list.len() == 0 {
        Seq::<ItemGroupTagView>::empty()
    } else {
        absorb(grouped(list.drop_last()), group_of_one(list.last()))
    }
}

/// The person of the current schema that a legacy person becomes: the
/// same scalar fields, order and equipped slots, the current version, the
/// default hard capacities and the grouped lists.
pub open spec fn migrated(legacy: LegacyPersonView) -> PersonView {
    PersonView {
        version: MAX_PERSON_FILE_VERSION,
        backpack_hard_capacity: MAX_DEFAULT_BACKPACK_LEN,
        stash_hard_capacity: MAX_DEFAULT_STASH_LEN,
        backpack_item_list: grouped(legacy.backpack_item_list),
        stash_item_list: grouped(legacy.stash_item_list),
        ..legacy.person
    }
}

/// The text that `Regex::replace` hands back for a pattern, a text and a
/// replacement: the text with the leftmost match of the pattern replaced,
/// or the text itself where nothing matches. `None` where `Regex::new`
/// refuses the pattern.
pub uninterp spec fn regex_replaced(
    pattern: Seq<char>,
    text: Seq<char>,
    replacement: Seq<char>,
) -> Option<Seq<char>>;

/// The text of a profile file with its version brought to the current one.
pub open spec fn version_bumped(text: Seq<char>) -> Seq<char> {
    match regex_replaced(GAME_VERSION_PATTERN@, text, GAME_VERSION_REPLACEMENT@) {
        Some(s) => s,
        None => text,
    }
}

/// `Regex::new` on the pattern, then `Regex::replace` on the text and the
/// replacement. What comes back depends on these three alone.
#[verifier::external_body]
fn regex_replace(pattern: &str, text: &str, replacement: &str) -> (r: Result<String, regex::Error>)
    ensures
        match r {
            Ok(s) => regex_replaced(pattern@, text@, replacement@) == Some(s@),
            Err(_) => regex_replaced(pattern@, text@, replacement@) is None,
        },
{
    match Regex::new(pattern) {
        Ok(re) => Ok(re.replace(text, replacement).into_owned()),
        Err(e) => Err(e),
    }
}

/// Where a prefix of the attributes cannot be taken in, the whole list
/// cannot.
pub proof fn lemma_stash_item_prefix_fails(
    start: StashItemTagView,
    list: Seq<XmlAttributeView>,
    k: int,
)
    requires
        0 <= k <= list.len(),
    ensures
        stash_item_with_attributes(start, list.take(k)) is None ==> stash_item_with_attributes(
            start,
            list,
        ) is None,
    decreases list.len(),
{
    if k == list.len() {
        assert(list.take(k) =~= list);
    } else {
        assert(list.drop_last().take(k) =~= list.take(k));
        lemma_stash_item_prefix_fails(start, list.drop_last(), k);
    }
}

/// Where a prefix of the events cannot be decoded, the whole list cannot.
pub proof fn lemma_legacy_prefix_fails(st: LegacyState, events: Seq<XmlEventView>, k: int)
    requires
        0 <= k <= events.len(),
    ensures
        legacy_after(st, events.take(k)) is None ==> legacy_after(st, events) is None,
    decreases events.len(),
{
    if k == events.len() {
        assert(events.take(k) =~= events);
    } else {
        assert(events.drop_last().take(k) =~= events.take(k));
        lemma_legacy_prefix_fails(st, events.drop_last(), k);
    }
}

/// Reads the physical item that the attributes of an `item` tag describe.
fn read_stash_item(list: &Vec<XmlAttribute>) -> (r: Result<StashItemTag, ErrorKind>)
    ensures
        match r {
            Ok(s) => stash_item_with_attributes(default_stash_item(), attribute_views(list@))
                == Some(s@),
            Err(e) => e == ErrorKind::ParseError && stash_item_with_attributes(
                default_stash_item(),
                attribute_views(list@),
            ) is None,
        },
{
    let mut s = StashItemTag { class: 0, index: -1, key: String::new() };
    let ghost all = attribute_views(list@);
    let mut i: usize = 0;
    assert(all.take(0) =~= Seq::<XmlAttributeView>::empty());
    while i < list.len()
        invariant
            i <= list.len(),
            all == attribute_views(list@),
            stash_item_with_attributes(default_stash_item(), all.take(i as int)) == Some(s@),
        decreases list.len() - i,
    {
        proof {
            assert(all.take(i + 1).drop_last() =~= all.take(i as int));
            assert(all.take(i + 1).last() == list@[i as int]@);
            lemma_stash_item_prefix_fails(default_stash_item(), all, i + 1);
        }
        let a = &list[i];
        let key = a.key.as_str();
        if same_text(key, "class") {
            match parse_i8(a.value.as_str()) {
                Some(v) => {
                    s.class = v;
                },
                None => {
                    return Err(ErrorKind::ParseError);
                },
            }
        } else if same_text(key, "index") {
            match parse_i32(a.value.as_str()) {
                Some(v) => {
                    s.index = v;
                },
                None => {
                    return Err(ErrorKind::ParseError);
                },
            }
        } else if same_text(key, "key") {
            s.key = a.value.clone();
        }
        i = i + 1;
    }
    assert(all.take(i as int) =~= all);
    Ok(s)
}

/// Decodes a legacy person from the events of its file.
///
/// Fails with `ParseError` where a number cannot be read.
pub fn legacy_from_events(events: &Vec<XmlEvent>) -> (r: Result<LegacyPerson, ErrorKind>)
    ensures
        match r {
            Ok(l) => legacy_of_events(event_views(events@)) == Some(l@),
            Err(e) => e == ErrorKind::ParseError && legacy_of_events(event_views(events@))
                is None,
        },
{
    let mut person = Person::default();
    person.version = LEGACY_PERSON_FILE_VERSION;
    let mut backpack: Vec<StashItemTag> = Vec::new();
    let mut stash: Vec<StashItemTag> = Vec::new();
    let mut in_stash = false;
    let mut in_backpack = false;
    let ghost all = event_views(events@);
    let mut i: usize = 0;
    assert(all.take(0) =~= Seq::<XmlEventView>::empty());
    assert(stash_item_views(backpack@) =~= Seq::<StashItemTagView>::empty());
    assert(stash_item_views(stash@) =~= Seq::<StashItemTagView>::empty());
    while i < events.len()
        invariant
            i <= events.len(),
            all == event_views(events@),
            legacy_after(legacy_initial_state(), all.take(i as int)) == Some(
                LegacyState {
                    legacy: LegacyPersonView {
                        person: person@,
                        backpack_item_list: stash_item_views(backpack@),
                        stash_item_list: stash_item_views(stash@),
                    },
                    in_stash,
                    in_backpack,
                },
            ),
        decreases events.len() - i,
    {
        proof {
            assert(all.take(i + 1).drop_last() =~= all.take(i as int));
            assert(all.take(i + 1).last() == events@[i as int]@);
            lemma_legacy_prefix_fails(legacy_initial_state(), all, i + 1);
        }
        let ghost before = LegacyState {
            legacy: LegacyPersonView {
                person: person@,
                backpack_item_list: stash_item_views(backpack@),
                stash_item_list: stash_item_views(stash@),
            },
            in_stash,
            in_backpack,
        };
        match &events[i] {
            XmlEvent::Start(tag) => {
                let name = tag.name.as_str();
                if same_text(name, "person") {
                    match apply_person_attributes(&mut person, &tag.attributes) {
                        Ok(()) => {},
                        Err(e) => {
                            return Err(e);
                        },
                    }
                } else if same_text(name, "stash") {
                    in_stash = true;
                } else if same_text(name, "backpack") {
                    in_backpack = true;
                }
            },
            XmlEvent::Empty(tag) => {
                let name = tag.name.as_str();
                if same_text(name, "order") {
                    match read_order(&tag.attributes) {
                        Ok(o) => {
                            person.order = o;
                        },
                        Err(e) => {
                            return Err(e);
                        },
                    }
                } else if same_text(name, "item") {
                    if in_backpack || in_stash {
                        match read_stash_item(&tag.attributes) {
                            Ok(s) => {
                                if in_backpack {
                                    let ghost prior = backpack@;
                                    backpack.push(s);
                                    assert(stash_item_views(backpack@) =~= stash_item_views(
                                        prior,
                                    ).push(s@));
                                } else {
                                    let ghost prior = stash@;
                                    stash.push(s);
                                    assert(stash_item_views(stash@) =~= stash_item_views(
                                        prior,
                                    ).push(s@));
                                }
                            },
                            Err(e) => {
                                return Err(e);
                            },
                        }
                    } else {
                        match read_item(&tag.attributes) {
                            Ok(item) => {
                                let ghost prior = person.item_list@;
                                person.item_list.push(item);
                                assert(item_views(person.item_list@) =~= item_views(prior).push(
                                    item@,
                                ));
                            },
                            Err(e) => {
                                return Err(e);
                            },
                        }
                    }
                }
            },
            XmlEvent::End(name) => {
                if same_text(name.as_str(), "stash") {
                    in_stash = false;
                } else if same_text(name.as_str(), "backpack") {
                    in_backpack = false;
                }
            },
        }
        assert(legacy_step(before, events@[i as int]@) == Some(
            LegacyState {
                legacy: LegacyPersonView {
                    person: person@,
                    backpack_item_list: stash_item_views(backpack@),
                    stash_item_list: stash_item_views(stash@),
                },
                in_stash,
                in_backpack,
            },
        ));
        i = i + 1;
    }
    assert(all.take(i as int) =~= all);
    Ok(LegacyPerson { person, backpack_item_list: backpack, stash_item_list: stash })
}

/// Groups a list of physical items by key.
pub fn group_items(list: &Vec<StashItemTag>) -> (r: Vec<ItemGroupTag>)
    ensures
        group_views(r@) == grouped(stash_item_views(list@)),
{
    let ghost views = stash_item_views(list@);
    let mut out: Vec<ItemGroupTag> = Vec::new();
    let mut i: usize = 0;
    assert(views.take(0) =~= Seq::<StashItemTagView>::empty());
    assert(group_views(out@) =~= Seq::<ItemGroupTagView>::empty());
    while i < list.len()
        invariant
            i <= list.len(),
            views == stash_item_views(list@),
            group_views(out@) == grouped(views.take(i as int)),
        decreases list.len() - i,
    {
        proof {
            assert(views.take(i + 1).drop_last() =~= views.take(i as int));
            assert(views.take(i + 1).last() == list@[i as int]@);
        }
        let item = &list[i];
        let one = ItemGroupTag {
            class: item.class,
            index: item.index,
            key: item.key.clone(),
            amount: 1,
        };
        absorb_into(&mut out, &one);
        i = i + 1;
    }
    assert(views.take(i as int) =~= views);
    out
}

/// The person of the current schema that a legacy person becomes.
pub fn migrate_person(legacy: LegacyPerson) -> (r: Person)
    ensures
        r@ == migrated(legacy@),
{
    let backpack = group_items(&legacy.backpack_item_list);
    let stash = group_items(&legacy.stash_item_list);
    let mut person = legacy.person;
    person.version = MAX_PERSON_FILE_VERSION;
    person.backpack_hard_capacity = MAX_DEFAULT_BACKPACK_LEN;
    person.stash_hard_capacity = MAX_DEFAULT_STASH_LEN;
    person.backpack_item_list = backpack;
    person.stash_item_list = stash;
    person
}

/// What the migration of the events of a person file of schema 153 writes,
/// as bytes: the legacy person that they describe, migrated and encoded.
/// `None` where a number cannot be read.
pub open spec fn migrated_bytes(events: Seq<XmlEventView>) -> Option<Seq<u8>> {
    match legacy_of_events(events) {
        Some(legacy) => Some(xml_bytes(person_events(migrated(legacy)))),
        None => None,
    }
}

/// What the migration of the content of a person file of schema 153
/// writes, as bytes. `None` where the content is malformed and where a
/// number cannot be read.
pub open spec fn migrated_content(content: Seq<u8>) -> Option<Seq<u8>> {
    match read_of(content) {
        Some(events) => migrated_bytes(events),
        None => None,
    }
}

/// Turns the events of a person file of schema 153 into the text of the
/// file of the current schema: decodes them as a legacy person, migrates
/// that, and encodes the outcome.
///
/// Fails with `ParseError` where a number cannot be read, and not
/// otherwise.
pub fn migrate_events(events: &Vec<XmlEvent>) -> (r: Result<String, ErrorKind>)
    ensures
        match r {
            Ok(text) => migrated_bytes(event_views(events@)) == Some(encode_utf8(text@)),
            Err(e) => e == ErrorKind::ParseError && migrated_bytes(event_views(events@))
                is None,
        },
{
    let legacy = match legacy_from_events(events) {
        Ok(legacy) => legacy,
        Err(e) => {
            return Err(e);
        },
    };
    let person = migrate_person(legacy);
    save_person(&person)
}

/// Turns the content of a person file of schema 153 into the text of the
/// file of the current schema: the events that the reader finds in it,
/// migrated as `migrate_events` does.
///
/// Fails with `ParseError` where the content is malformed and where a
/// number cannot be read, and not otherwise.
pub fn update_person(content: &[u8]) -> (r: Result<String, ErrorKind>)
    ensures
        match r {
            Ok(text) => migrated_content(content@) == Some(encode_utf8(text@)),
            Err(e) => e == ErrorKind::ParseError && migrated_content(content@) is None,
        },
{
    match read_events(content) {
        Ok(events) => migrate_events(&events),
        Err(e) => Err(e),
    }
}

/// What `update_profile` hands back for the outcome of the replacement:
/// the replaced text, or the text itself where there is none.
pub fn replaced_or_unchanged(text: &str, replaced: Option<String>) -> (r: String)
    ensures
        r@ == match replaced {
            Some(s) => s@,
            None => text@,
        },
{
    match replaced {
        Some(s) => s,
        None => text.to_owned(),
    }
}

/// Brings the text of a profile file to the current schema: the first
/// `game_version="<digits>"` becomes `game_version="154"`, and nothing else
/// changes.
pub fn update_profile(text: &str) -> (r: String)
    ensures
        r@ == version_bumped(text@),
{
    let replaced = match regex_replace(GAME_VERSION_PATTERN, text, GAME_VERSION_REPLACEMENT) {
        Ok(s) => Some(s),
        Err(_) => None,
    };
    replaced_or_unchanged(text, replaced)
}

/// Each physical item as a stack of one, in list order.
pub open spec fn stacks_of_one(list: Seq<StashItemTagView>) -> Seq<ItemGroupTagView> {
    list.map_values(|s: StashItemTagView| group_of_one(s))
}

/// The number of physical items of the key `key` in a list.
pub open spec fn occurrences(list: Seq<StashItemTagView>, key: Seq<char>) -> nat
    decreases list.len(),
{
    if list.len() == 0 {
        0
    } else {
        occurrences(list.drop_last(), key) + if list.last().key == key {
            1nat
        } else {
            0nat
        }
    }
}

/// Whether no key occurs twice in a list of physical items.
pub open spec fn unique_item_keys(list: Seq<StashItemTagView>) -> bool {
    forall|i: int, j: int|
        0 <= i < j < list.len() ==> (#[trigger] list[i]).key != (#[trigger] list[j]).key
}

/// A key occurs no more often than the list is long, and it occurs at all
/// exactly if some item has it.
pub proof fn lemma_occurrences(list: Seq<StashItemTagView>, key: Seq<char>)
    ensures
        occurrences(list, key) <= list.len(),
        occurrences(list, key) > 0 <==> exists|i: int|
            0 <= i < list.len() && (#[trigger] list[i]).key == key,
    decreases list.len(),
{
    if list.len() > 0 {
        let rest = list.drop_last();
        lemma_occurrences(rest, key);
        if occurrences(rest, key) > 0 {
            let i = choose|i: int| 0 <= i < rest.len() && (#[trigger] rest[i]).key == key;
            assert(list[i].key == key);
        }
        if list.last().key == key {
            assert(list[list.len() - 1].key == key);
        }
        if exists|i: int| 0 <= i < list.len() && (#[trigger] list[i]).key == key {
            let i = choose|i: int| 0 <= i < list.len() && (#[trigger] list[i]).key == key;
            if i < rest.len() {
                assert(rest[i].key == key);
            }
        }
    }
}

/// The grouped list has no key twice, has exactly the keys of the items,
/// and holds of each key as many as there are items of it.
pub proof fn lemma_grouped(list: Seq<StashItemTagView>)
    requires
        list.len() <= u64::MAX,
    ensures
        unique_keys(grouped(list)),
        grouped(list).len() <= list.len(),
        forall|k: Seq<char>| #[trigger] has_key(grouped(list), k) <==> occurrences(list, k) > 0,
        forall|k: Seq<char>| #[trigger] amount_of(grouped(list), k) == occurrences(list, k),
    decreases list.len(),
{
    if list.len() == 0 {
        assert forall|k: Seq<char>| !#[trigger] has_key(grouped(list), k) by {
            lemma_key_index(grouped(list), k);
        }
    } else {
        let rest = list.drop_last();
        let one = group_of_one(list.last());
        lemma_grouped(rest);
        lemma_absorb(grouped(rest), one);
        assert forall|k: Seq<char>| #[trigger]
            amount_of(grouped(list), k) == occurrences(list, k) by {
            lemma_occurrences(rest, k);
        }
        assert forall|k: Seq<char>| #[trigger]
            has_key(grouped(list), k) <==> occurrences(list, k) > 0 by {}
    }
}

/// Each entry of the grouped list has the class and the index of the first
/// item of its key.
pub proof fn lemma_grouped_first(list: Seq<StashItemTagView>, key: Seq<char>)
    requires
        list.len() <= u64::MAX,
        occurrences(list, key) > 0,
    ensures
        has_key(grouped(list), key),
        has_key(stacks_of_one(list), key),
        grouped(list)[key_index(grouped(list), key)].class == list[key_index(
            stacks_of_one(list),
            key,
        )].class,
        grouped(list)[key_index(grouped(list), key)].index == list[key_index(
            stacks_of_one(list),
            key,
        )].index,
    decreases list.len(),
{
    let ones = stacks_of_one(list);
    let rest = list.drop_last();
    let rest_ones = stacks_of_one(rest);
    let last = list.last();
    let n = list.len() - 1;
    lemma_grouped(list);
    lemma_grouped(rest);
    lemma_occurrences(rest, key);
    lemma_key_index(ones, key);
    lemma_key_index(rest_ones, key);
    lemma_key_index(grouped(rest), key);
    lemma_key_index(grouped(list), key);
    lemma_absorb(grouped(rest), group_of_one(last));
    assert(rest_ones =~= ones.drop_last());
    if occurrences(rest, key) > 0 {
        lemma_grouped_first(rest, key);
        let i = key_index(rest_ones, key);
        let g = key_index(grouped(rest), key);
        assert forall|m: int| 0 <= m < i implies (#[trigger] ones[m]).key != key by {
            assert(rest_ones[m] == ones[m]);
        }
        assert(ones[i] == rest_ones[i]);
        crate::person::inventory::lemma_key_index_at(ones, key, i);
        lemma_key_index(grouped(rest), last.key);
        if has_key(grouped(rest), last.key) {
            let j = key_index(grouped(rest), last.key);
            if j == g {
                assert(grouped(list)[g].key == grouped(rest)[g].key);
                assert(grouped(list)[g].class == grouped(rest)[g].class);
                assert(grouped(list)[g].index == grouped(rest)[g].index);
            } else {
                assert(grouped(list)[g] == grouped(rest)[g]);
            }
        } else {
            assert(grouped(list)[g] == grouped(rest)[g]);
        }
        assert(grouped(list)[g].key == key);
        lemma_key_index_unique(grouped(list), g);
        assert(rest[i] == list[i]);
    } else {
        assert(last.key == key);
        assert(!has_key(grouped(rest), key));
        assert forall|m: int| 0 <= m < n implies (#[trigger] ones[m]).key != key by {
            assert(rest[m].key == ones[m].key);
        }
        assert(ones[n].key == key);
        crate::person::inventory::lemma_key_index_at(ones, key, n);
        let g = grouped(rest).len() as int;
        assert(grouped(list)[g] == group_of_one(last));
        lemma_key_index_unique(grouped(list), g);
    }
}

/// Where no key occurs twice, grouping keeps every item in its place, as a
/// stack of one: there is nothing left to collapse.
pub proof fn lemma_grouped_of_unique(list: Seq<StashItemTagView>)
    requires
        list.len() <= u64::MAX,
        unique_item_keys(list),
    ensures
        grouped(list) == stacks_of_one(list),
    decreases list.len(),
{
    let ones = stacks_of_one(list);
    if list.len() == 0 {
        assert(grouped(list) =~= ones);
    } else {
        let rest = list.drop_last();
        let n = list.len() - 1;
        assert forall|i: int, j: int| 0 <= i < j < rest.len() implies (#[trigger] rest[i]).key != (
        #[trigger] rest[j]).key by {
            assert(rest[i] == list[i]);
            assert(rest[j] == list[j]);
        }
        lemma_grouped_of_unique(rest);
        lemma_grouped(rest);
        lemma_occurrences(rest, list.last().key);
        if occurrences(rest, list.last().key) > 0 {
            let i = choose|i: int|
                0 <= i < rest.len() && (#[trigger] rest[i]).key == list.last().key;
            assert(list[i].key != list[n].key);
        }
        assert(grouped(list) =~= ones);
    }
}

} // verus!
