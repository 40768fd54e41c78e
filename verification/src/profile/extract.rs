//! Decoding a profile from the events of its file.
use vstd::prelude::*;
use vstd::string::*;
use crate::decimal::decimal_field;
use crate::decimal::parse_decimal;
use crate::error::ErrorKind;
use crate::profile::model::default_profile;
use crate::profile::model::Profile;
use crate::profile::model::ProfileView;
use crate::profile::model::Stats;
use crate::text::parse_u64;
use crate::text::same_text;
use crate::text::u64_of_text;
use crate::xml::attribute_views;
use crate::xml::event_views;
use crate::xml::read_events;
use crate::xml::read_of;
use crate::xml::XmlAttribute;
use crate::xml::XmlAttributeView;
use crate::xml::XmlEvent;
use crate::xml::XmlEventView;

verus! {

/// A profile with one attribute of the `profile` tag taken in. An
/// attribute of an unknown name changes nothing.
pub open spec fn profile_with_attribute(p: ProfileView, a: XmlAttributeView) -> ProfileView {
    if a.key == "game_version"@ {
        ProfileView { game_version: a.value, ..p }
    } else if a.key == "username"@ {
        ProfileView { username: a.value, ..p }
    } else if a.key == "sid"@ {
        ProfileView { sid: a.value, ..p }
    } else if a.key == "rid"@ {
        ProfileView { rid: a.value, ..p }
    } else if a.key == "squad_tag"@ {
        ProfileView { squad_tag: a.value, ..p }
    } else if a.key == "color"@ {
        ProfileView { color: a.value, ..p }
    } else {
        p
    }
}

/// A profile with the attributes of the `profile` tag taken in, in order.
pub open spec fn profile_with_attributes(p: ProfileView, list: Seq<XmlAttributeView>)
    -> ProfileView
    decreases list.len(),
{
    if list.len() == 0 {
        p
    } else {
        profile_with_attribute(profile_with_attributes(p, list.drop_last()), list.last())
    }
}

/// Statistics with a counter set from its text.
pub open spec fn with_counter(value: Seq<char>, set: spec_fn(u64) -> Stats) -> Option<Stats> {
    match u64_of_text(value) {
        Some(v) => Some(set(v)),
        None => None,
    }
}

/// Statistics with a quantity set from its text.
pub open spec fn with_quantity(
    value: Seq<char>,
    set: spec_fn(crate::decimal::Decimal) -> Stats,
) -> Option<Stats> {
    match decimal_field(value) {
        Some(v) => Some(set(v)),
        None => None,
    }
}

/// Statistics with one attribute of the `stats` tag taken in. An attribute
/// of an unknown name changes nothing; a number that cannot be read gives
/// `None`.
pub open spec fn stats_with_attribute(s: Stats, a: XmlAttributeView) -> Option<Stats> {
    if a.key == "kills"@ {
        with_counter(a.value, |v: u64| Stats { kills: v, ..s })
    } else if a.key == "deaths"@ {
        with_counter(a.value, |v: u64| Stats { deaths: v, ..s })
    } else if a.key == "time_played"@ {
        with_quantity(a.value, |v: crate::decimal::Decimal| Stats { time_played: v, ..s })
    } else if a.key == "player_kills"@ {
        with_counter(a.value, |v: u64| Stats { player_kills: v, ..s })
    } else if a.key == "teamkills"@ {
        with_counter(a.value, |v: u64| Stats { team_kills: v, ..s })
    } else if a.key == "longest_kill_streak"@ {
        with_counter(a.value, |v: u64| Stats { longest_kill_streak: v, ..s })
    } else if a.key == "targets_destroyed"@ {
        with_counter(a.value, |v: u64| Stats { targets_destroyed: v, ..s })
    } else if a.key == "vehicles_destroyed"@ {
        with_counter(a.value, |v: u64| Stats { vehicles_destroyed: v, ..s })
    } else if a.key == "soldiers_healed"@ {
        with_counter(a.value, |v: u64| Stats { soldiers_healed: v, ..s })
    } else if a.key == "times_got_healed"@ {
        with_counter(a.value, |v: u64| Stats { times_got_healed: v, ..s })
    } else if a.key == "distance_moved"@ {
        with_quantity(a.value, |v: crate::decimal::Decimal| Stats { distance_moved: v, ..s })
    } else if a.key == "shots_fired"@ {
        with_counter(a.value, |v: u64| Stats { shots_fired: v, ..s })
    } else if a.key == "throwables_thrown"@ {
        with_counter(a.value, |v: u64| Stats { throwables_thrown: v, ..s })
    } else if a.key == "rank_progression"@ {
        with_quantity(a.value, |v: crate::decimal::Decimal| Stats { rank_progression: v, ..s })
    } else {
        Some(s)
    }
}

/// Statistics with the attributes of the `stats` tag taken in, in order.
pub open spec fn stats_with_attributes(s: Stats, list: Seq<XmlAttributeView>) -> Option<Stats>
    decreases list.len(),
{
    if list.len() == 0 {
        Some(s)
    } else {
        match stats_with_attributes(s, list.drop_last()) {
            Some(q) => stats_with_attribute(q, list.last()),
            None => None,
        }
    }
}

/// The profile after one event. The start tag `profile` gives the texts,
/// the start tag `stats` the statistics; every other event is passed over.
pub open spec fn profile_step(p: ProfileView, event: XmlEventView) -> Option<ProfileView> {
    match event {
        XmlEventView::Start(tag) => if tag.name == "profile"@ {
            Some(profile_with_attributes(p, tag.attributes))
        } else if tag.name == "stats"@ {
            match stats_with_attributes(p.stats, tag.attributes) {
                Some(s) => Some(ProfileView { stats: s, ..p }),
                None => None,
            }
        } else {
            Some(p)
        },
        _ => Some(p),
    }
}

/// The profile after a list of events, taken in order.
pub open spec fn profile_after(p: ProfileView, events: Seq<XmlEventView>) -> Option<ProfileView>
    decreases events.len(),
{
    if events.len() == 0 {
        Some(p)
    } else {
        match profile_after(p, events.drop_last()) {
            Some(q) => profile_step(q, events.last()),
            None => None,
        }
    }
}

/// The profile that a list of events describes; `None` where a number
/// cannot be read.
pub open spec fn profile_of_events(events: Seq<XmlEventView>) -> Option<ProfileView> {
    profile_after(default_profile(), events)
}

/// Where a prefix of the attributes cannot be taken in, the whole list
/// cannot.
pub proof fn lemma_stats_prefix_fails(s: Stats, list: Seq<XmlAttributeView>, k: int)
    requires
        0 <= k <= list.len(),
    ensures
        stats_with_attributes(s, list.take(k)) is None ==> stats_with_attributes(s, list) is None,
    decreases list.len(),
{
    if k == list.len() {
        assert(list.take(k) =~= list);
    } else {
        assert(list.drop_last().take(k) =~= list.take(k));
        lemma_stats_prefix_fails(s, list.drop_last(), k);
    }
}

/// Where a prefix of the events cannot be decoded, the whole list cannot.
pub proof fn lemma_profile_prefix_fails(p: ProfileView, events: Seq<XmlEventView>, k: int)
    requires
        0 <= k <= events.len(),
    ensures
        profile_after(p, events.take(k)) is None ==> profile_after(p, events) is None,
    decreases events.len(),
{
    if k == events.len() {
        assert(events.take(k) =~= events);
    } else {
        assert(events.drop_last().take(k) =~= events.take(k));
        lemma_profile_prefix_fails(p, events.drop_last(), k);
    }
}

/// Takes the attributes of the `profile` tag in.
fn apply_profile_attributes(p: &mut Profile, list: &Vec<XmlAttribute>)
    ensures
        final(p)@ == profile_with_attributes(old(p)@, attribute_views(list@)),
{
    let ghost start = p@;
    let ghost all = attribute_views(list@);
    let mut i: usize = 0;
    assert(all.take(0) =~= Seq::<XmlAttributeView>::empty());
    while i < list.len()
        invariant
            i <= list.len(),
            all == attribute_views(list@),
            p@ == profile_with_attributes(start, all.take(i as int)),
        decreases list.len() - i,
    {
        proof {
            assert(all.take(i + 1).drop_last() =~= all.take(i as int));
            assert(all.take(i + 1).last() == list@[i as int]@);
        }
        let a = &list[i];
        let key = a.key.as_str();
        if same_text(key, "game_version") {
            p.game_version = a.value.clone();
        } else if same_text(key, "username") {
            p.username = a.value.clone();
        } else if same_text(key, "sid") {
            p.sid = a.value.clone();
        } else if same_text(key, "rid") {
            p.rid = a.value.clone();
        } else if same_text(key, "squad_tag") {
            p.squad_tag = a.value.clone();
        } else if same_text(key, "color") {
            p.color = a.value.clone();
        }
        i = i + 1;
    }
    assert(all.take(i as int) =~= all);
}

/// Takes one attribute of the `stats` tag in.
fn apply_stats_attribute(s: Stats, a: &XmlAttribute) -> (r: Result<Stats, ErrorKind>)
    ensures
        match r {
            Ok(q) => stats_with_attribute(s, a@) == Some(q),
            Err(e) => e == ErrorKind::ParseError && stats_with_attribute(s, a@) is None,
        },
{
    let key = a.key.as_str();
    let value = a.value.as_str();
    let mut q = s;
    if same_text(key, "kills") {
        match parse_u64(value) {
            Some(v) => {
                q.kills = v;
            },
            None => {
                return Err(ErrorKind::ParseError);
            },
        }
    } else if same_text(key, "deaths") {
        match parse_u64(value) {
            Some(v) => {
                q.deaths = v;
            },
            None => {
                return Err(ErrorKind::ParseError);
            },
        }
    } else if same_text(key, "time_played") {
        match parse_decimal(value) {
            Some(v) => {
                q.time_played = v;
            },
            None => {
                return Err(ErrorKind::ParseError);
            },
        }
    } else if same_text(key, "player_kills") {
        match parse_u64(value) {
            Some(v) => {
                q.player_kills = v;
            },
            None => {
                return Err(ErrorKind::ParseError);
            },
        }
    } else if same_text(key, "teamkills") {
        match parse_u64(value) {
            Some(v) => {
                q.team_kills = v;
            },
            None => {
                return Err(ErrorKind::ParseError);
            },
        }
    } else if same_text(key, "longest_kill_streak") {
        match parse_u64(value) {
            Some(v) => {
                q.longest_kill_streak = v;
            },
            None => {
                return Err(ErrorKind::ParseError);
            },
        }
    } else if same_text(key, "targets_destroyed") {
        match parse_u64(value) {
            Some(v) => {
                q.targets_destroyed = v;
            },
            None => {
                return Err(ErrorKind::ParseError);
            },
        }
    } else if same_text(key, "vehicles_destroyed") {
        match parse_u64(value) {
            Some(v) => {
                q.vehicles_destroyed = v;
            },
            None => {
                return Err(ErrorKind::ParseError);
            },
        }
    } else if same_text(key, "soldiers_healed") {
        match parse_u64(value) {
            Some(v) => {
                q.soldiers_healed = v;
            },
            None => {
                return Err(ErrorKind::ParseError);
            },
        }
    } else if same_text(key, "times_got_healed") {
        match parse_u64(value) {
            Some(v) => {
                q.times_got_healed = v;
            },
            None => {
                return Err(ErrorKind::ParseError);
            },
        }
    } else if same_text(key, "distance_moved") {
        match parse_decimal(value) {
            Some(v) => {
                q.distance_moved = v;
            },
            None => {
                return Err(ErrorKind::ParseError);
            },
        }
    } else if same_text(key, "shots_fired") {
        match parse_u64(value) {
            Some(v) => {
                q.shots_fired = v;
            },
            None => {
                return Err(ErrorKind::ParseError);
            },
        }
    } else if same_text(key, "throwables_thrown") {
        match parse_u64(value) {
            Some(v) => {
                q.throwables_thrown = v;
            },
            None => {
                return Err(ErrorKind::ParseError);
            },
        }
    } else if same_text(key, "rank_progression") {
        match parse_decimal(value) {
            Some(v) => {
                q.rank_progression = v;
            },
            None => {
                return Err(ErrorKind::ParseError);
            },
        }
    }
    Ok(q)
}

/// Takes the attributes of the `stats` tag in.
fn read_stats(s: Stats, list: &Vec<XmlAttribute>) -> (r: Result<Stats, ErrorKind>)
    ensures
        match r {
            Ok(q) => stats_with_attributes(s, attribute_views(list@)) == Some(q),
            Err(e) => e == ErrorKind::ParseError && stats_with_attributes(
                s,
                attribute_views(list@),
            ) is None,
        },
{
    let mut q = s;
    let ghost all = attribute_views(list@);
    let mut i: usize = 0;
    assert(all.take(0) =~= Seq::<XmlAttributeView>::empty());
    while i < list.len()
        invariant
            i <= list.len(),
            all == attribute_views(list@),
            stats_with_attributes(s, all.take(i as int)) == Some(q),
        decreases list.len() - i,
    {
        proof {
            assert(all.take(i + 1).drop_last() =~= all.take(i as int));
            assert(all.take(i + 1).last() == list@[i as int]@);
            lemma_stats_prefix_fails(s, all, i + 1);
        }
        match apply_stats_attribute(q, &list[i]) {
            Ok(next) => {
                q = next;
            },
            Err(e) => {
                return Err(e);
            },
        }
        i = i + 1;
    }
    assert(all.take(i as int) =~= all);
    Ok(q)
}

/// Decodes a profile from the events of its file, starting from the
/// default profile.
///
/// Fails with `ParseError` where a number cannot be read.
pub fn profile_from_events(events: &Vec<XmlEvent>) -> (r: Result<Profile, ErrorKind>)
    ensures
        match r {
            Ok(p) => profile_of_events(event_views(events@)) == Some(p@),
            Err(e) => e == ErrorKind::ParseError && profile_of_events(event_views(events@))
                is None,
        },
{
    let mut profile = Profile::default();
    let ghost all = event_views(events@);
    let mut i: usize = 0;
    assert(all.take(0) =~= Seq::<XmlEventView>::empty());
    while i < events.len()
        invariant
            i <= events.len(),
            all == event_views(events@),
            profile_after(default_profile(), all.take(i as int)) == Some(profile@),
        decreases events.len() - i,
    {
        proof {
            assert(all.take(i + 1).drop_last() =~= all.take(i as int));
            assert(all.take(i + 1).last() == events@[i as int]@);
            lemma_profile_prefix_fails(default_profile(), all, i + 1);
        }
        let ghost before = profile@;
        match &events[i] {
            XmlEvent::Start(tag) => {
                let name = tag.name.as_str();
                if same_text(name, "profile") {
                    apply_profile_attributes(&mut profile, &tag.attributes);
                } else if same_text(name, "stats") {
                    match read_stats(profile.stats, &tag.attributes) {
                        Ok(s) => {
                            profile.stats = s;
                        },
                        Err(e) => {
                            return Err(e);
                        },
                    }
                }
            },
            _ => {},
        }
        assert(profile_step(before, events@[i as int]@) == Some(profile@));
        i = i + 1;
    }
    assert(all.take(i as int) =~= all);
    Ok(profile)
}

/// The profile that the content of a file describes: what its events
/// describe. `None` where the content is malformed and where a number
/// cannot be read.
pub open spec fn profile_of_content(content: Seq<u8>) -> Option<ProfileView> {
    match read_of(content) {
        Some(events) => profile_of_events(events),
        None => None,
    }
}

/// Decodes a profile from the content of its file: the events that the
/// reader finds in it, decoded as `profile_from_events` does.
///
/// Fails with `ParseError` where the reader reports malformed content,
/// where a name or a value is not UTF-8, and where a number cannot be read.
pub fn extract_profile(content: &[u8]) -> (r: Result<Profile, ErrorKind>)
    ensures
        match r {
            Ok(p) => profile_of_content(content@) == Some(p@),
            Err(e) => e == ErrorKind::ParseError && profile_of_content(content@) is None,
        },
{
    match read_events(content) {
        Ok(events) => profile_from_events(&events),
        Err(e) => Err(e),
    }
}

} // verus!
