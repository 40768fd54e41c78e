//! Deciding which files are of an older schema.
use vstd::prelude::*;
use vstd::string::*;
use crate::constant::MAX_PERSON_FILE_VERSION;
use crate::constant::MAX_PROFILE_FILE_VERSION;
use crate::error::ErrorKind;
use vstd::utf8::encode_utf8;
use crate::person::extract::person_from_events;
use crate::person::extract::person_of_events;
use crate::version_update::update_to_154::migrate_events;
use crate::version_update::update_to_154::version_bumped;
use crate::profile::extract::extract_profile;
use crate::profile::extract::profile_of_content;
use crate::version_update::update_to_154::migrated_bytes;
use crate::xml::event_views;
use crate::xml::read_of;
use crate::xml::text_of;
use crate::xml::read_events;
use crate::xml::XmlEvent;
use crate::xml::XmlEventView;
use crate::text::parse_u64;
use crate::text::u64_of_text;
use crate::version_update::update_to_154::update_profile;
use crate::xml::str_from_utf8;

verus! {

/// Whether a person file that declares `version` is of an older schema.
pub open spec fn person_is_legacy(version: u16) -> bool {
    version < MAX_PERSON_FILE_VERSION
}

/// Whether a profile file that declares `game_version` is of an older
/// schema: the version is a number, and below the current one.
pub open spec fn profile_is_legacy(game_version: Seq<char>) -> bool {
    match u64_of_text(game_version) {
        Some(v) => v < MAX_PROFILE_FILE_VERSION,
        None => false,
    }
}

/// Whether a person file that declares `version` is of an older schema.
pub fn person_needs_update(version: u16) -> (r: bool)
    ensures
        r == person_is_legacy(version),
{
    version < MAX_PERSON_FILE_VERSION
}

/// Whether a profile file that declares `game_version` is of an older
/// schema.
pub fn profile_needs_update(game_version: &str) -> (r: bool)
    ensures
        r == profile_is_legacy(game_version@),
{
    match parse_u64(game_version) {
        Some(v) => v < MAX_PROFILE_FILE_VERSION as u64,
        None => false,
    }
}

/// What is to be written in place of a person file with these events, as
/// bytes: the migrated file where the person declares an older version,
/// and nothing where it is current. `ParseError` where a number cannot be
/// read.
pub open spec fn person_update_of_events(events: Seq<XmlEventView>) -> Result<
    Option<Seq<u8>>,
    ErrorKind,
> {
    match person_of_events(events) {
        None => Err(ErrorKind::ParseError),
        Some(p) => if !person_is_legacy(p.version) {
            Ok(None)
        } else {
            match migrated_bytes(events) {
                Some(bytes) => Ok(Some(bytes)),
                None => Err(ErrorKind::ParseError),
            }
        },
    }
}

/// What is to be written in place of a person file of this content.
/// `ParseError` where the content is malformed and where a number cannot be
/// read.
pub open spec fn person_update_of_content(content: Seq<u8>) -> Result<Option<Seq<u8>>, ErrorKind> {
    match read_of(content) {
        Some(events) => person_update_of_events(events),
        None => Err(ErrorKind::ParseError),
    }
}

/// What is to be written in place of a profile file of this content, as
/// text: the content with the current version where the profile declares
/// an older one, and nothing where it is current. `ParseError` where the
/// content is malformed or not UTF-8, and where a number cannot be read.
pub open spec fn profile_update_of_content(content: Seq<u8>) -> Result<
    Option<Seq<char>>,
    ErrorKind,
> {
    match (profile_of_content(content), text_of(content)) {
        (Some(p), Some(text)) => if profile_is_legacy(p.game_version) {
            Ok(Some(version_bumped(text)))
        } else {
            Ok(None)
        },
        _ => Err(ErrorKind::ParseError),
    }
}

/// What a text to write is to contracts, as bytes.
pub open spec fn written_bytes(r: Result<Option<String>, ErrorKind>) -> Result<
    Option<Seq<u8>>,
    ErrorKind,
> {
    match r {
        Ok(Some(text)) => Ok(Some(encode_utf8(text@))),
        Ok(None) => Ok(None),
        Err(e) => Err(e),
    }
}

/// What a text to write is to contracts, as text.
pub open spec fn written_text(r: Result<Option<String>, ErrorKind>) -> Result<
    Option<Seq<char>>,
    ErrorKind,
> {
    match r {
        Ok(Some(text)) => Ok(Some(text@)),
        Ok(None) => Ok(None),
        Err(e) => Err(e),
    }
}

/// What is to be written in place of a person file, told from its events:
/// the text of the current schema where the file declares an older
/// version, and nothing where it is current.
///
/// Fails with `ParseError` where a number cannot be read, and not
/// otherwise.
pub fn preupdate_person_events(events: &Vec<XmlEvent>) -> (r: Result<Option<String>, ErrorKind>)
    ensures
        written_bytes(r) == person_update_of_events(event_views(events@)),
{
    let person = match person_from_events(events) {
        Ok(person) => person,
        Err(e) => {
            return Err(e);
        },
    };
    if !person_needs_update(person.version) {
        return Ok(None);
    }
    match migrate_events(events) {
        Ok(text) => Ok(Some(text)),
        Err(e) => Err(e),
    }
}

/// What is to be written in place of a person file: what
/// `preupdate_person_events` says of the events that the reader finds in
/// the content.
///
/// Fails with `ParseError` where the content is malformed and where a
/// number cannot be read, and not otherwise.
pub fn preupdate_person(content: &[u8]) -> (r: Result<Option<String>, ErrorKind>)
    ensures
        written_bytes(r) == person_update_of_content(content@),
{
    match read_events(content) {
        Ok(events) => preupdate_person_events(&events),
        Err(e) => Err(e),
    }
}

/// What is to be written in place of a profile file whose text and
/// declared version are given: the text with the current version where
/// the declared one is older, and nothing where it is current.
pub fn preupdate_profile_text(text: &str, game_version: &str) -> (r: Option<String>)
    ensures
        match r {
            Some(s) => profile_is_legacy(game_version@) && s@ == version_bumped(text@),
            None => !profile_is_legacy(game_version@),
        },
{
    if profile_needs_update(game_version) {
        Some(update_profile(text))
    } else {
        None
    }
}

/// What is to be written in place of a profile file: what
/// `preupdate_profile_text` says of its text and of the version that the
/// decoded profile declares.
///
/// Fails with `ParseError` where the content is malformed or not UTF-8 and
/// where a number cannot be read, and not otherwise.
pub fn preupdate_profile(content: &[u8]) -> (r: Result<Option<String>, ErrorKind>)
    ensures
        written_text(r) == profile_update_of_content(content@),
{
    broadcast use vstd::utf8::encode_utf8_decode_utf8;

    let profile = match extract_profile(content) {
        Ok(profile) => profile,
        Err(e) => {
            return Err(e);
        },
    };
    match str_from_utf8(content) {
        Some(text) => {
            assert(vstd::utf8::decode_utf8(encode_utf8(text@)) == text@);
            Ok(preupdate_profile_text(text, profile.game_version.as_str()))
        },
        None => Err(ErrorKind::ParseError),
    }
}

/// The files that a migration is to write, each with the id of its
/// player, in the order of the ids: one for each player whose file was
/// brought to the current schema.
pub open spec fn files_to_write(ids: Seq<u64>, outcomes: Seq<Result<Option<String>, ErrorKind>>)
    -> Seq<(u64, Seq<char>)>
    decreases ids.len(),
{
    if ids.len() == 0 || outcomes.len() != ids.len() {
        Seq::<(u64, Seq<char>)>::empty()
    } else {
        match outcomes.last() {
            Ok(Some(text)) => files_to_write(ids.drop_last(), outcomes.drop_last()).push(
                (ids.last(), text@),
            ),
            _ => files_to_write(ids.drop_last(), outcomes.drop_last()),
        }
    }
}

/// The players whose file a migration could not bring to the current
/// schema, each with the reason, in the order of the ids.
pub open spec fn failed_updates(ids: Seq<u64>, outcomes: Seq<Result<Option<String>, ErrorKind>>)
    -> Seq<(u64, ErrorKind)>
    decreases ids.len(),
{
    if ids.len() == 0 || outcomes.len() != ids.len() {
        Seq::<(u64, ErrorKind)>::empty()
    } else {
        match outcomes.last() {
            Err(e) => failed_updates(ids.drop_last(), outcomes.drop_last()).push((ids.last(), e)),
            _ => failed_updates(ids.drop_last(), outcomes.drop_last()),
        }
    }
}

/// The views of a list of files with the ids of their players.
pub open spec fn file_views(files: Seq<(u64, String)>) -> Seq<(u64, Seq<char>)> {
    files.map_values(|f: (u64, String)| (f.0, f.1@))
}

/// Sorts what the migration of each player gave: the files to write, and
/// the players that failed. A failure of one player does not stand in the
/// way of the others. Where the outcomes are not one for each id, nothing
/// is written and nothing has failed.
pub fn split_outcomes(ids: &Vec<u64>, outcomes: &Vec<Result<Option<String>, ErrorKind>>) -> (r: (
    Vec<(u64, String)>,
    Vec<(u64, ErrorKind)>,
))
    ensures
        file_views(r.0@) == files_to_write(ids@, outcomes@),
        r.1@ == failed_updates(ids@, outcomes@),
{
    let mut files: Vec<(u64, String)> = Vec::new();
    let mut failed: Vec<(u64, ErrorKind)> = Vec::new();
    assert(file_views(files@) =~= Seq::<(u64, Seq<char>)>::empty());
    if outcomes.len() != ids.len() {
        return (files, failed);
    }
    let mut i: usize = 0;
    assert(ids@.take(0) =~= Seq::<u64>::empty());
    while i < ids.len()
        invariant
            i <= ids.len(),
            outcomes.len() == ids.len(),
            file_views(files@) == files_to_write(ids@.take(i as int), outcomes@.take(i as int)),
            failed@ == failed_updates(ids@.take(i as int), outcomes@.take(i as int)),
        decreases ids.len() - i,
    {
        proof {
            assert(ids@.take(i + 1).drop_last() =~= ids@.take(i as int));
            assert(outcomes@.take(i + 1).drop_last() =~= outcomes@.take(i as int));
            assert(outcomes@.take(i + 1).last() == outcomes@[i as int]);
            assert(ids@.take(i + 1).last() == ids@[i as int]);
        }
        match &outcomes[i] {
            Ok(Some(text)) => {
                let ghost prior = file_views(files@);
                files.push((ids[i], text.clone()));
                assert(file_views(files@) =~= prior.push((ids@[i as int], text@)));
            },
            Ok(None) => {},
            Err(e) => {
                failed.push((ids[i], *e));
            },
        }
        i = i + 1;
    }
    assert(ids@.take(i as int) =~= ids@);
    assert(outcomes@.take(i as int) =~= outcomes@);
    (files, failed)
}

} // verus!
