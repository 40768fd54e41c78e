//! Reading many entities at once: which files belong to which player, and
//! how the decoded entities of a directory are brought together.
//!
//! Listing the directory and reading the files is the caller's part. The
//! caller hands over the file names and, for each player id, what decoding
//! gave; a batch is complete or it fails.
use vstd::prelude::*;
use vstd::string::*;
use crate::decimal::first_dot;
use crate::decimal::lemma_first_dot_at;
use crate::error::ErrorKind;
use crate::person::extract::extract_person;
use crate::person::extract::person_of_content;
use crate::person::model::Person;
use crate::person::model::PersonView;
use crate::profile::extract::extract_profile;
use crate::profile::extract::profile_of_content;
use crate::profile::model::Profile;
use crate::profile::model::ProfileView;
use crate::text::int_text;
use crate::text::lemma_integer_of_int_text;
use crate::text::lemma_nat_text;
use crate::text::nat_text;
use crate::text::parse_u64;
use crate::text::push_nat;
use crate::text::same_text;
use crate::text::u64_of_text;

verus! {

/// The end of the name of a person file.
pub const PERSON_FILE_SUFFIX: &'static str = ".person";

/// The end of the name of a profile file.
pub const PROFILE_FILE_SUFFIX: &'static str = ".profile";

/// Whether `name` ends with `suffix`.
pub open spec fn ends_with(name: Seq<char>, suffix: Seq<char>) -> bool {
    name.len() >= suffix.len() && name.skip(name.len() - suffix.len()) == suffix
}

/// The player id that a file name gives: the number before the first `.`,
/// where the name ends with `suffix`. `None` for any other name.
pub open spec fn id_of_file_name(name: Seq<char>, suffix: Seq<char>) -> Option<u64> {
    if ends_with(name, suffix) {
        u64_of_text(name.take(first_dot(name)))
    } else {
        None
    }
}

/// The name of the file of the player `id`: the digits of the id and the
/// suffix.
pub open spec fn file_name_of_id(id: u64, suffix: Seq<char>) -> Seq<char> {
    nat_text(id as nat) + suffix
}

/// The player ids that a list of file names gives, in the order of the
/// names; a name that gives none is passed over.
pub open spec fn ids_of_file_names(names: Seq<Seq<char>>, suffix: Seq<char>) -> Seq<u64>
    decreases names.len(),
{
    if names.len() == 0 {
        Seq::<u64>::empty()
    } else {
        match id_of_file_name(names.last(), suffix) {
            Some(id) => ids_of_file_names(names.drop_last(), suffix).push(id),
            None => ids_of_file_names(names.drop_last(), suffix),
        }
    }
}

/// The views of a list of file names.
pub open spec fn name_views(names: Seq<String>) -> Seq<Seq<char>> {
    names.map_values(|n: String| n@)
}

/// What decoding a person gave, to contracts.
pub open spec fn person_outcome(r: Result<Person, ErrorKind>) -> Result<PersonView, ErrorKind> {
    match r {
        Ok(p) => Ok(p@),
        Err(e) => Err(e),
    }
}

/// What decoding a profile gave, to contracts.
pub open spec fn profile_outcome(r: Result<Profile, ErrorKind>) -> Result<ProfileView, ErrorKind> {
    match r {
        Ok(p) => Ok(p@),
        Err(e) => Err(e),
    }
}

/// What decoding a list of persons gave, to contracts.
pub open spec fn person_outcomes(list: Seq<Result<Person, ErrorKind>>) -> Seq<
    Result<PersonView, ErrorKind>,
> {
    list.map_values(|r: Result<Person, ErrorKind>| person_outcome(r))
}

/// What decoding a list of profiles gave, to contracts.
pub open spec fn profile_outcomes(list: Seq<Result<Profile, ErrorKind>>) -> Seq<
    Result<ProfileView, ErrorKind>,
> {
    list.map_values(|r: Result<Profile, ErrorKind>| profile_outcome(r))
}

/// The views of a list of persons with their ids.
pub open spec fn person_entries(list: Seq<(u64, Person)>) -> Seq<(u64, PersonView)> {
    list.map_values(|e: (u64, Person)| (e.0, e.1@))
}

/// The views of a list of persons and profiles with their ids.
pub open spec fn full_entries(list: Seq<(u64, Person, Profile)>) -> Seq<
    (u64, PersonView, ProfileView),
> {
    list.map_values(|e: (u64, Person, Profile)| (e.0, e.1@, e.2@))
}

/// The persons of a batch, each with its id, in the order of the ids: the
/// first failure, in that order, if any person failed to decode, and
/// `NotFound` if a person is missing.
pub open spec fn joined_persons(ids: Seq<u64>, persons: Seq<Result<PersonView, ErrorKind>>)
    -> Result<Seq<(u64, PersonView)>, ErrorKind>
    decreases ids.len(),
{
    if persons.len() != ids.len() {
        Err(ErrorKind::NotFound)
    } else if ids.len() == 0 {
        Ok(Seq::<(u64, PersonView)>::empty())
    } else {
        match joined_persons(ids.drop_last(), persons.drop_last()) {
            Err(e) => Err(e),
            Ok(list) => match persons.last() {
                Err(e) => Err(e),
                Ok(p) => Ok(list.push((ids.last(), p))),
            },
        }
    }
}

/// The persons and profiles of a batch, each pair with its id, in the
/// order of the ids: the first failure, in that order and with the person
/// before the profile, if any entity failed to decode, and `NotFound` if an
/// entity is missing.
pub open spec fn joined(
    ids: Seq<u64>,
    persons: Seq<Result<PersonView, ErrorKind>>,
    profiles: Seq<Result<ProfileView, ErrorKind>>,
) -> Result<Seq<(u64, PersonView, ProfileView)>, ErrorKind>
    decreases ids.len(),
{
    if persons.len() != ids.len() || profiles.len() != ids.len() {
        Err(ErrorKind::NotFound)
    } else if ids.len() == 0 {
        Ok(Seq::<(u64, PersonView, ProfileView)>::empty())
    } else {
        match joined(ids.drop_last(), persons.drop_last(), profiles.drop_last()) {
            Err(e) => Err(e),
            Ok(list) => match persons.last() {
                Err(e) => Err(e),
                Ok(p) => match profiles.last() {
                    Err(e) => Err(e),
                    Ok(f) => Ok(list.push((ids.last(), p, f))),
                },
            },
        }
    }
}

/// The player id that a file name gives, where it ends with `suffix`.
pub fn file_id(file_name: &str, suffix: &str) -> (r: Option<u64>)
    ensures
        r == id_of_file_name(file_name@, suffix@),
{
    let n = file_name.unicode_len();
    let m = suffix.unicode_len();
    if n < m {
        return None;
    }
    let tail = file_name.substring_char(n - m, n);
    assert(tail@ =~= file_name@.skip(n - m));
    if !same_text(tail, suffix) {
        return None;
    }
    let mut i: usize = 0;
    while i < n && file_name.get_char(i) != '.'
        invariant
            i <= n,
            n == file_name@.len(),
            forall|k: int| 0 <= k < i ==> #[trigger] file_name@[k] != '.',
        decreases n - i,
    {
        i = i + 1;
    }
    proof {
        lemma_first_dot_at(file_name@, i as int);
    }
    let stem = file_name.substring_char(0, i);
    assert(stem@ =~= file_name@.take(i as int));
    parse_u64(stem)
}

/// The player id that the name of a person file gives.
pub fn person_id(file_name: &str) -> (r: Option<u64>)
    ensures
        r == id_of_file_name(file_name@, PERSON_FILE_SUFFIX@),
{
    file_id(file_name, PERSON_FILE_SUFFIX)
}

/// The player id that the name of a profile file gives.
pub fn profile_id(file_name: &str) -> (r: Option<u64>)
    ensures
        r == id_of_file_name(file_name@, PROFILE_FILE_SUFFIX@),
{
    file_id(file_name, PROFILE_FILE_SUFFIX)
}

/// The name of the person file of the player `id`.
pub fn person_file_name(id: u64) -> (r: String)
    ensures
        r@ == file_name_of_id(id, PERSON_FILE_SUFFIX@),
{
    let mut name = String::new();
    push_nat(&mut name, id);
    name.append(PERSON_FILE_SUFFIX);
    assert(name@ =~= file_name_of_id(id, PERSON_FILE_SUFFIX@));
    name
}

/// The name of the profile file of the player `id`.
pub fn profile_file_name(id: u64) -> (r: String)
    ensures
        r@ == file_name_of_id(id, PROFILE_FILE_SUFFIX@),
{
    let mut name = String::new();
    push_nat(&mut name, id);
    name.append(PROFILE_FILE_SUFFIX);
    assert(name@ =~= file_name_of_id(id, PROFILE_FILE_SUFFIX@));
    name
}

/// The player ids that a list of file names gives, in the order of the
/// names. A name that does not end with `suffix`, or does not begin with a
/// number, is passed over.
pub fn file_ids(file_names: &Vec<String>, suffix: &str) -> (r: Vec<u64>)
    ensures
        r@ == ids_of_file_names(name_views(file_names@), suffix@),
{
    let ghost names = name_views(file_names@);
    let mut ids: Vec<u64> = Vec::new();
    let mut i: usize = 0;
    assert(names.take(0) =~= Seq::<Seq<char>>::empty());
    while i < file_names.len()
        invariant
            i <= file_names.len(),
            names == name_views(file_names@),
            ids@ == ids_of_file_names(names.take(i as int), suffix@),
        decreases file_names.len() - i,
    {
        proof {
            assert(names.take(i + 1).drop_last() =~= names.take(i as int));
            assert(names.take(i + 1).last() == file_names@[i as int]@);
        }
        match file_id(file_names[i].as_str(), suffix) {
            Some(id) => {
                ids.push(id);
            },
            None => {},
        }
        i = i + 1;
    }
    assert(names.take(i as int) =~= names);
    ids
}

/// Brings the decoded persons of a batch together with their ids.
///
/// The batch fails as a whole where one person failed to decode: with the
/// first failure in the order of the ids.
pub fn join_persons(ids: &Vec<u64>, persons: &Vec<Result<Person, ErrorKind>>) -> (r: Result<
    Vec<(u64, Person)>,
    ErrorKind,
>)
    ensures
        match r {
            Ok(list) => joined_persons(ids@, person_outcomes(persons@)) == Ok::<
                Seq<(u64, PersonView)>,
                ErrorKind,
            >(person_entries(list@)),
            Err(e) => joined_persons(ids@, person_outcomes(persons@)) == Err::<
                Seq<(u64, PersonView)>,
                ErrorKind,
            >(e),
        },
{
    let ghost outcomes = person_outcomes(persons@);
    if persons.len() != ids.len() {
        return Err(ErrorKind::NotFound);
    }
    let mut list: Vec<(u64, Person)> = Vec::new();
    let mut i: usize = 0;
    assert(ids@.take(0) =~= Seq::<u64>::empty());
    assert(outcomes.take(0) =~= Seq::<Result<PersonView, ErrorKind>>::empty());
    assert(person_entries(list@) =~= Seq::<(u64, PersonView)>::empty());
    while i < ids.len()
        invariant
            i <= ids.len(),
            persons.len() == ids.len(),
            outcomes == person_outcomes(persons@),
            joined_persons(ids@.take(i as int), outcomes.take(i as int)) == Ok::<
                Seq<(u64, PersonView)>,
                ErrorKind,
            >(person_entries(list@)),
        decreases ids.len() - i,
    {
        proof {
            assert(ids@.take(i + 1).drop_last() =~= ids@.take(i as int));
            assert(outcomes.take(i + 1).drop_last() =~= outcomes.take(i as int));
            assert(outcomes.take(i + 1).last() == person_outcome(persons@[i as int]));
            lemma_joined_persons_prefix_fails(ids@, outcomes, i + 1);
        }
        match &persons[i] {
            Ok(p) => {
                let ghost prior = person_entries(list@);
                let q = p.clone();
                list.push((ids[i], q));
                assert(person_entries(list@) =~= prior.push((ids@[i as int], p@)));
            },
            Err(e) => {
                return Err(*e);
            },
        }
        i = i + 1;
    }
    assert(ids@.take(i as int) =~= ids@);
    assert(outcomes.take(i as int) =~= outcomes);
    Ok(list)
}

/// Brings the decoded persons and profiles of a batch together with their
/// ids.
///
/// The batch fails as a whole where one entity failed to decode: with the
/// first failure in the order of the ids, a person's before its profile's.
pub fn join_persons_and_profiles(
    ids: &Vec<u64>,
    persons: &Vec<Result<Person, ErrorKind>>,
    profiles: &Vec<Result<Profile, ErrorKind>>,
) -> (r: Result<Vec<(u64, Person, Profile)>, ErrorKind>)
    ensures
        match r {
            Ok(list) => joined(ids@, person_outcomes(persons@), profile_outcomes(profiles@))
                == Ok::<Seq<(u64, PersonView, ProfileView)>, ErrorKind>(full_entries(list@)),
            Err(e) => joined(ids@, person_outcomes(persons@), profile_outcomes(profiles@))
                == Err::<Seq<(u64, PersonView, ProfileView)>, ErrorKind>(e),
        },
{
    let ghost po = person_outcomes(persons@);
    let ghost fo = profile_outcomes(profiles@);
    if persons.len() != ids.len() || profiles.len() != ids.len() {
        return Err(ErrorKind::NotFound);
    }
    let mut list: Vec<(u64, Person, Profile)> = Vec::new();
    let mut i: usize = 0;
    assert(ids@.take(0) =~= Seq::<u64>::empty());
    assert(po.take(0) =~= Seq::<Result<PersonView, ErrorKind>>::empty());
    assert(fo.take(0) =~= Seq::<Result<ProfileView, ErrorKind>>::empty());
    assert(full_entries(list@) =~= Seq::<(u64, PersonView, ProfileView)>::empty());
    while i < ids.len()
        invariant
            i <= ids.len(),
            persons.len() == ids.len(),
            profiles.len() == ids.len(),
            po == person_outcomes(persons@),
            fo == profile_outcomes(profiles@),
            joined(ids@.take(i as int), po.take(i as int), fo.take(i as int)) == Ok::<
                Seq<(u64, PersonView, ProfileView)>,
                ErrorKind,
            >(full_entries(list@)),
        decreases ids.len() - i,
    {
        proof {
            assert(ids@.take(i + 1).drop_last() =~= ids@.take(i as int));
            assert(po.take(i + 1).drop_last() =~= po.take(i as int));
            assert(fo.take(i + 1).drop_last() =~= fo.take(i as int));
            assert(po.take(i + 1).last() == person_outcome(persons@[i as int]));
            assert(fo.take(i + 1).last() == profile_outcome(profiles@[i as int]));
            lemma_joined_prefix_fails(ids@, po, fo, i + 1);
        }
        let person = match &persons[i] {
            Ok(p) => p.clone(),
            Err(e) => {
                return Err(*e);
            },
        };
        let profile = match &profiles[i] {
            Ok(f) => f.clone(),
            Err(e) => {
                return Err(*e);
            },
        };
        let ghost prior = full_entries(list@);
        let ghost pv = person@;
        let ghost fv = profile@;
        list.push((ids[i], person, profile));
        assert(full_entries(list@) =~= prior.push((ids@[i as int], pv, fv)));
        i = i + 1;
    }
    assert(ids@.take(i as int) =~= ids@);
    assert(po.take(i as int) =~= po);
    assert(fo.take(i as int) =~= fo);
    Ok(list)
}

/// Where the first `k` persons of a batch do not join, the batch fails
/// with the same failure.
pub proof fn lemma_joined_persons_prefix_fails(
    ids: Seq<u64>,
    persons: Seq<Result<PersonView, ErrorKind>>,
    k: int,
)
    requires
        0 <= k <= ids.len(),
        persons.len() == ids.len(),
    ensures
        joined_persons(ids.take(k), persons.take(k)) is Err ==> joined_persons(ids, persons)
            == joined_persons(ids.take(k), persons.take(k)),
    decreases ids.len(),
{
    if k == ids.len() {
        assert(ids.take(k) =~= ids);
        assert(persons.take(k) =~= persons);
    } else {
        assert(ids.drop_last().take(k) =~= ids.take(k));
        assert(persons.drop_last().take(k) =~= persons.take(k));
        lemma_joined_persons_prefix_fails(ids.drop_last(), persons.drop_last(), k);
    }
}

/// Where the first `k` entities of a batch do not join, the batch fails
/// with the same failure.
pub proof fn lemma_joined_prefix_fails(
    ids: Seq<u64>,
    persons: Seq<Result<PersonView, ErrorKind>>,
    profiles: Seq<Result<ProfileView, ErrorKind>>,
    k: int,
)
    requires
        0 <= k <= ids.len(),
        persons.len() == ids.len(),
        profiles.len() == ids.len(),
    ensures
        joined(ids.take(k), persons.take(k), profiles.take(k)) is Err ==> joined(
            ids,
            persons,
            profiles,
        ) == joined(ids.take(k), persons.take(k), profiles.take(k)),
    decreases ids.len(),
{
    if k == ids.len() {
        assert(ids.take(k) =~= ids);
        assert(persons.take(k) =~= persons);
        assert(profiles.take(k) =~= profiles);
    } else {
        assert(ids.drop_last().take(k) =~= ids.take(k));
        assert(persons.drop_last().take(k) =~= persons.take(k));
        assert(profiles.drop_last().take(k) =~= profiles.take(k));
        lemma_joined_prefix_fails(ids.drop_last(), persons.drop_last(), profiles.drop_last(), k);
    }
}

/// A batch is all or nothing. It joins exactly if every person and every
/// profile decoded; one failure fails the whole batch. Where it joins, it
/// has one entry for each id, in the order of the ids, with the person and
/// the profile of that id.
pub proof fn lemma_batch_all_or_nothing(
    ids: Seq<u64>,
    persons: Seq<Result<PersonView, ErrorKind>>,
    profiles: Seq<Result<ProfileView, ErrorKind>>,
)
    requires
        persons.len() == ids.len(),
        profiles.len() == ids.len(),
    ensures
        joined(ids, persons, profiles) is Ok <==> forall|i: int|
            0 <= i < ids.len() ==> (#[trigger] persons[i]) is Ok && (#[trigger] profiles[i]) is Ok,
        joined(ids, persons, profiles) matches Ok(list) ==> list.len() == ids.len() && forall|
            i: int,
        |
            0 <= i < ids.len() ==> #[trigger] list[i] == (
                ids[i],
                persons[i]->Ok_0,
                profiles[i]->Ok_0,
            ),
    decreases ids.len(),
{
    if ids.len() > 0 {
        let n = ids.len() - 1;
        lemma_batch_all_or_nothing(ids.drop_last(), persons.drop_last(), profiles.drop_last());
        assert(persons.last() == persons[n]);
        assert(profiles.last() == profiles[n]);
        if joined(ids, persons, profiles) is Ok {
            assert forall|i: int| 0 <= i < ids.len() implies (#[trigger] persons[i]) is Ok && (
            #[trigger] profiles[i]) is Ok by {
                if i < n {
                    assert(persons.drop_last()[i] == persons[i]);
                    assert(profiles.drop_last()[i] == profiles[i]);
                }
            }
            let list = joined(ids, persons, profiles)->Ok_0;
            let prior = joined(ids.drop_last(), persons.drop_last(), profiles.drop_last())->Ok_0;
            assert forall|i: int| 0 <= i < ids.len() implies #[trigger] list[i] == (
                ids[i],
                persons[i]->Ok_0,
                profiles[i]->Ok_0,
            ) by {
                if i < n {
                    assert(list[i] == prior[i]);
                    assert(ids.drop_last()[i] == ids[i]);
                    assert(persons.drop_last()[i] == persons[i]);
                    assert(profiles.drop_last()[i] == profiles[i]);
                }
            }
        }
        if forall|i: int|
            0 <= i < ids.len() ==> (#[trigger] persons[i]) is Ok && (#[trigger] profiles[i]) is Ok {
            assert forall|i: int| 0 <= i < n implies (#[trigger] persons.drop_last()[i]) is Ok && (
            #[trigger] profiles.drop_last()[i]) is Ok by {
                assert(persons.drop_last()[i] == persons[i]);
                assert(profiles.drop_last()[i] == profiles[i]);
            }
            assert(persons[n] is Ok && profiles[n] is Ok);
        }
    }
}

/// The name that is written for a player id gives that id back when read.
pub proof fn lemma_file_name_round_trip(id: u64, suffix: Seq<char>)
    requires
        suffix.len() > 0,
        suffix[0] == '.',
    ensures
        id_of_file_name(file_name_of_id(id, suffix), suffix) == Some(id),
{
    let digits = nat_text(id as nat);
    let name = file_name_of_id(id, suffix);
    lemma_nat_text(id as nat);
    assert(name.skip(name.len() - suffix.len()) =~= suffix);
    assert forall|k: int| 0 <= k < digits.len() implies #[trigger] name[k] != '.' by {
        assert(name[k] == digits[k]);
        assert(crate::text::is_digit(digits[k]));
    }
    assert(name[digits.len() as int] == suffix[0]);
    lemma_first_dot_at(name, digits.len() as int);
    assert(name.take(digits.len() as int) =~= digits);
    lemma_integer_of_int_text(id as int, 0, u64::MAX as int);
    assert(int_text(id as int) == digits);
}

/// What decoding the person file of one player gives: the failure to
/// read the file, where there was one; else the person that the content
/// describes, or `ParseError`.
pub open spec fn person_of_file(file: Result<Vec<u8>, ErrorKind>) -> Result<PersonView, ErrorKind> {
    match file {
        Err(e) => Err(e),
        Ok(content) => match person_of_content(content@) {
            Some(p) => Ok(p),
            None => Err(ErrorKind::ParseError),
        },
    }
}

/// What decoding the profile file of one player gives: the failure to
/// read the file, where there was one; else the profile that the content
/// describes, or `ParseError`.
pub open spec fn profile_of_file(file: Result<Vec<u8>, ErrorKind>) -> Result<
    ProfileView,
    ErrorKind,
> {
    match file {
        Err(e) => Err(e),
        Ok(content) => match profile_of_content(content@) {
            Some(p) => Ok(p),
            None => Err(ErrorKind::ParseError),
        },
    }
}

/// What decoding the person files of a batch gives, file by file.
pub open spec fn persons_of_files(files: Seq<Result<Vec<u8>, ErrorKind>>) -> Seq<
    Result<PersonView, ErrorKind>,
> {
    files.map_values(|f: Result<Vec<u8>, ErrorKind>| person_of_file(f))
}

/// What decoding the profile files of a batch gives, file by file.
pub open spec fn profiles_of_files(files: Seq<Result<Vec<u8>, ErrorKind>>) -> Seq<
    Result<ProfileView, ErrorKind>,
> {
    files.map_values(|f: Result<Vec<u8>, ErrorKind>| profile_of_file(f))
}

/// Decodes the person of each file that was read; a file that could not be
/// read keeps its failure.
pub fn decode_persons(contents: &Vec<Result<Vec<u8>, ErrorKind>>) -> (r: Vec<
    Result<Person, ErrorKind>,
>)
    ensures
        person_outcomes(r@) == persons_of_files(contents@),
{
    let mut out: Vec<Result<Person, ErrorKind>> = Vec::new();
    let mut i: usize = 0;
    while i < contents.len()
        invariant
            i <= contents.len(),
            out@.len() == i,
            forall|k: int|
                0 <= k < i ==> person_outcome(#[trigger] out@[k]) == person_of_file(contents@[k]),
        decreases contents.len() - i,
    {
        let outcome = match &contents[i] {
            Ok(content) => extract_person(content.as_slice()),
            Err(e) => Err(*e),
        };
        out.push(outcome);
        i = i + 1;
    }
    assert(person_outcomes(out@) =~= persons_of_files(contents@));
    out
}

/// Decodes the profile of each file that was read; a file that could not
/// be read keeps its failure.
pub fn decode_profiles(contents: &Vec<Result<Vec<u8>, ErrorKind>>) -> (r: Vec<
    Result<Profile, ErrorKind>,
>)
    ensures
        profile_outcomes(r@) == profiles_of_files(contents@),
{
    let mut out: Vec<Result<Profile, ErrorKind>> = Vec::new();
    let mut i: usize = 0;
    while i < contents.len()
        invariant
            i <= contents.len(),
            out@.len() == i,
            forall|k: int|
                0 <= k < i ==> profile_outcome(#[trigger] out@[k]) == profile_of_file(
                    contents@[k],
                ),
        decreases contents.len() - i,
    {
        let outcome = match &contents[i] {
            Ok(content) => extract_profile(content.as_slice()),
            Err(e) => Err(*e),
        };
        out.push(outcome);
        i = i + 1;
    }
    assert(profile_outcomes(out@) =~= profiles_of_files(contents@));
    out
}

/// The persons of all players of a batch, from the content of their
/// files: each file decoded, and the outcomes joined as `join_persons`
/// does. The batch fails as a whole where one file could not be read or
/// decoded.
pub fn extract_all_person(ids: &Vec<u64>, person_files: &Vec<Result<Vec<u8>, ErrorKind>>) -> (r:
    Result<Vec<(u64, Person)>, ErrorKind>)
    ensures
        match r {
            Ok(list) => joined_persons(ids@, persons_of_files(person_files@)) == Ok::<
                Seq<(u64, PersonView)>,
                ErrorKind,
            >(person_entries(list@)),
            Err(e) => joined_persons(ids@, persons_of_files(person_files@)) == Err::<
                Seq<(u64, PersonView)>,
                ErrorKind,
            >(e),
        },
{
    let decoded = decode_persons(person_files);
    join_persons(ids, &decoded)
}

/// The persons and profiles of all players of a batch, from the content of
/// their files: each file decoded, and the outcomes joined as
/// `join_persons_and_profiles` does. The batch fails as a whole where one
/// file could not be read or decoded.
pub fn extract_all_person_and_profiles(
    ids: &Vec<u64>,
    person_files: &Vec<Result<Vec<u8>, ErrorKind>>,
    profile_files: &Vec<Result<Vec<u8>, ErrorKind>>,
) -> (r: Result<Vec<(u64, Person, Profile)>, ErrorKind>)
    ensures
        match r {
            Ok(list) => joined(
                ids@,
                persons_of_files(person_files@),
                profiles_of_files(profile_files@),
            ) == Ok::<Seq<(u64, PersonView, ProfileView)>, ErrorKind>(full_entries(list@)),
            Err(e) => joined(
                ids@,
                persons_of_files(person_files@),
                profiles_of_files(profile_files@),
            ) == Err::<Seq<(u64, PersonView, ProfileView)>, ErrorKind>(e),
        },
{
    let decoded_persons = decode_persons(person_files);
    let decoded_profiles = decode_profiles(profile_files);
    join_persons_and_profiles(ids, &decoded_persons, &decoded_profiles)
}

} // verus!
