use rwr_profile::decimal::Decimal;
use rwr_profile::error::ErrorKind;
use rwr_profile::profile::extract::extract_profile;
use rwr_profile::profile::model::Profile;
use rwr_profile::profile::model::Stats;
use rwr_profile::profile::save::update_profile_list_squad_tag;

const PROFILE: &str = "<profile game_version=\"154\" username=\"MR. BANG\" digest=\"\" sid=\"ID1\" rid=\"R2\" squad_tag=\"TAG\" color=\"1 0.5 0 1\" old_digest=\"\">\n    <stats kills=\"74\" deaths=\"63\" time_played=\"15262.7\" player_kills=\"2\" teamkills=\"1\" longest_kill_streak=\"8\" targets_destroyed=\"3\" vehicles_destroyed=\"5\" soldiers_healed=\"6\" times_got_healed=\"4\" distance_moved=\"52662.5\" shots_fired=\"3219\" throwables_thrown=\"49\" rank_progression=\"0.166667\">\n        <monitor name=\"kill combo\" />\n    </stats>\n</profile>\n";

#[test]
fn profile_is_decoded_field_by_field() {
    let profile = extract_profile(PROFILE.as_bytes()).unwrap();
    assert_eq!(
        profile,
        Profile {
            game_version: String::from("154"),
            username: String::from("MR. BANG"),
            sid: String::from("ID1"),
            rid: String::from("R2"),
            squad_tag: String::from("TAG"),
            color: String::from("1 0.5 0 1"),
            stats: Stats {
                kills: 74,
                deaths: 63,
                time_played: Decimal { micros: 15_262_700_000 },
                player_kills: 2,
                team_kills: 1,
                longest_kill_streak: 8,
                targets_destroyed: 3,
                vehicles_destroyed: 5,
                soldiers_healed: 6,
                times_got_healed: 4,
                distance_moved: Decimal { micros: 52_662_500_000 },
                shots_fired: 3219,
                throwables_thrown: 49,
                rank_progression: Decimal { micros: 166_667 },
            },
        }
    );
}

#[test]
fn profile_without_attributes_is_the_default() {
    assert_eq!(extract_profile(b"<profile></profile>").unwrap(), Profile::default());
    assert_eq!(extract_profile(b"").unwrap(), Profile::default());
    assert_eq!(Profile::default().stats, Stats::default());
}

#[test]
fn self_closing_stats_are_passed_over() {
    let profile = extract_profile(b"<profile username=\"u\"><stats kills=\"9\"/></profile>").unwrap();
    assert_eq!(profile.username, "u");
    assert_eq!(profile.stats.kills, 0);
}

#[test]
fn unreadable_statistics_are_a_parse_error() {
    assert_eq!(
        extract_profile(b"<profile><stats kills=\"-1\"></stats></profile>").err(),
        Some(ErrorKind::ParseError)
    );
    assert_eq!(
        extract_profile(b"<profile><stats time_played=\"soon\"></stats></profile>").err(),
        Some(ErrorKind::ParseError)
    );
    assert_eq!(extract_profile(b"<profile><stats></profile>").err(), Some(ErrorKind::ParseError));
}

#[test]
fn squad_tag_is_set_on_every_profile() {
    let mut a = Profile::default();
    a.username = String::from("a");
    a.squad_tag = String::from("OLD");
    let b = Profile::default();
    let changed = update_profile_list_squad_tag(&vec![(4u64, a), (2u64, b)], "NEW");
    assert_eq!(changed.len(), 2);
    assert_eq!(changed[0].0, 4);
    assert_eq!(changed[0].1.username, "a");
    assert_eq!(changed[0].1.squad_tag, "NEW");
    assert_eq!(changed[1].0, 2);
    assert_eq!(changed[1].1.squad_tag, "NEW");
}
