//! The profile entity and its statistics.
use vstd::prelude::*;
use crate::decimal::Decimal;

verus! {

/// Play statistics of a profile.
#[derive(Debug, Clone, Copy, PartialEq, Eq, Structural)]
pub struct Stats {
    pub kills: u64,
    pub deaths: u64,
    pub time_played: Decimal,
    pub player_kills: u64,
    pub team_kills: u64,
    pub longest_kill_streak: u64,
    pub targets_destroyed: u64,
    pub vehicles_destroyed: u64,
    pub soldiers_healed: u64,
    pub times_got_healed: u64,
    pub distance_moved: Decimal,
    pub shots_fired: u64,
    pub throwables_thrown: u64,
    pub rank_progression: Decimal,
}

/// A player's statistics entity.
#[derive(Debug, PartialEq, Eq)]
pub struct Profile {
    pub game_version: String,
    pub username: String,
    pub sid: String,
    pub rid: String,
    pub squad_tag: String,
    pub color: String,
    pub stats: Stats,
}

/// What a `Profile` is to contracts.
pub struct ProfileView {
    pub game_version: Seq<char>,
    pub username: Seq<char>,
    pub sid: Seq<char>,
    pub rid: Seq<char>,
    pub squad_tag: Seq<char>,
    pub color: Seq<char>,
    pub stats: Stats,
}

impl View for Profile {
    type V = ProfileView;

    open spec fn view(&self) -> ProfileView {
        ProfileView {
            game_version: self.game_version@,
            username: self.username@,
            sid: self.sid@,
            rid: self.rid@,
            squad_tag: self.squad_tag@,
            color: self.color@,
            stats: self.stats,
        }
    }
}

/// Statistics with every counter at zero.
pub open spec fn default_stats() -> Stats {
    Stats {
        kills: 0,
        deaths: 0,
        time_played: Decimal { micros: 0 },
        player_kills: 0,
        team_kills: 0,
        longest_kill_streak: 0,
        targets_destroyed: 0,
        vehicles_destroyed: 0,
        soldiers_healed: 0,
        times_got_healed: 0,
        distance_moved: Decimal { micros: 0 },
        shots_fired: 0,
        throwables_thrown: 0,
        rank_progression: Decimal { micros: 0 },
    }
}

/// The profile that decoding starts from: empty texts and zero statistics.
pub open spec fn default_profile() -> ProfileView {
    ProfileView {
        game_version: Seq::<char>::empty(),
        username: Seq::<char>::empty(),
        sid: Seq::<char>::empty(),
        rid: Seq::<char>::empty(),
        squad_tag: Seq::<char>::empty(),
        color: Seq::<char>::empty(),
        stats: default_stats(),
    }
}

impl Default for Stats {
    fn default() -> (r: Self)
        ensures
            r == default_stats(),
    {
        Stats {
            kills: 0,
            deaths: 0,
            time_played: Decimal { micros: 0 },
            player_kills: 0,
            team_kills: 0,
            longest_kill_streak: 0,
            targets_destroyed: 0,
            vehicles_destroyed: 0,
            soldiers_healed: 0,
            times_got_healed: 0,
            distance_moved: Decimal { micros: 0 },
            shots_fired: 0,
            throwables_thrown: 0,
            rank_progression: Decimal { micros: 0 },
        }
    }
}

impl Default for Profile {
    fn default() -> (r: Self)
        ensures
            r@ == default_profile(),
    {
        Profile {
            game_version: String::new(),
            username: String::new(),
            sid: String::new(),
            rid: String::new(),
            squad_tag: String::new(),
            color: String::new(),
            stats: Stats::default(),
        }
    }
}

impl Clone for Profile {
    fn clone(&self) -> (r: Self)
        ensures
            r@ == self@,
    {
        Profile {
            game_version: self.game_version.clone(),
            username: self.username.clone(),
            sid: self.sid.clone(),
            rid: self.rid.clone(),
            squad_tag: self.squad_tag.clone(),
            color: self.color.clone(),
            stats: self.stats,
        }
    }
}

} // verus!
