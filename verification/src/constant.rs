//! Capacity defaults, schema versions and data file names.
use vstd::prelude::*;

verus! {

/// Number of grouped entries a backpack holds unless its file says otherwise.
pub const MAX_DEFAULT_BACKPACK_LEN: u16 = 255;

/// Number of grouped entries a stash holds unless its file says otherwise.
pub const MAX_DEFAULT_STASH_LEN: u16 = 300;

/// Schema version of the person files this library writes.
pub const MAX_PERSON_FILE_VERSION: u16 = 154;

/// Schema version of the profile files this library writes.
pub const MAX_PROFILE_FILE_VERSION: u16 = 154;

/// Name of the user account store inside the data folder.
pub const USERS_JSON_FILE_NAME: &'static str = "users.json";

/// Name of the quick item list inside the data folder.
pub const QUICK_ITEMS_JSON_FILE_NAME: &'static str = "quick_items.json";

/// Name of the rank table inside the data folder.
pub const RANKS_JSON_FILE_NAME: &'static str = "ranks.json";

} // verus!
