//! Plain configuration values handed in by the surrounding process.

use vstd::prelude::*;

verus! {

/// Run-time configuration: service location, the acting player's display
/// name, and polling behaviour. Credential refresh is an outside concern;
/// the engine only carries these values.
#[derive(Clone, Debug)]
pub struct Config {
    pub root_url: String,
    pub ai_display_name: String,
    pub check_score: bool,
    pub poll_interval_seconds: u32,
    pub log_level: String,
    pub auth_data: AuthData,
}

#[derive(Clone, Debug)]
pub struct AuthData {
    pub username: String,
    pub password: String,
}

} // verus!
