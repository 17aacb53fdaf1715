//! Application configuration: who the app is about, and where TF2 lives.
use crate::steamid::SteamId;
use vstd::prelude::*;

verus! {

/// Keys under which settings are stored.
pub const STEAMID_KEY: &'static str = "steamid";
pub const TF_PATH_KEY: &'static str = "tf_path";
pub const SCHEMA_NOTE_KEY: &'static str = "schema_note";

#[derive(Debug, Clone, Default)]
pub struct AppConfig {
    /// The player this app is about. Everything syncs and rates relative to them.
    pub steamid: Option<SteamId>,
    /// Absolute path to the `tf` directory of the TF2 install. Optional: it
    /// is only needed for demos, and everything else comes from logs.tf.
    pub tf_path: Option<String>,
}

impl AppConfig {
    /// Whether first-run setup is complete: the owner is known. The TF2
    /// folder can be skipped.
    pub fn is_ready(&self) -> (r: bool)
        ensures
            r == self.steamid is Some,
    {
        self.steamid.is_some()
    }
}

} // verus!
