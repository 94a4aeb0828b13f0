//! The player profile: what the player owns across runs (bindings,
//! definitions, learned abilities and console history).

use vstd::prelude::*;

use crate::paths::{joined_path, opt_text_view, xlyph_dir, xlyph_dir_of};

verus! {

/// The player-authored state kept across runs; nothing of the current run
/// (depth, map, entities).
#[derive(Clone, Debug)]
pub struct PlayerProfile {
    pub bindings: Vec<(String, String)>,
    pub user_source: Vec<String>,
    pub player_can_attack: bool,
    pub wizard_taught: bool,
    pub cheat_unlocked: bool,
    pub blocking: bool,
    pub console_history: Vec<String>,
}

impl Default for PlayerProfile {
    /// An empty profile: no bindings, no source, nothing learned.
    fn default() -> (p: PlayerProfile)
        ensures
            p.bindings@.len() == 0,
            p.user_source@.len() == 0,
            !p.player_can_attack,
            !p.wizard_taught,
            !p.cheat_unlocked,
            !p.blocking,
            p.console_history@.len() == 0,
    {
        PlayerProfile {
            bindings: Vec::new(),
            user_source: Vec::new(),
            player_can_attack: false,
            wizard_taught: false,
            cheat_unlocked: false,
            blocking: false,
            console_history: Vec::new(),
        }
    }
}

impl PlayerProfile {
    /// `~/.xlyph/profile.json`, given the value of `HOME`.
    pub fn path(home: Option<&str>) -> (r: String)
        ensures
            r@ == joined_path(xlyph_dir_of(opt_text_view(home)), "profile.json"@),
    {
        let d = xlyph_dir(home);
        crate::paths::join_path(d.as_str(), "profile.json")
    }
}

} // verus!
