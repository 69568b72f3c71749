//! The persisted configuration of the global hotkey that summons the
//! launcher. The platform layer interprets and registers it; the catalog
//! core only stores and hands out this plain value.

use vstd::prelude::*;

verus! {

/// A modifier name together with a key name, as the settings store holds
/// them.
#[derive(Debug, Clone)]
pub struct ShortcutConfig {
    pub modifier: String,
    pub key: String,
}

impl Default for ShortcutConfig {
    /// The shortcut used until the user picks another one.
    fn default() -> (r: Self)
        ensures
            r.modifier@ == "Super"@,
            r.key@ == "K"@,
    {
        ShortcutConfig { modifier: String::from_str("Super"), key: String::from_str("K") }
    }
}

} // verus!
