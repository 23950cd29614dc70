use vstd::prelude::*;

verus! {

/// What a run does about the cache, decided from the two maintenance flags.
#[derive(Debug, PartialEq, Eq, Structural)]
pub enum Maintenance {
    /// Prune entries whose directory no longer exists, then exit.
    Clean,
    /// Empty the cache unconditionally, then exit.
    Reset,
    /// Both flags at once are a user error: refuse, touch nothing.
    RefuseBoth,
    /// No maintenance was asked for: run normally.
    Proceed,
}

/// Decides the maintenance action. Asking for clean and reset together is
/// refused outright, so that neither operation touches the cache; one flag
/// alone selects its operation; neither flag lets the normal run proceed.
pub fn plan_maintenance(clean_cache: bool, reset_cache: bool) -> (m: Maintenance)
    ensures
        m is RefuseBoth <==> (clean_cache && reset_cache),
        m is Clean <==> (clean_cache && !reset_cache),
        m is Reset <==> (!clean_cache && reset_cache),
        m is Proceed <==> (!clean_cache && !reset_cache),
{
    if clean_cache && reset_cache {
        Maintenance::RefuseBoth
    } else if clean_cache {
        Maintenance::Clean
    } else if reset_cache {
        Maintenance::Reset
    } else {
        Maintenance::Proceed
    }
}

} // verus!
