//! The decisions of a streaming search: what is announced before the walk,
//! what is done with each entry it meets, and what closes it. The walk
//! itself, its threads and its channel belong to the caller.
use vstd::prelude::*;
use crate::model::SearchEvent;
use crate::query::CompiledQuery;

verus! {

/// What to do with an entry the walk meets.
#[derive(Clone, Copy, Debug, PartialEq, Eq, Structural)]
pub enum WalkStep {
    /// A newer search has started: stop walking.
    Quit,
    /// Go on to the next entry; `scanned` tells whether this one counts as
    /// a file looked at.
    Skip { scanned: bool },
    /// Search this file (it counts as looked at).
    Search,
}

/// What a search of `generation` announces before walking: the error alone
/// when its query did not compile, its end alone when it has no roots, and
/// nothing (walk on) otherwise.
pub fn search_start(generation: u64, compiled: &Result<CompiledQuery, String>, roots_empty: bool) -> (r: Option<SearchEvent>)
    ensures
        match compiled {
            Err(e) => r matches Some(SearchEvent::Error(g, x)) && g == generation && x@ == e@,
            Ok(_) => if roots_empty {
                r == Some(SearchEvent::Done(generation))
            } else {
                r is None
            },
        },
{
    match compiled {
        Err(e) => Some(SearchEvent::Error(generation, e.clone())),
        Ok(_) => if roots_empty {
            Some(SearchEvent::Done(generation))
        } else {
            None
        },
    }
}

/// The step for one entry of a search of `generation` while `current` is
/// the active generation: quit once another search is active; skip what is
/// not a file, and a file the filter rejects (`accepted` false); search the
/// rest.
pub fn entry_step(current: u64, generation: u64, is_file: bool, accepted: bool) -> (r: WalkStep)
    ensures
        r == (if current != generation {
            WalkStep::Quit
        } else if !is_file {
            WalkStep::Skip { scanned: false }
        } else if !accepted {
            WalkStep::Skip { scanned: true }
        } else {
            WalkStep::Search
        }),
{
    if current != generation {
        WalkStep::Quit
    } else if !is_file {
        WalkStep::Skip { scanned: false }
    } else if !accepted {
        WalkStep::Skip { scanned: true }
    } else {
        WalkStep::Search
    }
}

/// The event that closes a search of `generation` once the walk has ended
/// (run through, or quit).
pub fn finish(generation: u64) -> (r: SearchEvent)
    ensures
        r == SearchEvent::Done(generation),
{
    SearchEvent::Done(generation)
}

} // verus!
