//! Tracking of remote playlists and reconciliation of their local mirrors.
//!
//! The tracking store maps each tracked playlist's URL to its title and lives
//! in a text file of `url=title` lines. Reconciling a playlist compares the
//! identifiers of its remote videos with those that the names of the local
//! files carry, and tells which videos to download and which local files no
//! longer belong to the playlist.

mod filename;
mod format;
mod reconcile;
mod store;

pub use filename::{extract_id, last_tag, local_ids, LocalIds};
pub use reconcile::{diff, lemma_diff_identical, lemma_diff_no_local, Diff};
pub use store::{
    lemma_add_idempotent, lemma_lists_entries, lemma_remove_absent, lemma_round_trip, load,
    AddStep, Loaded, Playlist, ReadOutcome, TrackingStore,
};

use vstd::prelude::*;

verus! {

/// The contents of a sequence of strings.
pub open spec fn views(v: Seq<String>) -> Seq<Seq<char>> {
    v.map_values(|s: String| s@)
}

} // verus!
