//! The torrents that are tracked.

use crate::torrent_file::TorrentFile;
use vstd::prelude::*;

verus! {

/// The tracked torrents, in the order in which they were added.
#[derive(Debug)]
pub struct AppState {
    pub torrents: Vec<TorrentFile>,
}

impl AppState {
    /// The state in which nothing is tracked.
    pub fn new() -> (state: Self)
        ensures
            state.torrents@.len() == 0,
    {
        AppState { torrents: Vec::new() }
    }
}

} // verus!
