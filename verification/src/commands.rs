//! What the commands do to the tracked torrents.
//!
//! Each command is a function from the state to the state or to an answer;
//! loading the state, storing it and printing are left to the caller.

use crate::bencode::BencodeType;
use crate::state::AppState;
use crate::torrent_file::{torrent_of, TorrentError, TorrentFile, TorrentId, TorrentView};
use vstd::prelude::*;

verus! {

/// The torrents that are tracked under another number than `id`.
pub open spec fn is_other(id: TorrentId) -> spec_fn(TorrentFile) -> bool {
    |t: TorrentFile| t.id != id
}

/// The first position from `i` on at which a torrent is tracked under `id`.
pub open spec fn position_from(torrents: Seq<TorrentFile>, id: TorrentId, i: int) -> Option<int>
    decreases torrents.len() - i,
{
    if i < 0 || i >= torrents.len() {
        None
    } else if torrents[i].id == id {
        Some(i)
    } else {
        position_from(torrents, id, i + 1)
    }
}

/// Starts to track the torrent that the decoded document `root` describes,
/// under `id`: it is added behind the others. Where the document describes
/// no torrent, the state stays as it is.
pub fn add_torrent(state: &mut AppState, id: TorrentId, root: &BencodeType) -> (r: Result<
    (),
    TorrentError,
>)
    ensures
        match r {
            Ok(()) => {
                &&& final(state).torrents@.len() == old(state).torrents@.len() + 1
                &&& final(state).torrents@.drop_last() == old(state).torrents@
                &&& torrent_of(id, root@) == Ok::<TorrentView, TorrentError>(
                    final(state).torrents@.last()@,
                )
            },
            Err(e) => {
                &&& torrent_of(id, root@) == Err::<TorrentView, TorrentError>(e)
                &&& final(state).torrents@ == old(state).torrents@
            },
        },
{
    match TorrentFile::from_bencode(id, root) {
        Err(e) => Err(e),
        Ok(torrent) => {
            state.torrents.push(torrent);
            assert(state.torrents@.drop_last() =~= old(state).torrents@);
            Ok(())
        },
    }
}

/// Removes a tracked torrent: every torrent that is tracked under
/// `torrent_id` leaves the state, and the others stay in their order.
pub fn rm_torrent(state: &mut AppState, torrent_id: &TorrentId)
    ensures
        final(state).torrents@ == old(state).torrents@.filter(is_other(*torrent_id)),
{
    let ghost before = state.torrents@;
    let ghost keep = is_other(*torrent_id);
    let ghost mut seen: int = 0;
    let mut i: usize = 0;
    proof {
        reveal(Seq::filter);
        assert(before.subrange(0, 0) =~= Seq::<TorrentFile>::empty());
        assert(state.torrents@.subrange(0, 0) =~= Seq::<TorrentFile>::empty());
        assert(state.torrents@.subrange(0, state.torrents@.len() as int) =~= before);
    }
    while i < state.torrents.len()
        invariant
            keep == is_other(*torrent_id),
            0 <= i <= state.torrents@.len(),
            i <= seen <= before.len(),
            before.len() - seen == state.torrents@.len() - i,
            before.subrange(0, seen).filter(keep) == state.torrents@.subrange(0, i as int),
            before.subrange(seen, before.len() as int) == state.torrents@.subrange(
                i as int,
                state.torrents@.len() as int,
            ),
        decreases state.torrents@.len() - i,
    {
        let ghost current = state.torrents@;
        proof {
            reveal(Seq::filter);
            assert(before[seen] == before.subrange(seen, before.len() as int)[0]);
            assert(current[i as int] == current.subrange(i as int, current.len() as int)[0]);
            assert(before.subrange(0, seen + 1).drop_last() =~= before.subrange(0, seen));
            assert(before.subrange(0, seen + 1).last() == before[seen]);
        }
        if state.torrents[i].id == *torrent_id {
            state.torrents.remove(i);
            proof {
                assert(!keep(before[seen]));
                assert(state.torrents@.subrange(0, i as int) =~= current.subrange(0, i as int));
                let rest = state.torrents@.subrange(i as int, state.torrents@.len() as int);
                let due = before.subrange(seen + 1, before.len() as int);
                assert forall|k: int| 0 <= k < rest.len() implies #[trigger] rest[k] == due[k] by {
                    assert(current[i + k + 1] == current.subrange(i as int, current.len() as int)[k
                        + 1]);
                    assert(before[seen + 1 + k] == before.subrange(seen, before.len() as int)[k
                        + 1]);
                }
                assert(rest =~= due);
                seen = seen + 1;
            }
        } else {
            proof {
                assert(keep(before[seen]));
                assert(current.subrange(0, i + 1) =~= current.subrange(0, i as int).push(
                    current[i as int],
                ));
                let rest = current.subrange(i + 1, current.len() as int);
                let due = before.subrange(seen + 1, before.len() as int);
                assert forall|k: int| 0 <= k < rest.len() implies #[trigger] rest[k] == due[k] by {
                    assert(current[i + k + 1] == current.subrange(i as int, current.len() as int)[k
                        + 1]);
                    assert(before[seen + 1 + k] == before.subrange(seen, before.len() as int)[k
                        + 1]);
                }
                assert(rest =~= due);
                seen = seen + 1;
            }
            i += 1;
        }
    }
    proof {
        assert(before.subrange(0, seen) =~= before);
        assert(state.torrents@.subrange(0, i as int) =~= state.torrents@);
    }
}

/// Lists the tracked torrents: the numbers under which they are tracked,
/// in the order of the state.
pub fn ls_torrents(state: &AppState) -> (ids: Vec<TorrentId>)
    ensures
        ids@ == Seq::new(state.torrents@.len(), |i: int| state.torrents@[i].id),
{
    let mut ids: Vec<TorrentId> = Vec::new();
    let mut i: usize = 0;
    while i < state.torrents.len()
        invariant
            i <= state.torrents@.len(),
            ids@ == Seq::new(i as nat, |k: int| state.torrents@[k].id),
        decreases state.torrents@.len() - i,
    {
        ids.push(state.torrents[i].id);
        i += 1;
        assert(ids@ =~= Seq::new(i as nat, |k: int| state.torrents@[k].id));
    }
    ids
}

/// The details of a tracked torrent: the first torrent that is tracked
/// under `torrent_id`, and `None` where there is none.
pub fn inspect_torrent<'a>(state: &'a AppState, torrent_id: &TorrentId) -> (found: Option<
    &'a TorrentFile,
>)
    ensures
        match position_from(state.torrents@, *torrent_id, 0) {
            Some(at) => 0 <= at < state.torrents@.len() && found == Some(&state.torrents@[at]),
            None => found is None,
        },
{
    let mut i: usize = 0;
    while i < state.torrents.len()
        invariant
            i <= state.torrents@.len(),
            position_from(state.torrents@, *torrent_id, 0) == position_from(
                state.torrents@,
                *torrent_id,
                i as int,
            ),
        decreases state.torrents@.len() - i,
    {
        if state.torrents[i].id == *torrent_id {
            return Some(&state.torrents[i]);
        }
        i += 1;
    }
    None
}

} // verus!
