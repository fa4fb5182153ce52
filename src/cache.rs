//! The tile cache: where each tile lives on disk, where it is fetched from,
//! and a registry that lets each tile be fetched at most once.

use vstd::prelude::*;
use crate::text::{decimal_digits, push_decimal, push_str, text_of};
use crate::viewport::TileKey;

verus! {

/// The tile's place under a cache root: `{root}/{zoom}/{x}/{y}.webp`.
pub open spec fn tile_path_of(root: Seq<char>, key: TileKey) -> Seq<char> {
    root + seq!['/'] + decimal_digits(key.zoom as nat) + seq!['/'] + decimal_digits(key.x as nat)
        + seq!['/'] + decimal_digits(key.y as nat) + seq!['.', 'w', 'e', 'b', 'p']
}

/// Where a tile is written while it is being fetched: its path with `.part`
/// after it, renamed to the path once complete so that no partial tile is
/// ever found under the path.
pub open spec fn partial_path_of(root: Seq<char>, key: TileKey) -> Seq<char> {
    tile_path_of(root, key) + seq!['.', 'p', 'a', 'r', 't']
}

/// The provider's address of a tile:
/// `{base}tile/osm-carto/{zoom}/{x}/{y}.png?apiKey={api_key}`.
pub open spec fn tile_url_of(base: Seq<char>, key: TileKey, api_key: Seq<char>) -> Seq<char> {
    base + "tile/osm-carto/"@ + decimal_digits(key.zoom as nat) + seq!['/'] + decimal_digits(
        key.x as nat,
    ) + seq!['/'] + decimal_digits(key.y as nat) + ".png?apiKey="@ + api_key
}

fn push_key_path(out: &mut Vec<char>, key: TileKey)
    ensures
        final(out)@ == old(out)@ + decimal_digits(key.zoom as nat) + seq!['/'] + decimal_digits(
            key.x as nat,
        ) + seq!['/'] + decimal_digits(key.y as nat),
{
    push_decimal(out, key.zoom as u64);
    out.push('/');
    push_decimal(out, key.x as u64);
    out.push('/');
    push_decimal(out, key.y as u64);
    assert(out@ =~= old(out)@ + decimal_digits(key.zoom as nat) + seq!['/'] + decimal_digits(
        key.x as nat,
    ) + seq!['/'] + decimal_digits(key.y as nat));
}

/// The path of the tile `key` under `cache_root`.
pub fn tile_path(cache_root: &str, key: TileKey) -> (r: String)
    ensures
        r@ == tile_path_of(cache_root@, key),
{
    let mut out: Vec<char> = Vec::new();
    push_str(&mut out, cache_root);
    out.push('/');
    push_key_path(&mut out, key);
    out.push('.');
    out.push('w');
    out.push('e');
    out.push('b');
    out.push('p');
    assert(out@ =~= tile_path_of(cache_root@, key));
    text_of(&out)
}

/// The path that the tile `key` is written to while it is fetched.
pub fn partial_tile_path(cache_root: &str, key: TileKey) -> (r: String)
    ensures
        r@ == partial_path_of(cache_root@, key),
{
    let mut out: Vec<char> = Vec::new();
    push_str(&mut out, cache_root);
    out.push('/');
    push_key_path(&mut out, key);
    out.push('.');
    out.push('w');
    out.push('e');
    out.push('b');
    out.push('p');
    out.push('.');
    out.push('p');
    out.push('a');
    out.push('r');
    out.push('t');
    assert(out@ =~= partial_path_of(cache_root@, key));
    text_of(&out)
}

/// The provider's address of the tile `key`.
pub fn tile_url(base_url: &str, key: TileKey, api_key: &str) -> (r: String)
    ensures
        r@ == tile_url_of(base_url@, key, api_key@),
{
    let mut out: Vec<char> = Vec::new();
    push_str(&mut out, base_url);
    push_str(&mut out, "tile/osm-carto/");
    push_key_path(&mut out, key);
    push_str(&mut out, ".png?apiKey=");
    push_str(&mut out, api_key);
    assert(out@ =~= tile_url_of(base_url@, key, api_key@));
    text_of(&out)
}

/// What the registry knows of a tile.
#[derive(Clone, Copy, Debug, PartialEq, Eq, Structural)]
pub enum TileState {
    /// A fetch of it has been handed out and has not completed.
    Fetching,
    /// It is complete on disk.
    Stored,
}

/// What the caller is to do for a requested tile.
#[derive(Clone, Copy, Debug, PartialEq, Eq, Structural)]
pub enum CacheStep {
    /// The tile is on disk: read it.
    Ready,
    /// The tile is this caller's to obtain: use the file on disk if an
    /// earlier run left it there, else fetch it to the partial path and
    /// rename it; then report it complete (or abandoned, on failure).
    Fetch,
    /// Another fetch of the tile is under way: wait for it.
    Wait,
}

/// The state recorded for `key` in `entries`.
pub open spec fn state_in(entries: Seq<(TileKey, TileState)>, key: TileKey) -> Option<TileState>
    decreases entries.len(),
{
    if entries.len() == 0 {
        None
    } else if entries.last().0 == key {
        Some(entries.last().1)
    } else {
        state_in(entries.drop_last(), key)
    }
}

/// The registry after a request for `key` from `st`, and what it answers.
pub open spec fn request_step(st: Map<TileKey, TileState>, key: TileKey) -> (
    Map<TileKey, TileState>,
    CacheStep,
) {
    if !st.contains_key(key) {
        (st.insert(key, TileState::Fetching), CacheStep::Fetch)
    } else if st[key] == TileState::Stored {
        (st, CacheStep::Ready)
    } else {
        (st, CacheStep::Wait)
    }
}

/// The registry of the tiles of this run, by key.
pub struct TileCache {
    entries: Vec<(TileKey, TileState)>,
}

impl TileCache {
    /// The state of each tile that the registry knows.
    pub closed spec fn view(&self) -> Map<TileKey, TileState> {
        Map::new(
            |k: TileKey| state_in(self.entries@, k) is Some,
            |k: TileKey| state_in(self.entries@, k).unwrap(),
        )
    }

    /// An empty registry.
    pub fn new() -> (r: TileCache)
        ensures
            r.view() == Map::<TileKey, TileState>::empty(),
    {
        let r = TileCache { entries: Vec::new() };
        assert(r.view() =~= Map::<TileKey, TileState>::empty());
        r
    }

    fn find(&self, key: TileKey) -> (r: Option<usize>)
        ensures
            match r {
                Some(i) => i < self.entries@.len() && self.entries@[i as int].0 == key
                    && state_in(self.entries@, key) == Some(self.entries@[i as int].1)
                    && forall|j: int| i < j < self.entries@.len() ==> self.entries@[j].0 != key,
                None => state_in(self.entries@, key) is None,
            },
    {
        let mut k: usize = self.entries.len();
        assert(self.entries@.take(k as int) =~= self.entries@);
        while k > 0
            invariant
                k <= self.entries@.len(),
                state_in(self.entries@, key) == state_in(self.entries@.take(k as int), key),
                forall|j: int| k <= j < self.entries@.len() ==> self.entries@[j].0 != key,
            decreases k,
        {
            let e = self.entries[k - 1];
            assert(self.entries@.take(k as int).drop_last() =~= self.entries@.take(k - 1));
            if e.0 == key {
                return Some(k - 1);
            }
            k = k - 1;
        }
        None
    }

    /// Asks for the tile `key`: `Fetch` the first time, after which the tile
    /// is being fetched; `Wait` while it is; `Ready` once it is stored.
    pub fn request(&mut self, key: TileKey) -> (r: CacheStep)
        ensures
            (final(self).view(), r) == request_step(old(self).view(), key),
    {
        match self.find(key) {
            Some(i) => {
                if self.entries[i].1 == TileState::Stored {
                    CacheStep::Ready
                } else {
                    CacheStep::Wait
                }
            },
            None => {
                let ghost before = self.entries@;
                self.entries.push((key, TileState::Fetching));
                assert(self.entries@.drop_last() =~= before);
                assert(self.view() =~= old(self).view().insert(key, TileState::Fetching));
                CacheStep::Fetch
            },
        }
    }

    /// Records that the fetch of `key` completed: the tile is stored.
    pub fn complete(&mut self, key: TileKey)
        ensures
            final(self).view() == old(self).view().insert(key, TileState::Stored),
    {
        let ghost before = self.entries@;
        self.entries.push((key, TileState::Stored));
        assert(self.entries@.drop_last() =~= before);
        assert(self.view() =~= old(self).view().insert(key, TileState::Stored));
    }

    /// Records that the fetch of `key` failed: the registry forgets the
    /// tile, so that no caller takes a partial one for stored.
    pub fn abandon(&mut self, key: TileKey)
        ensures
            final(self).view() == old(self).view().remove(key),
    {
        let mut kept: Vec<(TileKey, TileState)> = Vec::new();
        let mut i: usize = 0;
        while i < self.entries.len()
            invariant
                i <= self.entries@.len(),
                forall|k: TileKey|
                    k != key ==> #[trigger] state_in(kept@, k) == state_in(
                        self.entries@.take(i as int),
                        k,
                    ),
                state_in(kept@, key) is None,
            decreases self.entries@.len() - i,
        {
            let e = self.entries[i];
            let ghost before = kept@;
            assert(self.entries@.take(i + 1).drop_last() =~= self.entries@.take(i as int));
            if e.0 != key {
                kept.push(e);
                assert(kept@.drop_last() =~= before);
            }
            assert forall|k: TileKey| k != key implies #[trigger] state_in(kept@, k) == state_in(
                self.entries@.take(i + 1),
                k,
            ) by {
                assert(self.entries@.take(i + 1).last() == e);
                assert(state_in(before, k) == state_in(self.entries@.take(i as int), k));
                if e.0 != key {
                    assert(kept@.last() == e);
                } else {
                    assert(kept@ == before);
                }
            }
            i = i + 1;
        }
        assert(self.entries@.take(i as int) =~= self.entries@);
        self.entries = kept;
        assert(self.view() =~= old(self).view().remove(key));
    }
}

/// Asking twice for one tile fetches it once: whatever the registry held,
/// after a first request (and the completion of the fetch that it handed
/// out, if it did) a second request never answers `Fetch`; and once the
/// tile was fetched or already stored, it answers `Ready`.
pub proof fn lemma_fetch_at_most_once(st: Map<TileKey, TileState>, key: TileKey)
    ensures
        ({
            let (st1, first) = request_step(st, key);
            let st2 = if first == CacheStep::Fetch {
                st1.insert(key, TileState::Stored)
            } else {
                st1
            };
            let (st3, second) = request_step(st2, key);
            &&& second != CacheStep::Fetch
            &&& (first == CacheStep::Fetch || first == CacheStep::Ready) ==> second
                == CacheStep::Ready
            &&& st3 == st2
        }),
{
}

/// While a fetch is under way, every further request for the tile waits.
pub proof fn lemma_no_second_fetch(st: Map<TileKey, TileState>, key: TileKey)
    ensures
        ({
            let (st1, first) = request_step(st, key);
            first == CacheStep::Fetch ==> request_step(st1, key) == (st1, CacheStep::Wait)
        }),
{
}

} // verus!
