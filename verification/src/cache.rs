//! The glyph cache: placement info per `(character, pixel size)` key,
//! filled lazily and rebuilt wholesale after the font list changes.

use vstd::prelude::*;

use crate::CharacterInfo;

verus! {

/// One cached glyph: its `(character, pixel size)` key and the placement
/// info that was stored for it.
#[derive(Debug, Copy, Clone, Eq, PartialEq, Structural)]
pub struct CacheEntry {
    /// The character the entry is for.
    pub c: char,
    /// The integer pixel size the glyph was rasterized at.
    pub size: u16,
    /// The stored placement info.
    pub info: CharacterInfo,
}

/// A map from `(character, pixel size)` to [`CharacterInfo`], kept as a
/// list of entries with pairwise distinct keys, in insertion order.
#[derive(Debug)]
pub struct GlyphCache {
    entries: Vec<CacheEntry>,
}

impl GlyphCache {
    /// The entries, in insertion order.
    pub closed spec fn entry_seq(&self) -> Seq<CacheEntry> {
        self.entries@
    }

    /// Some entry carries the key.
    pub open spec fn has_entry(&self, c: char, size: u16) -> bool {
        exists|i: int|
            0 <= i < self.entry_seq().len() && (#[trigger] self.entry_seq()[i]).c == c
                && self.entry_seq()[i].size == size
    }

    /// The info stored under the key, if present.
    pub open spec fn entry_at(&self, c: char, size: u16) -> CharacterInfo {
        self.entry_seq()[choose|i: int|
            0 <= i < self.entry_seq().len() && (#[trigger] self.entry_seq()[i]).c == c
                && self.entry_seq()[i].size == size].info
    }

    /// Keys are pairwise distinct.
    pub closed spec fn wf(&self) -> bool {
        forall|i: int, j: int|
            0 <= i < j < self.entries@.len() ==> !((#[trigger] self.entries@[i]).c
                == (#[trigger] self.entries@[j]).c && self.entries@[i].size
                == self.entries@[j].size)
    }

    /// An empty cache.
    pub fn new() -> (r: GlyphCache)
        ensures
            r.wf(),
            r.entry_seq().len() == 0,
    {
        GlyphCache { entries: Vec::new() }
    }

    /// How many keys are cached.
    pub fn len(&self) -> (n: usize)
        ensures
            n == self.entry_seq().len(),
    {
        self.entries.len()
    }

    /// The entry at one position, in insertion order.
    pub fn entry(&self, k: usize) -> (e: CacheEntry)
        requires
            k < self.entry_seq().len(),
        ensures
            e == self.entry_seq()[k as int],
    {
        self.entries[k]
    }

    /// The info stored under `(c, size)`, if that key was cached.
    pub fn get(&self, c: char, size: u16) -> (r: Option<CharacterInfo>)
        requires
            self.wf(),
        ensures
            match r {
                Some(info) => self.has_entry(c, size) && info == self.entry_at(c, size),
                None => !self.has_entry(c, size),
            },
    {
        let mut k: usize = 0;
        while k < self.entries.len()
            invariant
                self.wf(),
                k <= self.entries@.len(),
                forall|i: int|
                    0 <= i < k ==> !((#[trigger] self.entries@[i]).c == c && self.entries@[i].size
                        == size),
            decreases self.entries@.len() - k,
        {
            let e = self.entries[k];
            if e.c == c && e.size == size {
                proof {
                    let w = choose|i: int|
                        0 <= i < self.entry_seq().len() && (#[trigger] self.entry_seq()[i]).c == c
                            && self.entry_seq()[i].size == size;
                    if w != k as int {
                        if w < k as int {
                            assert(!(self.entries@[w].c == self.entries@[k as int].c
                                && self.entries@[w].size == self.entries@[k as int].size));
                        } else {
                            assert(!(self.entries@[k as int].c == self.entries@[w].c
                                && self.entries@[k as int].size == self.entries@[w].size));
                        }
                    }
                }
                return Some(e.info);
            }
            k = k + 1;
        }
        None
    }

    /// Keys are unique: any position holding a key determines what
    /// `entry_at` returns for it.
    pub proof fn lemma_entry_at_unique(&self, c: char, size: u16, i: int)
        requires
            self.wf(),
            0 <= i < self.entry_seq().len(),
            self.entry_seq()[i].c == c,
            self.entry_seq()[i].size == size,
        ensures
            self.has_entry(c, size),
            self.entry_at(c, size) == self.entry_seq()[i].info,
    {
        assert(self.has_entry(c, size));
        let w = choose|w: int|
            0 <= w < self.entry_seq().len() && (#[trigger] self.entry_seq()[w]).c == c
                && self.entry_seq()[w].size == size;
        if w != i {
            if w < i {
                assert(!(self.entries@[w].c == self.entries@[i].c && self.entries@[w].size
                    == self.entries@[i].size));
            } else {
                assert(!(self.entries@[i].c == self.entries@[w].c && self.entries@[i].size
                    == self.entries@[w].size));
            }
        }
    }

    /// Stores info under a key not yet cached.
    pub fn insert(&mut self, c: char, size: u16, info: CharacterInfo)
        requires
            old(self).wf(),
            !old(self).has_entry(c, size),
        ensures
            final(self).wf(),
            final(self).entry_seq() == old(self).entry_seq().push(
                CacheEntry { c, size, info },
            ),
    {
        self.entries.push(CacheEntry { c, size, info });
    }

    /// Replaces the info of the entry at one position, keeping its key.
    pub fn set_info(&mut self, k: usize, info: CharacterInfo)
        requires
            old(self).wf(),
            k < old(self).entry_seq().len(),
        ensures
            final(self).wf(),
            final(self).entry_seq() == old(self).entry_seq().update(
                k as int,
                CacheEntry {
                    c: old(self).entry_seq()[k as int].c,
                    size: old(self).entry_seq()[k as int].size,
                    info,
                },
            ),
    {
        let e = self.entries[k];
        self.entries[k] = CacheEntry { c: e.c, size: e.size, info };
    }
}

} // verus!
