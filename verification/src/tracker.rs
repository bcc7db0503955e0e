//! The reading-progress tracker: identifier to last viewed
//! (chapter, image) pair, readable from and renderable to its persisted
//! form.
//!
//! The pairs are kept in insertion order with unique identifiers.  An
//! identifier that was never set reads as the default position (0, 0).

use vstd::prelude::*;

use crate::comic::Comic;
use crate::progress_file::{
    insert_entry, insert_entry_exec, lemma_insert_entry_unique, lemma_parse_tracker_unique,
    parse_progress, parse_tracker, render_progress, render_tracker, unique_keys,
};

verus! {

/// Failure of reading a persisted tracker.
#[derive(Debug, PartialEq)]
pub enum TrackerReadError {
    DecodeError,
}

/// Failure of persisting a tracker.  The variants that carry a path are
/// built by the caller that owns the file handle.
#[derive(Debug, PartialEq)]
pub enum TrackerSaveError {
    CantCreateFile(String),
    SerializeError,
    CantWriteFile(String),
}

/// The map the pair list denotes; with unique identifiers the fold order
/// does not matter.
pub open spec fn entries_map(s: Seq<(usize, (usize, usize))>) -> Map<usize, (usize, usize)>
    decreases s.len(),
{
    if s.len() == 0 {
        Map::empty()
    } else {
        entries_map(s.drop_first()).insert(s[0].0, s[0].1)
    }
}

/// The position a record reads: its stored pair, or the default (0, 0)
/// when none is stored.
pub open spec fn progress_of(m: Map<usize, (usize, usize)>, comic: Comic) -> (usize, usize) {
    if m.contains_key(comic.id) {
        m[comic.id]
    } else {
        (0, 0)
    }
}

proof fn lemma_entries_map_found(s: Seq<(usize, (usize, usize))>, i: int)
    requires
        unique_keys(s),
        0 <= i < s.len(),
    ensures
        entries_map(s).contains_key(s[i].0),
        entries_map(s)[s[i].0] == s[i].1,
    decreases s.len(),
{
    if i > 0 {
        assert(unique_keys(s.drop_first()));
        lemma_entries_map_found(s.drop_first(), i - 1);
        assert(s.drop_first()[i - 1] == s[i]);
        assert(s[0].0 != s[i].0);
    }
}

proof fn lemma_entries_map_absent(s: Seq<(usize, (usize, usize))>, key: usize)
    requires
        forall|i: int| 0 <= i < s.len() ==> s[i].0 != key,
    ensures
        !entries_map(s).contains_key(key),
    decreases s.len(),
{
    if s.len() > 0 {
        assert(forall|i: int| 0 <= i < s.drop_first().len() ==> s.drop_first()[i].0 != key);
        lemma_entries_map_absent(s.drop_first(), key);
    }
}

proof fn lemma_insert_entry_map(s: Seq<(usize, (usize, usize))>, key: usize, val: (usize, usize))
    requires
        unique_keys(s),
    ensures
        entries_map(insert_entry(s, key, val)) == entries_map(s).insert(key, val),
    decreases s.len(),
{
    let out = insert_entry(s, key, val);
    if s.len() == 0 {
        reveal_with_fuel(entries_map, 2);
        assert(out.drop_first() =~= Seq::<(usize, (usize, usize))>::empty());
        assert(entries_map(out) =~= entries_map(s).insert(key, val));
    } else if s[0].0 == key {
        assert(out.drop_first() =~= s.drop_first());
        assert(entries_map(out) == entries_map(s.drop_first()).insert(key, val));
        assert(entries_map(s.drop_first()).insert(s[0].0, s[0].1).insert(key, val)
            =~= entries_map(s.drop_first()).insert(key, val));
    } else {
        assert(unique_keys(s.drop_first()));
        lemma_insert_entry_map(s.drop_first(), key, val);
        assert(out.drop_first() =~= insert_entry(s.drop_first(), key, val));
        assert(out[0] == s[0]);
        assert(entries_map(out) == entries_map(s.drop_first()).insert(key, val).insert(
            s[0].0,
            s[0].1,
        ));
        assert(entries_map(s.drop_first()).insert(key, val).insert(s[0].0, s[0].1)
            =~= entries_map(s.drop_first()).insert(s[0].0, s[0].1).insert(key, val));
    }
}

fn lookup(data: &Vec<(usize, (usize, usize))>, key: usize) -> (r: Option<(usize, usize)>)
    requires
        unique_keys(data@),
    ensures
        match r {
            Some(v) => entries_map(data@).contains_key(key) && v == entries_map(data@)[key],
            None => !entries_map(data@).contains_key(key),
        },
{
    let mut i: usize = 0;
    while i < data.len()
        invariant
            i <= data@.len(),
            unique_keys(data@),
            forall|j: int| 0 <= j < i ==> data@[j].0 != key,
        decreases data@.len() - i,
    {
        if data[i].0 == key {
            proof {
                lemma_entries_map_found(data@, i as int);
            }
            return Some(data[i].1);
        }
        i += 1;
    }
    proof {
        lemma_entries_map_absent(data@, key);
    }
    None
}

/// Identifier to last viewed (chapter, image) pair.  A caller that shares
/// a tracker across threads guards it with a lock.
pub struct Tracker {
    data: Vec<(usize, (usize, usize))>,
}

impl Tracker {
    /// The stored pairs, in insertion order.
    pub closed spec fn entries(self) -> Seq<(usize, (usize, usize))> {
        self.data@
    }

    /// The stored pairs as a map.
    pub closed spec fn progress_map(self) -> Map<usize, (usize, usize)> {
        entries_map(self.data@)
    }

    pub closed spec fn wf(self) -> bool {
        unique_keys(self.data@)
    }

    /// Reads a tracker from the bytes of its persisted form.  Succeeds
    /// exactly on inputs of that form and returns their pairs.
    pub fn new_from_reader(bytes: &[u8]) -> (r: Result<Tracker, TrackerReadError>)
        ensures
            match r {
                Ok(t) => {
                    &&& parse_tracker(bytes@) == Some(t.entries())
                    &&& t.wf()
                    &&& unique_keys(t.entries())
                    &&& t.progress_map() == entries_map(t.entries())
                },
                Err(e) => parse_tracker(bytes@) is None && e == TrackerReadError::DecodeError,
            },
    {
        match parse_progress(bytes) {
            Some(data) => {
                proof {
                    lemma_parse_tracker_unique(bytes@);
                }
                Ok(Tracker { data })
            },
            None => Err(TrackerReadError::DecodeError),
        }
    }

    /// The last viewed pair for a record: its stored entry, or the default
    /// (0, 0) when none was ever set.  Never fails.
    pub fn get_progress(&self, comic: &Comic) -> (r: (usize, usize))
        requires
            self.wf(),
        ensures
            r == progress_of(self.progress_map(), *comic),
    {
        match lookup(&self.data, comic.id) {
            Some(v) => v,
            None => (0, 0),
        }
    }

    /// Stores the pair for an identifier, overwriting any earlier one.
    pub fn set_progress(&mut self, comic_id: usize, chapter_id: usize, image_id: usize)
        requires
            old(self).wf(),
        ensures
            final(self).wf(),
            unique_keys(final(self).entries()),
            final(self).entries() == insert_entry(
                old(self).entries(),
                comic_id,
                (chapter_id, image_id),
            ),
            final(self).progress_map() == old(self).progress_map().insert(
                comic_id,
                (chapter_id, image_id),
            ),
            final(self).progress_map() == entries_map(final(self).entries()),
    {
        proof {
            lemma_insert_entry_unique(self.data@, comic_id, (chapter_id, image_id));
            lemma_insert_entry_map(self.data@, comic_id, (chapter_id, image_id));
        }
        insert_entry_exec(&mut self.data, comic_id, (chapter_id, image_id));
    }

    /// The identifiers that have a stored pair, in insertion order.
    pub fn list_comic_with_progress(&self) -> (r: Vec<usize>)
        ensures
            r@ == self.entries().map_values(|e: (usize, (usize, usize))| e.0),
    {
        let mut out: Vec<usize> = Vec::new();
        let mut i: usize = 0;
        while i < self.data.len()
            invariant
                i <= self.data@.len(),
                out@ == self.data@.take(i as int).map_values(|e: (usize, (usize, usize))| e.0),
            decreases self.data@.len() - i,
        {
            out.push(self.data[i].0);
            proof {
                assert(out@ =~= self.data@.take(i + 1).map_values(
                    |e: (usize, (usize, usize))| e.0,
                ));
            }
            i += 1;
        }
        proof {
            assert(self.data@.take(self.data@.len() as int) =~= self.data@);
        }
        out
    }

    /// Renders the whole tracker in its persisted form; the caller writes
    /// the bytes out, replacing any earlier file.
    pub fn save(&self) -> (r: Vec<u8>)
        ensures
            r@ == render_tracker(self.entries()),
    {
        render_progress(&self.data)
    }
}

impl Default for Tracker {
    /// A tracker with no stored pairs.
    fn default() -> (r: Self)
        ensures
            r.wf(),
            unique_keys(r.entries()),
            r.entries() == Seq::<(usize, (usize, usize))>::empty(),
            r.progress_map() == Map::<usize, (usize, usize)>::empty(),
    {
        Tracker { data: Vec::new() }
    }
}

} // verus!
