//! The record store: comics keyed by identifier, the tag index fed while
//! records are registered, and the per-comic navigation cache.
//!
//! Loading is all-or-nothing: the caller walks the collection root and
//! reports one outcome per subdirectory; a single bad outcome fails the
//! whole load and leaves the database untouched.  Navigation is resolved
//! from a directory listing and memoized: once an identifier's matrix is
//! cached, later resolutions return the cached matrix and ignore the
//! listing they are handed.

use vstd::prelude::*;

use crate::keywords::{tag_lists_add, with_category, KeywordIndex};
use crate::navigation::{
    first_fault_index, names_view, matrix_view, scan_all_ok, scan_comic_directory,
    scan_error_matches, scan_names, GetComicNavigationError,
};
use crate::storage::{
    comic_map_of, comic_store_get, comic_store_insert, comic_store_new, nav_cache_get,
    nav_cache_insert, nav_cache_new, nav_map_of,
};

verus! {

/// One catalogued record: its identifier, display strings, tags grouped by
/// category, related records as (label, identifier) pairs, and whether the
/// record counts as present.
#[derive(Debug, Clone)]
pub struct Comic {
    pub id: usize,
    pub comic_name: Option<String>,
    pub description: Option<String>,
    pub keywords: Vec<(String, Vec<String>)>,
    pub translations: Vec<(String, usize)>,
    pub found: bool,
}

/// Failure of a whole-collection load.  Every variant carries the path it
/// complains about.
#[derive(Debug, PartialEq)]
pub enum ComicDatabaseLoadError {
    CantReadDirectory(String),
    CantReadDirEntry(String),
    CantOpenFile(String),
    CantDeserializeComic(String),
}

/// What the caller found in one subdirectory of the collection root.
pub enum LoadEntry {
    /// The metadata file was present and parsed into a record.
    Record { directory: String, comic: Comic },
    /// The subdirectory has no metadata file and is skipped silently.
    NoMetadata,
    /// The directory entry itself could not be read.
    Unreadable,
    /// The metadata file exists but could not be opened.
    Unopenable { path: String },
    /// The metadata file could not be deserialized.
    Malformed { path: String },
}

/// A walk of the collection root, as the caller reports it.
pub enum DirectoryScan {
    /// The root directory could not be listed at all.
    Unlistable { directory: String },
    /// The root was listed; one outcome per subdirectory, in listing order.
    Listed { directory: String, entries: Vec<LoadEntry> },
}

// ---------------------------------------------------------------------------
// The tag fold a registered comic performs
// ---------------------------------------------------------------------------

/// Appends `id` under (cat, t) for every tag t of one category list.
pub open spec fn add_tag_list(
    kw: Map<Seq<char>, Map<Seq<char>, Seq<usize>>>,
    cat: Seq<char>,
    tags: Seq<String>,
    id: usize,
) -> Map<Seq<char>, Map<Seq<char>, Seq<usize>>>
    decreases tags.len(),
{
    if tags.len() == 0 {
        kw
    } else {
        tag_lists_add(add_tag_list(kw, cat, tags.drop_last(), id), cat, tags.last()@, id)
    }
}

/// Appends `id` under every (category, tag) pair a record declares.
pub open spec fn add_keyword_pairs(
    kw: Map<Seq<char>, Map<Seq<char>, Seq<usize>>>,
    pairs: Seq<(String, Vec<String>)>,
    id: usize,
) -> Map<Seq<char>, Map<Seq<char>, Seq<usize>>>
    decreases pairs.len(),
{
    if pairs.len() == 0 {
        kw
    } else {
        add_tag_list(
            add_keyword_pairs(kw, pairs.drop_last(), id),
            pairs.last().0@,
            pairs.last().1@,
            id,
        )
    }
}

/// Appends `id` under ("translation", label) for every related record whose
/// target identifier is the record's own.
pub open spec fn add_translations(
    kw: Map<Seq<char>, Map<Seq<char>, Seq<usize>>>,
    translations: Seq<(String, usize)>,
    id: usize,
) -> Map<Seq<char>, Map<Seq<char>, Seq<usize>>>
    decreases translations.len(),
{
    if translations.len() == 0 {
        kw
    } else {
        let prev = add_translations(kw, translations.drop_last(), id);
        if translations.last().1 == id {
            tag_lists_add(prev, "translation"@, translations.last().0@, id)
        } else {
            prev
        }
    }
}

/// The whole effect of registering one record on the tag index.
pub open spec fn apply_comic_tags(
    kw: Map<Seq<char>, Map<Seq<char>, Seq<usize>>>,
    comic: Comic,
) -> Map<Seq<char>, Map<Seq<char>, Seq<usize>>> {
    add_translations(
        with_category(add_keyword_pairs(kw, comic.keywords@, comic.id), "translation"@),
        comic.translations@,
        comic.id,
    )
}

// ---------------------------------------------------------------------------
// The effect of a load
// ---------------------------------------------------------------------------

/// The (directory, record) pairs that a listing registers: the parsed
/// records whose found flag is set, in listing order.
pub open spec fn registered(entries: Seq<LoadEntry>) -> Seq<(String, Comic)>
    decreases entries.len(),
{
    if entries.len() == 0 {
        Seq::empty()
    } else {
        let prev = registered(entries.drop_last());
        match entries.last() {
            LoadEntry::Record { directory, comic } => if comic.found {
                prev.push((directory, comic))
            } else {
                prev
            },
            _ => prev,
        }
    }
}

pub open spec fn store_after(
    m: Map<int, (String, Comic)>,
    items: Seq<(String, Comic)>,
) -> Map<int, (String, Comic)>
    decreases items.len(),
{
    if items.len() == 0 {
        m
    } else {
        store_after(m, items.drop_last()).insert(items.last().1.id as int, items.last())
    }
}

pub open spec fn tags_after(
    kw: Map<Seq<char>, Map<Seq<char>, Seq<usize>>>,
    items: Seq<(String, Comic)>,
) -> Map<Seq<char>, Map<Seq<char>, Seq<usize>>>
    decreases items.len(),
{
    if items.len() == 0 {
        kw
    } else {
        apply_comic_tags(tags_after(kw, items.drop_last()), items.last().1)
    }
}

/// An outcome that aborts the whole load.
pub open spec fn entry_blocks(e: LoadEntry) -> bool {
    match e {
        LoadEntry::Unreadable => true,
        LoadEntry::Unopenable { .. } => true,
        LoadEntry::Malformed { .. } => true,
        _ => false,
    }
}

pub open spec fn load_ok(entries: Seq<LoadEntry>) -> bool {
    forall|i: int| 0 <= i < entries.len() ==> !entry_blocks(#[trigger] entries[i])
}

pub open spec fn first_block_index(entries: Seq<LoadEntry>) -> int
    decreases entries.len(),
{
    if entries.len() == 0 {
        0
    } else if entry_blocks(entries[0]) {
        0
    } else {
        1 + first_block_index(entries.drop_first())
    }
}

proof fn lemma_first_block_at(entries: Seq<LoadEntry>, i: int)
    requires
        0 <= i < entries.len(),
        forall|j: int| 0 <= j < i ==> !entry_blocks(#[trigger] entries[j]),
        entry_blocks(entries[i]),
    ensures
        first_block_index(entries) == i,
    decreases i,
{
    if i > 0 {
        assert(forall|j: int| 0 <= j < i - 1 ==> entries.drop_first()[j] == entries[j + 1]);
        lemma_first_block_at(entries.drop_first(), i - 1);
    }
}

/// Finds the first outcome that aborts a load.
fn first_blocking(entries: &Vec<LoadEntry>) -> (r: Option<usize>)
    ensures
        match r {
            Some(i) => i < entries@.len() && entry_blocks(entries@[i as int])
                && first_block_index(entries@) == i,
            None => load_ok(entries@),
        },
{
    let mut i: usize = 0;
    while i < entries.len()
        invariant
            i <= entries@.len(),
            forall|j: int| 0 <= j < i ==> !entry_blocks(#[trigger] entries@[j]),
        decreases entries@.len() - i,
    {
        match &entries[i] {
            LoadEntry::Unreadable | LoadEntry::Unopenable { .. } | LoadEntry::Malformed {
                ..
            } => {
                proof {
                    lemma_first_block_at(entries@, i as int);
                }
                return Some(i);
            },
            _ => {},
        }
        i += 1;
    }
    None
}

/// Relates a load error to the outcome it reports.
pub open spec fn load_error_matches(
    err: &ComicDatabaseLoadError,
    e: LoadEntry,
    root: Seq<char>,
) -> bool {
    match err {
        ComicDatabaseLoadError::CantReadDirEntry(d) => e is Unreadable && d@ == root,
        ComicDatabaseLoadError::CantOpenFile(p) => e matches LoadEntry::Unopenable { path }
            && p@ == path@,
        ComicDatabaseLoadError::CantDeserializeComic(p) => e matches LoadEntry::Malformed { path }
            && p@ == path@,
        _ => false,
    }
}

/// Identifier bound that keeps the keyed store's growth arithmetic sound.
pub open spec fn load_ids_in_range(scan: DirectoryScan) -> bool {
    match scan {
        DirectoryScan::Listed { entries, .. } => forall|i: int|
            0 <= i < entries@.len() ==> (#[trigger] entries@[i] matches LoadEntry::Record {
                comic,
                ..
            } ==> comic.id < usize::MAX),
        DirectoryScan::Unlistable { .. } => true,
    }
}

// ---------------------------------------------------------------------------
// The tag index law
// ---------------------------------------------------------------------------

pub open spec fn list_declares(tags: Seq<String>, tag: Seq<char>) -> bool {
    exists|j: int| 0 <= j < tags.len() && tags[j]@ == tag
}

/// Whether a record's keyword map holds `tag` under `cat`.
pub open spec fn declares_tag(c: Comic, cat: Seq<char>, tag: Seq<char>) -> bool {
    exists|i: int|
        0 <= i < c.keywords@.len() && c.keywords@[i].0@ == cat && list_declares(
            c.keywords@[i].1@,
            tag,
        )
}

pub open spec fn pairs_declare(pairs: Seq<(String, Vec<String>)>, cat: Seq<char>, tag: Seq<char>) -> bool {
    exists|i: int|
        0 <= i < pairs.len() && pairs[i].0@ == cat && list_declares(pairs[i].1@, tag)
}

pub open spec fn distinct_views(tags: Seq<String>) -> bool {
    forall|p: int, q: int| 0 <= p < q < tags.len() ==> tags[p]@ != tags[q]@
}

/// A record that declares each (category, tag) pair at most once: its
/// category names are pairwise distinct and so are the tags of each list.
pub open spec fn tidy_keywords(c: Comic) -> bool {
    (forall|i: int, j: int|
        0 <= i < j < c.keywords@.len() ==> c.keywords@[i].0@ != c.keywords@[j].0@) && (forall|
        i: int,
    |
        0 <= i < c.keywords@.len() ==> distinct_views(#[trigger] c.keywords@[i].1@))
}

/// The identifier list at (cat, tag); absent entries read as empty.
pub open spec fn tag_list_at(
    kw: Map<Seq<char>, Map<Seq<char>, Seq<usize>>>,
    cat: Seq<char>,
    tag: Seq<char>,
) -> Seq<usize> {
    if kw.contains_key(cat) && kw[cat].contains_key(tag) {
        kw[cat][tag]
    } else {
        Seq::empty()
    }
}

pub open spec fn declares_pred(cat: Seq<char>, tag: Seq<char>) -> spec_fn((String, Comic)) -> bool {
    |it: (String, Comic)| declares_tag(it.1, cat, tag)
}

pub open spec fn registered_id() -> spec_fn((String, Comic)) -> usize {
    |it: (String, Comic)| it.1.id
}

proof fn lemma_tag_lists_add_at(
    kw: Map<Seq<char>, Map<Seq<char>, Seq<usize>>>,
    c0: Seq<char>,
    t0: Seq<char>,
    id: usize,
    cat: Seq<char>,
    tag: Seq<char>,
)
    ensures
        tag_list_at(tag_lists_add(kw, c0, t0, id), cat, tag) == if c0 == cat && t0 == tag {
            tag_list_at(kw, cat, tag).push(id)
        } else {
            tag_list_at(kw, cat, tag)
        },
{
}

proof fn lemma_add_tag_list_at(
    kw: Map<Seq<char>, Map<Seq<char>, Seq<usize>>>,
    c0: Seq<char>,
    tags: Seq<String>,
    id: usize,
    cat: Seq<char>,
    tag: Seq<char>,
)
    requires
        distinct_views(tags),
    ensures
        tag_list_at(add_tag_list(kw, c0, tags, id), cat, tag) == if c0 == cat && list_declares(
            tags,
            tag,
        ) {
            tag_list_at(kw, cat, tag).push(id)
        } else {
            tag_list_at(kw, cat, tag)
        },
    decreases tags.len(),
{
    if tags.len() > 0 {
        assert(distinct_views(tags.drop_last()));
        lemma_add_tag_list_at(kw, c0, tags.drop_last(), id, cat, tag);
        lemma_tag_lists_add_at(
            add_tag_list(kw, c0, tags.drop_last(), id),
            c0,
            tags.last()@,
            id,
            cat,
            tag,
        );
        if c0 == cat {
            if tags.last()@ == tag {
                assert(!list_declares(tags.drop_last(), tag)) by {
                    if list_declares(tags.drop_last(), tag) {
                        let j = choose|j: int|
                            0 <= j < tags.drop_last().len() && tags.drop_last()[j]@ == tag;
                        assert(tags[j]@ == tags[tags.len() - 1]@);
                    }
                }
                assert(list_declares(tags, tag));
            } else {
                assert(list_declares(tags, tag) == list_declares(tags.drop_last(), tag)) by {
                    if list_declares(tags, tag) {
                        let j = choose|j: int| 0 <= j < tags.len() && tags[j]@ == tag;
                        assert(j < tags.len() - 1);
                        assert(tags.drop_last()[j]@ == tag);
                    }
                    if list_declares(tags.drop_last(), tag) {
                        let j = choose|j: int|
                            0 <= j < tags.drop_last().len() && tags.drop_last()[j]@ == tag;
                        assert(tags[j]@ == tag);
                    }
                }
            }
        }
    }
}

proof fn lemma_add_keyword_pairs_at(
    kw: Map<Seq<char>, Map<Seq<char>, Seq<usize>>>,
    pairs: Seq<(String, Vec<String>)>,
    id: usize,
    cat: Seq<char>,
    tag: Seq<char>,
)
    requires
        forall|i: int, j: int| 0 <= i < j < pairs.len() ==> pairs[i].0@ != pairs[j].0@,
        forall|i: int| 0 <= i < pairs.len() ==> distinct_views(#[trigger] pairs[i].1@),
    ensures
        tag_list_at(add_keyword_pairs(kw, pairs, id), cat, tag) == if pairs_declare(
            pairs,
            cat,
            tag,
        ) {
            tag_list_at(kw, cat, tag).push(id)
        } else {
            tag_list_at(kw, cat, tag)
        },
    decreases pairs.len(),
{
    if pairs.len() > 0 {
        let pp = pairs.drop_last();
        let pr = pairs.last();
        assert(forall|i: int, j: int| 0 <= i < j < pp.len() ==> pp[i].0@ != pp[j].0@);
        assert(forall|i: int| 0 <= i < pp.len() ==> distinct_views(#[trigger] pp[i].1@));
        lemma_add_keyword_pairs_at(kw, pp, id, cat, tag);
        lemma_add_tag_list_at(add_keyword_pairs(kw, pp, id), pr.0@, pr.1@, id, cat, tag);
        if pr.0@ == cat && list_declares(pr.1@, tag) {
            assert(!pairs_declare(pp, cat, tag)) by {
                if pairs_declare(pp, cat, tag) {
                    let i = choose|i: int|
                        0 <= i < pp.len() && pp[i].0@ == cat && list_declares(pp[i].1@, tag);
                    assert(pairs[i].0@ == pairs[pairs.len() - 1].0@);
                }
            }
            assert(pairs_declare(pairs, cat, tag));
        } else {
            assert(pairs_declare(pairs, cat, tag) == pairs_declare(pp, cat, tag)) by {
                if pairs_declare(pairs, cat, tag) {
                    let i = choose|i: int|
                        0 <= i < pairs.len() && pairs[i].0@ == cat && list_declares(
                            pairs[i].1@,
                            tag,
                        );
                    assert(i < pairs.len() - 1);
                    assert(pp[i].0@ == cat && list_declares(pp[i].1@, tag));
                }
                if pairs_declare(pp, cat, tag) {
                    let i = choose|i: int|
                        0 <= i < pp.len() && pp[i].0@ == cat && list_declares(pp[i].1@, tag);
                    assert(pairs[i].0@ == cat && list_declares(pairs[i].1@, tag));
                }
            }
        }
    }
}

proof fn lemma_with_category_at(
    kw: Map<Seq<char>, Map<Seq<char>, Seq<usize>>>,
    c0: Seq<char>,
    cat: Seq<char>,
    tag: Seq<char>,
)
    ensures
        tag_list_at(with_category(kw, c0), cat, tag) == tag_list_at(kw, cat, tag),
{
}

proof fn lemma_add_translations_at(
    kw: Map<Seq<char>, Map<Seq<char>, Seq<usize>>>,
    ts: Seq<(String, usize)>,
    id: usize,
    cat: Seq<char>,
    tag: Seq<char>,
)
    requires
        cat != "translation"@,
    ensures
        tag_list_at(add_translations(kw, ts, id), cat, tag) == tag_list_at(kw, cat, tag),
    decreases ts.len(),
{
    if ts.len() > 0 {
        lemma_add_translations_at(kw, ts.drop_last(), id, cat, tag);
        if ts.last().1 == id {
            lemma_tag_lists_add_at(
                add_translations(kw, ts.drop_last(), id),
                "translation"@,
                ts.last().0@,
                id,
                cat,
                tag,
            );
        }
    }
}

proof fn lemma_apply_comic_tags_at(
    kw: Map<Seq<char>, Map<Seq<char>, Seq<usize>>>,
    c: Comic,
    cat: Seq<char>,
    tag: Seq<char>,
)
    requires
        cat != "translation"@,
        tidy_keywords(c),
    ensures
        tag_list_at(apply_comic_tags(kw, c), cat, tag) == if declares_tag(c, cat, tag) {
            tag_list_at(kw, cat, tag).push(c.id)
        } else {
            tag_list_at(kw, cat, tag)
        },
{
    lemma_add_keyword_pairs_at(kw, c.keywords@, c.id, cat, tag);
    lemma_with_category_at(add_keyword_pairs(kw, c.keywords@, c.id), "translation"@, cat, tag);
    lemma_add_translations_at(
        with_category(add_keyword_pairs(kw, c.keywords@, c.id), "translation"@),
        c.translations@,
        c.id,
        cat,
        tag,
    );
    assert(declares_tag(c, cat, tag) == pairs_declare(c.keywords@, cat, tag));
}

/// Tag index law: for a category other than "translation", the list at
/// (category, tag) after registering a run of records is the earlier list
/// followed by the identifiers of exactly those records whose keyword map
/// holds the tag under the category, in registration order.  The records
/// must declare each pair at most once; the "translation" category is also
/// fed by the related-record rule, which this statement leaves out.
pub proof fn lemma_tag_index_lists(
    kw: Map<Seq<char>, Map<Seq<char>, Seq<usize>>>,
    items: Seq<(String, Comic)>,
    cat: Seq<char>,
    tag: Seq<char>,
)
    requires
        cat != "translation"@,
        forall|k: int| 0 <= k < items.len() ==> tidy_keywords(#[trigger] items[k].1),
    ensures
        tag_list_at(tags_after(kw, items), cat, tag) == tag_list_at(kw, cat, tag) + items.filter(
            declares_pred(cat, tag),
        ).map_values(registered_id()),
    decreases items.len(),
{
    reveal(Seq::filter);
    if items.len() == 0 {
        assert(items.filter(declares_pred(cat, tag)).map_values(registered_id()) =~= Seq::<
            usize,
        >::empty());
        assert(tag_list_at(kw, cat, tag) + Seq::<usize>::empty() =~= tag_list_at(kw, cat, tag));
    } else {
        let prev = items.drop_last();
        let it = items.last();
        assert(forall|k: int| 0 <= k < prev.len() ==> tidy_keywords(#[trigger] prev[k].1));
        lemma_tag_index_lists(kw, prev, cat, tag);
        lemma_apply_comic_tags_at(tags_after(kw, prev), it.1, cat, tag);
        let f = items.filter(declares_pred(cat, tag));
        let fp = prev.filter(declares_pred(cat, tag));
        if declares_pred(cat, tag)(it) {
            assert(f == fp.push(it));
            assert(fp.push(it).map_values(registered_id()) =~= fp.map_values(
                registered_id(),
            ).push(it.1.id));
            assert(tag_list_at(kw, cat, tag) + fp.map_values(registered_id()).push(it.1.id)
                =~= (tag_list_at(kw, cat, tag) + fp.map_values(registered_id())).push(it.1.id));
        } else {
            assert(f == fp);
        }
    }
}

// ---------------------------------------------------------------------------
// The database
// ---------------------------------------------------------------------------

/// The record store, the tag index derived from it, and the navigation
/// cache.  Immutable once loading is done, except for the cache; a caller
/// that shares the database across threads guards it with a lock.
pub struct ComicDatabase {
    comics: vec_map::VecMap<(String, Comic)>,
    keywords: KeywordIndex,
    navigation_cache: vec_map::VecMap<Vec<Vec<Option<String>>>>,
}

impl ComicDatabase {
    /// The stored records: identifier to (source directory, record).
    pub closed spec fn comics_map(self) -> Map<int, (String, Comic)> {
        comic_map_of(self.comics)
    }

    /// The tag index: category to tag to identifiers in registration order.
    pub closed spec fn keyword_map(self) -> Map<Seq<char>, Map<Seq<char>, Seq<usize>>> {
        self.keywords.tag_map()
    }

    /// The memoized navigation matrices.
    pub closed spec fn nav_cache(self) -> Map<int, Vec<Vec<Option<String>>>> {
        nav_map_of(self.navigation_cache)
    }

    pub closed spec fn wf(self) -> bool {
        self.keywords.wf()
    }

    /// Registers one record: folds its tags into the index, makes sure the
    /// "translation" category exists, records the labels of the related
    /// records that point back at this identifier, and stores the record.
    pub fn add_comic(&mut self, path: String, comic: Comic)
        requires
            old(self).wf(),
            comic.id < usize::MAX,
        ensures
            final(self).wf(),
            final(self).comics_map() == old(self).comics_map().insert(
                comic.id as int,
                (path, comic),
            ),
            final(self).keyword_map() == apply_comic_tags(old(self).keyword_map(), comic),
            final(self).nav_cache() == old(self).nav_cache(),
    {
        let ghost kw0 = self.keywords.tag_map();
        let mut ci: usize = 0;
        while ci < comic.keywords.len()
            invariant
                ci <= comic.keywords@.len(),
                self.keywords.wf(),
                self.keywords.tag_map() == add_keyword_pairs(
                    kw0,
                    comic.keywords@.take(ci as int),
                    comic.id,
                ),
                self.comics == old(self).comics,
                self.navigation_cache == old(self).navigation_cache,
            decreases comic.keywords@.len() - ci,
        {
            let ghost kw_cat = self.keywords.tag_map();
            let cat = &comic.keywords[ci];
            let mut ti: usize = 0;
            while ti < cat.1.len()
                invariant
                    ti <= cat.1@.len(),
                    cat == &comic.keywords@[ci as int],
                    self.keywords.wf(),
                    self.keywords.tag_map() == add_tag_list(
                        kw_cat,
                        cat.0@,
                        cat.1@.take(ti as int),
                        comic.id,
                    ),
                    self.comics == old(self).comics,
                    self.navigation_cache == old(self).navigation_cache,
                decreases cat.1@.len() - ti,
            {
                self.keywords.add_tag(cat.0.as_str(), cat.1[ti].as_str(), comic.id);
                proof {
                    assert(cat.1@.take(ti + 1).drop_last() =~= cat.1@.take(ti as int));
                    assert(cat.1@.take(ti + 1).last() == cat.1@[ti as int]);
                }
                ti += 1;
            }
            proof {
                assert(cat.1@.take(cat.1@.len() as int) =~= cat.1@);
                assert(comic.keywords@.take(ci + 1).drop_last() =~= comic.keywords@.take(
                    ci as int,
                ));
                assert(comic.keywords@.take(ci + 1).last() == comic.keywords@[ci as int]);
            }
            ci += 1;
        }
        proof {
            assert(comic.keywords@.take(comic.keywords@.len() as int) =~= comic.keywords@);
        }
        self.keywords.ensure_category("translation");
        let ghost kw1 = self.keywords.tag_map();
        let mut tj: usize = 0;
        while tj < comic.translations.len()
            invariant
                tj <= comic.translations@.len(),
                self.keywords.wf(),
                self.keywords.tag_map() == add_translations(
                    kw1,
                    comic.translations@.take(tj as int),
                    comic.id,
                ),
                self.comics == old(self).comics,
                self.navigation_cache == old(self).navigation_cache,
            decreases comic.translations@.len() - tj,
        {
            let t = &comic.translations[tj];
            if t.1 == comic.id {
                self.keywords.add_tag("translation", t.0.as_str(), comic.id);
            }
            proof {
                assert(comic.translations@.take(tj + 1).drop_last() =~= comic.translations@.take(
                    tj as int,
                ));
                assert(comic.translations@.take(tj + 1).last() == comic.translations@[tj as int]);
            }
            tj += 1;
        }
        proof {
            assert(comic.translations@.take(comic.translations@.len() as int)
                =~= comic.translations@);
        }
        comic_store_insert(&mut self.comics, comic.id, (path, comic));
    }

    /// Loads a whole collection from the outcomes of walking its root.  The
    /// load is all-or-nothing: the first blocking outcome fails it with the
    /// matching error and the database keeps its previous state; otherwise
    /// every parsed record whose found flag is set is registered, in
    /// listing order.
    pub fn load_from_dir(&mut self, scan: DirectoryScan) -> (r: Result<
        (),
        ComicDatabaseLoadError,
    >)
        requires
            old(self).wf(),
            load_ids_in_range(scan),
        ensures
            final(self).wf(),
            match r {
                Ok(()) => match scan {
                    DirectoryScan::Listed { entries, .. } => {
                        &&& load_ok(entries@)
                        &&& final(self).comics_map() == store_after(
                            old(self).comics_map(),
                            registered(entries@),
                        )
                        &&& final(self).keyword_map() == tags_after(
                            old(self).keyword_map(),
                            registered(entries@),
                        )
                        &&& final(self).nav_cache() == old(self).nav_cache()
                    },
                    DirectoryScan::Unlistable { .. } => false,
                },
                Err(e) => {
                    &&& *final(self) == *old(self)
                    &&& match scan {
                        DirectoryScan::Unlistable { directory } => e matches
                            ComicDatabaseLoadError::CantReadDirectory(d) && d@ == directory@,
                        DirectoryScan::Listed { directory, entries } => {
                            &&& !load_ok(entries@)
                            &&& load_error_matches(
                                &e,
                                entries@[first_block_index(entries@)],
                                directory@,
                            )
                        },
                    }
                },
            },
    {
        match scan {
            DirectoryScan::Unlistable { directory } => {
                Err(ComicDatabaseLoadError::CantReadDirectory(directory))
            },
            DirectoryScan::Listed { directory, mut entries } => {
                let ghost all = entries@;
                let total = entries.len();
                if let Some(i) = first_blocking(&entries) {
                    return match &entries[i] {
                        LoadEntry::Unreadable => Err(ComicDatabaseLoadError::CantReadDirEntry(
                            directory.clone(),
                        )),
                        LoadEntry::Unopenable { path } => Err(ComicDatabaseLoadError::CantOpenFile(
                            path.clone(),
                        )),
                        LoadEntry::Malformed { path } => Err(
                            ComicDatabaseLoadError::CantDeserializeComic(path.clone()),
                        ),
                        _ => {
                            proof {
                                assert(false);
                            }
                            Err(ComicDatabaseLoadError::CantReadDirEntry(directory.clone()))
                        },
                    };
                }
                let ghost store0 = self.comics_map();
                let ghost kw0 = self.keyword_map();
                let mut k: usize = 0;
                while entries.len() > 0
                    invariant
                        all.len() == total <= usize::MAX,
                        k + entries@.len() == all.len(),
                        entries@ =~= all.skip(k as int),
                        forall|j: int| 0 <= j < all.len() ==> !entry_blocks(#[trigger] all[j]),
                        forall|j: int| 0 <= j < all.len() ==> (#[trigger] all[j] matches
                            LoadEntry::Record { comic, .. } ==> comic.id < usize::MAX),
                        self.wf(),
                        self.comics_map() == store_after(store0, registered(all.take(k as int))),
                        self.keyword_map() == tags_after(kw0, registered(all.take(k as int))),
                        self.nav_cache() == old(self).nav_cache(),
                    decreases entries@.len(),
                {
                    proof {
                        assert(k < all.len());
                    }
                    let e = entries.remove(0);
                    proof {
                        assert(e == all[k as int]);
                        assert(all.take(k + 1).drop_last() =~= all.take(k as int));
                        assert(all.take(k + 1).last() == all[k as int]);
                        assert(entries@ =~= all.skip(k + 1));
                    }
                    let ghost reg_before = registered(all.take(k as int));
                    match e {
                        LoadEntry::Record { directory: comic_dir, comic } => {
                            let ghost gpair = (comic_dir, comic);
                            if comic.found {
                                self.add_comic(comic_dir, comic);
                                proof {
                                    let reg_after = registered(all.take(k + 1));
                                    assert(reg_after == reg_before.push(gpair));
                                    assert(reg_before.push(gpair).drop_last() =~= reg_before);
                                    assert(store_after(store0, reg_after) == store_after(
                                        store0,
                                        reg_before,
                                    ).insert(gpair.1.id as int, gpair));
                                    assert(tags_after(kw0, reg_after) == apply_comic_tags(
                                        tags_after(kw0, reg_before),
                                        gpair.1,
                                    ));
                                }
                            } else {
                                proof {
                                    assert(registered(all.take(k + 1)) == reg_before);
                                }
                            }
                        },
                        _ => {
                            proof {
                                assert(registered(all.take(k + 1)) == reg_before);
                            }
                        },
                    }
                    k += 1;
                }
                proof {
                    assert(all.take(all.len() as int) =~= all);
                }
                Ok(())
            },
        }
    }

    /// The record store itself, for read-only iteration.
    pub fn comics(&self) -> (r: &vec_map::VecMap<(String, Comic)>)
        ensures
            comic_map_of(*r) == self.comics_map(),
    {
        &self.comics
    }

    /// The record registered under an identifier, if any.
    pub fn get_comic(&self, id: usize) -> (r: Option<&Comic>)
        ensures
            match r {
                Some(c) => self.comics_map().contains_key(id as int) && *c == self.comics_map()[
                    id as int
                ].1,
                None => !self.comics_map().contains_key(id as int),
            },
    {
        match comic_store_get(&self.comics, id) {
            Some(p) => Some(&p.1),
            None => None,
        }
    }

    /// The directory a record was loaded from, if the record exists.
    pub fn comic_directory(&self, id: usize) -> (r: Option<&String>)
        ensures
            match r {
                Some(d) => self.comics_map().contains_key(id as int) && *d == self.comics_map()[
                    id as int
                ].0,
                None => !self.comics_map().contains_key(id as int),
            },
    {
        match comic_store_get(&self.comics, id) {
            Some(p) => Some(&p.0),
            None => None,
        }
    }

    /// The cached navigation matrix for an identifier, if one is cached.
    /// A caller uses this to skip listing the directory on a cache hit.
    pub fn cached_navigation(&self, id: usize) -> (r: Option<Vec<Vec<Option<String>>>>)
        ensures
            match r {
                Some(m) => self.nav_cache().contains_key(id as int) && m == self.nav_cache()[
                    id as int
                ],
                None => !self.nav_cache().contains_key(id as int),
            },
    {
        nav_cache_get(&self.navigation_cache, id)
    }

    /// The matrix a resolution answers in a given state, at the level of
    /// views: the cached matrix when one is there, else the matrix the scan
    /// of the listing yields, else nothing.
    pub open spec fn nav_answer_view(
        self,
        id: usize,
        names: Seq<Seq<char>>,
    ) -> Option<Seq<Seq<Option<Seq<char>>>>> {
        if self.nav_cache().contains_key(id as int) {
            Some(matrix_view(self.nav_cache()[id as int]@))
        } else if self.comics_map().contains_key(id as int) && scan_all_ok(names) {
            Some(scan_names(self.comics_map()[id as int].0@, names))
        } else {
            None
        }
    }

    /// Resolves the navigation matrix for an identifier from the names of
    /// the files in its directory.  Resolution is memoized and idempotent:
    /// with the identifier already cached, the cached matrix is returned,
    /// the cache is left alone and the listing is ignored, so a second
    /// resolution returns the first one's matrix whatever the listing says.
    pub fn get_comic_navigation(&mut self, id: usize, names: &Vec<String>) -> (r: Result<
        Vec<Vec<Option<String>>>,
        GetComicNavigationError,
    >)
        requires
            id < usize::MAX,
        ensures
            final(self).comics_map() == old(self).comics_map(),
            final(self).keyword_map() == old(self).keyword_map(),
            final(self).wf() == old(self).wf(),
            match r {
                Ok(m) => {
                    &&& old(self).nav_answer_view(id, names_view(names@)) == Some(matrix_view(m@))
                    &&& final(self).nav_cache().contains_key(id as int)
                    &&& final(self).nav_cache()[id as int] == m
                    &&& if old(self).nav_cache().contains_key(id as int) {
                        &&& m == old(self).nav_cache()[id as int]
                        &&& final(self).nav_cache() == old(self).nav_cache()
                    } else {
                        &&& old(self).comics_map().contains_key(id as int)
                        &&& scan_all_ok(names_view(names@))
                        &&& matrix_view(m@) == scan_names(
                            old(self).comics_map()[id as int].0@,
                            names_view(names@),
                        )
                        &&& final(self).nav_cache() == old(self).nav_cache().insert(id as int, m)
                    }
                },
                Err(e) => {
                    &&& final(self).nav_cache() == old(self).nav_cache()
                    &&& !old(self).nav_cache().contains_key(id as int)
                    &&& match e {
                        GetComicNavigationError::ComicDontExist(bad) => bad == id && !old(
                            self,
                        ).comics_map().contains_key(id as int),
                        _ => {
                            &&& old(self).comics_map().contains_key(id as int)
                            &&& !scan_all_ok(names_view(names@))
                            &&& scan_error_matches(
                                &e,
                                old(self).comics_map()[id as int].0@,
                                names_view(names@)[first_fault_index(names_view(names@))],
                            )
                        },
                    }
                },
            },
    {
        if let Some(cached) = nav_cache_get(&self.navigation_cache, id) {
            return Ok(cached);
        }
        let entry = match comic_store_get(&self.comics, id) {
            Some(p) => p,
            None => {
                return Err(GetComicNavigationError::ComicDontExist(id));
            },
        };
        match scan_comic_directory(&entry.0, names) {
            Ok(matrix) => {
                nav_cache_insert(&mut self.navigation_cache, id, &matrix);
                Ok(matrix)
            },
            Err(e) => Err(e),
        }
    }

    /// The tag index.
    pub fn keywords(&self) -> (r: &KeywordIndex)
        ensures
            r.tag_map() == self.keyword_map(),
            self.wf() ==> r.wf(),
    {
        &self.keywords
    }
}

/// Navigation idempotence law: once a resolution has answered with a
/// matrix, every later resolution for the same identifier answers with the
/// same matrix, whatever listing it is handed.  The second premise
/// describes the two states a successful resolution can leave the cache
/// in: the matrix written back, or already cached and left alone.
pub proof fn lemma_navigation_idempotent(
    before: ComicDatabase,
    after: ComicDatabase,
    id: usize,
    names1: Seq<Seq<char>>,
    names2: Seq<Seq<char>>,
    m: Vec<Vec<Option<String>>>,
)
    requires
        before.nav_answer_view(id, names1) == Some(matrix_view(m@)),
        after.nav_cache() == before.nav_cache().insert(id as int, m) || (before.nav_cache()
            .contains_key(id as int) && before.nav_cache()[id as int] == m && after.nav_cache()
            == before.nav_cache()),
    ensures
        after.nav_answer_view(id, names2) == Some(matrix_view(m@)),
{
}

impl Default for ComicDatabase {
    /// An empty database.
    fn default() -> (r: Self)
        ensures
            r.wf(),
            r.comics_map() == Map::<int, (String, Comic)>::empty(),
            r.keyword_map() == Map::<Seq<char>, Map<Seq<char>, Seq<usize>>>::empty(),
            r.nav_cache() == Map::<int, Vec<Vec<Option<String>>>>::empty(),
    {
        ComicDatabase {
            comics: comic_store_new(),
            keywords: KeywordIndex::new(),
            navigation_cache: nav_cache_new(),
        }
    }
}

} // verus!
