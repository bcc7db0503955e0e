//! The tag index: category name to tag name to the identifiers that
//! declared the tag, in registration order.
//!
//! The index is an association list of categories, each holding an
//! association list of tags.  Both levels keep their keys unique, so the
//! index denotes a two-level map; lists grow by appending, which preserves
//! the order in which identifiers were registered.

use vstd::prelude::*;

use crate::text::str_eq;

verus! {

// ---------------------------------------------------------------------------
// Views of the association lists
// ---------------------------------------------------------------------------

pub open spec fn tags_view(tags: Seq<(String, Vec<usize>)>) -> Map<Seq<char>, Seq<usize>>
    decreases tags.len(),
{
    if tags.len() == 0 {
        Map::empty()
    } else {
        tags_view(tags.drop_last()).insert(tags.last().0@, tags.last().1@)
    }
}

pub open spec fn cats_view(cats: Seq<(String, Vec<(String, Vec<usize>)>)>) -> Map<
    Seq<char>,
    Map<Seq<char>, Seq<usize>>,
>
    decreases cats.len(),
{
    if cats.len() == 0 {
        Map::empty()
    } else {
        cats_view(cats.drop_last()).insert(cats.last().0@, tags_view(cats.last().1@))
    }
}

pub open spec fn tag_keys_unique(tags: Seq<(String, Vec<usize>)>) -> bool {
    forall|i: int, j: int| 0 <= i < j < tags.len() ==> tags[i].0@ != tags[j].0@
}

pub open spec fn cat_keys_unique(cats: Seq<(String, Vec<(String, Vec<usize>)>)>) -> bool {
    (forall|i: int, j: int| 0 <= i < j < cats.len() ==> cats[i].0@ != cats[j].0@)
        && (forall|i: int| 0 <= i < cats.len() ==> tag_keys_unique(#[trigger] cats[i].1@))
}

/// Appends an identifier to the list at (category, tag), creating the
/// category and the tag as needed.
pub open spec fn tag_lists_add(
    kw: Map<Seq<char>, Map<Seq<char>, Seq<usize>>>,
    cat: Seq<char>,
    tag: Seq<char>,
    id: usize,
) -> Map<Seq<char>, Map<Seq<char>, Seq<usize>>> {
    let inner = if kw.contains_key(cat) {
        kw[cat]
    } else {
        Map::<Seq<char>, Seq<usize>>::empty()
    };
    let lst = if inner.contains_key(tag) {
        inner[tag]
    } else {
        Seq::<usize>::empty()
    };
    kw.insert(cat, inner.insert(tag, lst.push(id)))
}

/// Creates an empty category when it is absent.
pub open spec fn with_category(
    kw: Map<Seq<char>, Map<Seq<char>, Seq<usize>>>,
    cat: Seq<char>,
) -> Map<Seq<char>, Map<Seq<char>, Seq<usize>>> {
    if kw.contains_key(cat) {
        kw
    } else {
        kw.insert(cat, Map::empty())
    }
}

// ---------------------------------------------------------------------------
// Lemmas relating the lists to their map views
// ---------------------------------------------------------------------------

proof fn lemma_tags_view_found(tags: Seq<(String, Vec<usize>)>, i: int)
    requires
        tag_keys_unique(tags),
        0 <= i < tags.len(),
    ensures
        tags_view(tags).contains_key(tags[i].0@),
        tags_view(tags)[tags[i].0@] == tags[i].1@,
    decreases tags.len(),
{
    if i < tags.len() - 1 {
        assert(tag_keys_unique(tags.drop_last()));
        lemma_tags_view_found(tags.drop_last(), i);
    }
}

proof fn lemma_tags_view_absent(tags: Seq<(String, Vec<usize>)>, key: Seq<char>)
    requires
        forall|i: int| 0 <= i < tags.len() ==> tags[i].0@ != key,
    ensures
        !tags_view(tags).contains_key(key),
    decreases tags.len(),
{
    if tags.len() > 0 {
        lemma_tags_view_absent(tags.drop_last(), key);
    }
}

proof fn lemma_tags_view_update(tags: Seq<(String, Vec<usize>)>, i: int, p: (String, Vec<usize>))
    requires
        tag_keys_unique(tags),
        0 <= i < tags.len(),
        p.0@ == tags[i].0@,
    ensures
        tags_view(tags.update(i, p)) == tags_view(tags).insert(p.0@, p.1@),
    decreases tags.len(),
{
    if i == tags.len() - 1 {
        assert(tags.update(i, p).drop_last() =~= tags.drop_last());
        assert(tags.update(i, p).last() == p);
        assert(tags_view(tags.drop_last()).insert(tags[i].0@, tags[i].1@).insert(p.0@, p.1@)
            =~= tags_view(tags.drop_last()).insert(p.0@, p.1@));
    } else {
        assert(tag_keys_unique(tags.drop_last()));
        lemma_tags_view_update(tags.drop_last(), i, p);
        assert(tags.update(i, p).drop_last() =~= tags.drop_last().update(i, p));
        assert(tags.update(i, p).last() == tags.last());
        assert(tags.last().0@ != p.0@);
        assert(tags_view(tags.drop_last()).insert(p.0@, p.1@).insert(
            tags.last().0@,
            tags.last().1@,
        ) =~= tags_view(tags.drop_last()).insert(tags.last().0@, tags.last().1@).insert(
            p.0@,
            p.1@,
        ));
    }
}

proof fn lemma_cats_view_found(cats: Seq<(String, Vec<(String, Vec<usize>)>)>, i: int)
    requires
        cat_keys_unique(cats),
        0 <= i < cats.len(),
    ensures
        cats_view(cats).contains_key(cats[i].0@),
        cats_view(cats)[cats[i].0@] == tags_view(cats[i].1@),
    decreases cats.len(),
{
    if i < cats.len() - 1 {
        assert(cat_keys_unique(cats.drop_last()));
        lemma_cats_view_found(cats.drop_last(), i);
    }
}

proof fn lemma_cats_view_absent(cats: Seq<(String, Vec<(String, Vec<usize>)>)>, key: Seq<char>)
    requires
        forall|i: int| 0 <= i < cats.len() ==> cats[i].0@ != key,
    ensures
        !cats_view(cats).contains_key(key),
    decreases cats.len(),
{
    if cats.len() > 0 {
        lemma_cats_view_absent(cats.drop_last(), key);
    }
}

proof fn lemma_cats_view_update(
    cats: Seq<(String, Vec<(String, Vec<usize>)>)>,
    i: int,
    p: (String, Vec<(String, Vec<usize>)>),
)
    requires
        cat_keys_unique(cats),
        0 <= i < cats.len(),
        p.0@ == cats[i].0@,
    ensures
        cats_view(cats.update(i, p)) == cats_view(cats).insert(p.0@, tags_view(p.1@)),
    decreases cats.len(),
{
    if i == cats.len() - 1 {
        assert(cats.update(i, p).drop_last() =~= cats.drop_last());
        assert(cats.update(i, p).last() == p);
        assert(cats_view(cats.drop_last()).insert(cats[i].0@, tags_view(cats[i].1@)).insert(
            p.0@,
            tags_view(p.1@),
        ) =~= cats_view(cats.drop_last()).insert(p.0@, tags_view(p.1@)));
    } else {
        assert(cat_keys_unique(cats.drop_last()));
        lemma_cats_view_update(cats.drop_last(), i, p);
        assert(cats.update(i, p).drop_last() =~= cats.drop_last().update(i, p));
        assert(cats.update(i, p).last() == cats.last());
        assert(cats.last().0@ != p.0@);
        assert(cats_view(cats.drop_last()).insert(p.0@, tags_view(p.1@)).insert(
            cats.last().0@,
            tags_view(cats.last().1@),
        ) =~= cats_view(cats.drop_last()).insert(cats.last().0@, tags_view(cats.last().1@)).insert(
            p.0@,
            tags_view(p.1@),
        ));
    }
}

// ---------------------------------------------------------------------------
// The index
// ---------------------------------------------------------------------------

fn find_category(
    cats: &Vec<(String, Vec<(String, Vec<usize>)>)>,
    category: &str,
) -> (r: Option<usize>)
    ensures
        match r {
            Some(i) => i < cats@.len() && cats@[i as int].0@ == category@,
            None => forall|i: int| 0 <= i < cats@.len() ==> cats@[i].0@ != category@,
        },
{
    let mut i: usize = 0;
    while i < cats.len()
        invariant
            i <= cats@.len(),
            forall|j: int| 0 <= j < i ==> cats@[j].0@ != category@,
        decreases cats@.len() - i,
    {
        if str_eq(cats[i].0.as_str(), category) {
            return Some(i);
        }
        i += 1;
    }
    None
}

fn find_tag(tags: &Vec<(String, Vec<usize>)>, tag: &str) -> (r: Option<usize>)
    ensures
        match r {
            Some(i) => i < tags@.len() && tags@[i as int].0@ == tag@,
            None => forall|i: int| 0 <= i < tags@.len() ==> tags@[i].0@ != tag@,
        },
{
    let mut i: usize = 0;
    while i < tags.len()
        invariant
            i <= tags@.len(),
            forall|j: int| 0 <= j < i ==> tags@[j].0@ != tag@,
        decreases tags@.len() - i,
    {
        if str_eq(tags[i].0.as_str(), tag) {
            return Some(i);
        }
        i += 1;
    }
    None
}

/// Category name to tag name to the identifiers that declared the tag.
pub struct KeywordIndex {
    categories: Vec<(String, Vec<(String, Vec<usize>)>)>,
}

impl KeywordIndex {
    /// The two-level map the index denotes.
    pub closed spec fn tag_map(self) -> Map<Seq<char>, Map<Seq<char>, Seq<usize>>> {
        cats_view(self.categories@)
    }

    pub closed spec fn wf(self) -> bool {
        cat_keys_unique(self.categories@)
    }

    pub fn new() -> (r: KeywordIndex)
        ensures
            r.wf(),
            r.tag_map() == Map::<Seq<char>, Map<Seq<char>, Seq<usize>>>::empty(),
    {
        KeywordIndex { categories: Vec::new() }
    }

    /// The identifiers registered under (category, tag), if any.
    pub fn lookup(&self, category: &str, tag: &str) -> (r: Option<&Vec<usize>>)
        requires
            self.wf(),
        ensures
            match r {
                Some(v) => self.tag_map().contains_key(category@) && self.tag_map()[category@]
                    .contains_key(tag@) && v@ == self.tag_map()[category@][tag@],
                None => !self.tag_map().contains_key(category@) || !self.tag_map()[category@]
                    .contains_key(tag@),
            },
    {
        match find_category(&self.categories, category) {
            Some(ci) => {
                proof {
                    lemma_cats_view_found(self.categories@, ci as int);
                }
                match find_tag(&self.categories[ci].1, tag) {
                    Some(ti) => {
                        proof {
                            lemma_tags_view_found(self.categories@[ci as int].1@, ti as int);
                        }
                        Some(&self.categories[ci].1[ti].1)
                    },
                    None => {
                        proof {
                            lemma_tags_view_absent(self.categories@[ci as int].1@, tag@);
                        }
                        None
                    },
                }
            },
            None => {
                proof {
                    lemma_cats_view_absent(self.categories@, category@);
                }
                None
            },
        }
    }

    /// Whether the index knows the category at all.
    pub fn has_category(&self, category: &str) -> (r: bool)
        requires
            self.wf(),
        ensures
            r == self.tag_map().contains_key(category@),
    {
        match find_category(&self.categories, category) {
            Some(ci) => {
                proof {
                    lemma_cats_view_found(self.categories@, ci as int);
                }
                true
            },
            None => {
                proof {
                    lemma_cats_view_absent(self.categories@, category@);
                }
                false
            },
        }
    }

    /// The categories with their tag lists, in insertion order.
    pub fn entries(&self) -> (r: &Vec<(String, Vec<(String, Vec<usize>)>)>)
        ensures
            cats_view(r@) == self.tag_map(),
            self.wf() ==> cat_keys_unique(r@),
    {
        &self.categories
    }

    /// Appends `id` to the list at (category, tag), creating the category
    /// and the tag entry when absent.
    pub fn add_tag(&mut self, category: &str, tag: &str, id: usize)
        requires
            old(self).wf(),
        ensures
            final(self).wf(),
            final(self).tag_map() == tag_lists_add(old(self).tag_map(), category@, tag@, id),
    {
        let ghost cats0 = self.categories@;
        match find_category(&self.categories, category) {
            Some(ci) => {
                proof {
                    lemma_cats_view_found(cats0, ci as int);
                }
                let mut entry = self.categories.remove(ci);
                let ghost tags0 = entry.1@;
                match find_tag(&entry.1, tag) {
                    Some(ti) => {
                        proof {
                            lemma_tags_view_found(tags0, ti as int);
                        }
                        let mut tv = entry.1.remove(ti);
                        tv.1.push(id);
                        proof {
                            assert(tags0.remove(ti as int).insert(ti as int, tv) =~= tags0.update(
                                ti as int,
                                tv,
                            ));
                            lemma_tags_view_update(tags0, ti as int, tv);
                        }
                        entry.1.insert(ti, tv);
                    },
                    None => {
                        proof {
                            lemma_tags_view_absent(tags0, tag@);
                        }
                        let mut ids: Vec<usize> = Vec::new();
                        ids.push(id);
                        entry.1.push((tag.to_owned(), ids));
                        proof {
                            assert(entry.1@.drop_last() =~= tags0);
                            assert(Seq::<usize>::empty().push(id) =~= entry.1@.last().1@);
                        }
                    },
                }
                proof {
                    assert(tags_view(entry.1@) == tags_view(cats0[ci as int].1@).insert(
                        tag@,
                        if tags_view(cats0[ci as int].1@).contains_key(tag@) {
                            tags_view(cats0[ci as int].1@)[tag@]
                        } else {
                            Seq::<usize>::empty()
                        }.push(id),
                    ));
                    assert(cats0.remove(ci as int).insert(ci as int, entry) =~= cats0.update(
                        ci as int,
                        entry,
                    ));
                    lemma_cats_view_update(cats0, ci as int, entry);
                }
                self.categories.insert(ci, entry);
            },
            None => {
                proof {
                    lemma_cats_view_absent(cats0, category@);
                }
                let mut ids: Vec<usize> = Vec::new();
                ids.push(id);
                let mut tags: Vec<(String, Vec<usize>)> = Vec::new();
                tags.push((tag.to_owned(), ids));
                proof {
                    reveal_with_fuel(tags_view, 2);
                    assert(tags@.drop_last() =~= Seq::<(String, Vec<usize>)>::empty());
                    assert(Seq::<usize>::empty().push(id) =~= tags@.last().1@);
                    assert(tags_view(tags@) =~= Map::<Seq<char>, Seq<usize>>::empty().insert(
                        tag@,
                        Seq::<usize>::empty().push(id),
                    ));
                }
                self.categories.push((category.to_owned(), tags));
                proof {
                    assert(self.categories@.drop_last() =~= cats0);
                }
            },
        }
    }

    /// Creates the category with no tags when it is absent.
    pub fn ensure_category(&mut self, category: &str)
        requires
            old(self).wf(),
        ensures
            final(self).wf(),
            final(self).tag_map() == with_category(old(self).tag_map(), category@),
    {
        let ghost cats0 = self.categories@;
        match find_category(&self.categories, category) {
            Some(ci) => {
                proof {
                    lemma_cats_view_found(cats0, ci as int);
                }
            },
            None => {
                proof {
                    lemma_cats_view_absent(cats0, category@);
                }
                let tags: Vec<(String, Vec<usize>)> = Vec::new();
                self.categories.push((category.to_owned(), tags));
                proof {
                    assert(self.categories@.drop_last() =~= cats0);
                    assert(tags_view(self.categories@.last().1@)
                        =~= Map::<Seq<char>, Seq<usize>>::empty());
                }
            },
        }
    }
}

} // verus!
