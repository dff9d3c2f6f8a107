use vstd::prelude::*;

use crate::snippet::{Snippet, SnippetView};
use crate::text::{contains_text, is_substring};

verus! {

/// Why an operation on the store did not go through.
#[derive(Debug, Clone, Copy, PartialEq, Eq, Structural)]
pub enum StoreError {
    /// The stored records break the store's invariant (two share an id).
    CorruptStore,
    /// No snippet has the requested id.
    NotFound,
    /// There is no snippet to pop.
    EmptyStore,
    /// The largest id in use is the largest `u32`, so no new id is left.
    IdsExhausted,
}

/// The values of a sequence of snippets.
pub open spec fn views(v: Seq<Snippet>) -> Seq<SnippetView> {
    v.map_values(|x: Snippet| x@)
}

/// No two snippets of `s` share an id.
pub open spec fn ids_unique(s: Seq<SnippetView>) -> bool {
    forall|a: int, b: int| 0 <= a < b < s.len() ==> s[a].id != s[b].id
}

/// The largest id in `s`, or 0 when `s` is empty.
pub open spec fn max_id(s: Seq<SnippetView>) -> nat
    decreases s.len(),
{
    if s.len() == 0 {
        0
    } else {
        let m = max_id(s.drop_last());
        if s.last().id as nat > m {
            s.last().id as nat
        } else {
            m
        }
    }
}

/// Some snippet of `s` has id `id`.
pub open spec fn has_id(s: Seq<SnippetView>, id: u32) -> bool {
    exists|i: int| 0 <= i < s.len() && s[i].id == id
}

/// The position of the snippet with id `id` in `s` (meaningful when `has_id(s, id)`).
pub open spec fn index_of(s: Seq<SnippetView>, id: u32) -> int {
    choose|i: int| 0 <= i < s.len() && s[i].id == id
}

/// `s` with the snippet of id `id` taken out, the rest in their order.
pub open spec fn without_id(s: Seq<SnippetView>, id: u32) -> Seq<SnippetView> {
    s.remove(index_of(s, id))
}

/// Whether `v` passes the tag filter: with no filter every snippet passes; with
/// one, a snippet passes when at least one of its tags contains the filter text.
pub open spec fn selected(v: SnippetView, filter: Option<Seq<char>>) -> bool {
    match filter {
        None => true,
        Some(p) => exists|j: int| 0 <= j < v.tags.len() && is_substring(p, v.tags[j]),
    }
}

/// The snippets of `s` that pass `filter`, in the order of `s`.
pub open spec fn listed(s: Seq<SnippetView>, filter: Option<Seq<char>>) -> Seq<SnippetView>
    decreases s.len(),
{
    if s.len() == 0 {
        Seq::empty()
    } else {
        let rest = listed(s.drop_last(), filter);
        if selected(s.last(), filter) {
            rest.push(s.last())
        } else {
            rest
        }
    }
}

/// The text of an optional filter.
pub open spec fn filter_text(filter: Option<&str>) -> Option<Seq<char>> {
    match filter {
        Some(f) => Some(f@),
        None => None,
    }
}

/// Every id in `s` is at most `max_id(s)`.
pub proof fn lemma_max_id_bounds(s: Seq<SnippetView>)
    ensures
        forall|i: int| 0 <= i < s.len() ==> s[i].id as nat <= max_id(s),
    decreases s.len(),
{
    if s.len() > 0 {
        lemma_max_id_bounds(s.drop_last());
        assert forall|i: int| 0 <= i < s.len() implies s[i].id as nat <= max_id(s) by {
            if i < s.len() - 1 {
                assert(s[i] == s.drop_last()[i]);
            }
        }
    }
}

/// Adding a snippet whose id is one more than the largest id in use keeps
/// the ids unique: a run of additions never hands out the same id twice.
pub proof fn lemma_add_keeps_ids_unique(s: Seq<SnippetView>, v: SnippetView)
    requires
        ids_unique(s),
        v.id as nat == max_id(s) + 1,
    ensures
        ids_unique(s.push(v)),
{
    lemma_max_id_bounds(s);
    let t = s.push(v);
    assert forall|a: int, b: int| 0 <= a < b < t.len() implies t[a].id != t[b].id by {
        if b == s.len() {
            assert(t[a] == s[a]);
        } else {
            assert(t[a] == s[a] && t[b] == s[b]);
        }
    }
}

/// Taking one snippet out keeps the ids unique.
pub proof fn lemma_remove_keeps_ids_unique(s: Seq<SnippetView>, i: int)
    requires
        ids_unique(s),
        0 <= i < s.len(),
    ensures
        ids_unique(s.remove(i)),
{
    let t = s.remove(i);
    assert forall|a: int, b: int| 0 <= a < b < t.len() implies t[a].id != t[b].id by {
        let a2 = if a < i { a } else { a + 1 };
        let b2 = if b < i { b } else { b + 1 };
        assert(t[a] == s[a2] && t[b] == s[b2]);
    }
}

/// With unique ids, the snippet found at a position holding `id` is the one
/// that `index_of` names.
proof fn lemma_index_of_unique(s: Seq<SnippetView>, id: u32, i: int)
    requires
        ids_unique(s),
        0 <= i < s.len(),
        s[i].id == id,
    ensures
        has_id(s, id),
        index_of(s, id) == i,
{
    assert(has_id(s, id));
    let j = index_of(s, id);
    assert(0 <= j < s.len() && s[j].id == id);
    if j < i {
        assert(s[j].id != s[i].id);
    } else if i < j {
        assert(s[i].id != s[j].id);
    }
}

/// Whether `sn` passes the tag filter.
fn passes(sn: &Snippet, filter: Option<&str>) -> (r: bool)
    ensures
        r == selected(sn@, filter_text(filter)),
{
    match filter {
        None => true,
        Some(f) => {
            let n = sn.tags.len();
            let mut j: usize = 0;
            while j < n
                invariant
                    n == sn.tags@.len(),
                    j <= n,
                    filter_text(filter) == Some(f@),
                    forall|k: int| 0 <= k < j ==> !is_substring(f@, sn@.tags[k]),
                decreases n - j,
            {
                assert(sn@.tags[j as int] == sn.tags@[j as int]@);
                if contains_text(sn.tags[j].as_str(), f) {
                    assert(0 <= j < sn@.tags.len() && is_substring(f@, sn@.tags[j as int]));
                    return true;
                }
                j = j + 1;
            }
            false
        },
    }
}

/// What loading gives: `None` (nothing stored) loads as the empty collection;
/// stored records load as themselves when their ids are unique, and as a
/// corrupt store (`None` here) otherwise.
pub open spec fn loaded(stored: Option<Seq<SnippetView>>) -> Option<Seq<SnippetView>> {
    match stored {
        None => Some(Seq::empty()),
        Some(s) => if ids_unique(s) {
            Some(s)
        } else {
            None
        },
    }
}

/// The values of the stored records, if any were stored.
pub open spec fn stored_views(stored: Option<Vec<Snippet>>) -> Option<Seq<SnippetView>> {
    match stored {
        Some(v) => Some(views(v@)),
        None => None,
    }
}

/// Whether a stored file of `len` bytes (`None`: no file) holds records to read.
pub open spec fn holds_records(len: Option<usize>) -> bool {
    match len {
        Some(n) => n > 0,
        None => false,
    }
}

/// Whether a stored file of `stored_len` bytes (`None`: no file) holds records
/// to read; an absent or zero-length file stands for the empty collection.
pub fn has_records(stored_len: Option<usize>) -> (r: bool)
    ensures
        r == holds_records(stored_len),
{
    match stored_len {
        Some(n) => n > 0,
        None => false,
    }
}

/// An absent or zero-length store holds no records, and loading nothing gives
/// the empty collection, not an error.
pub proof fn lemma_empty_store_loads_empty()
    ensures
        !holds_records(None),
        !holds_records(Some(0usize)),
        loaded(None) == Some(Seq::<SnippetView>::empty()),
{
}

/// Loading the records that a well-formed store holds gives back the same
/// snippets, with the same ids, in the same order: whatever a store saves,
/// loading accepts unchanged.
pub proof fn lemma_round_trip(s: Seq<SnippetView>)
    requires
        ids_unique(s),
    ensures
        loaded(Some(s)) == Some(s),
{
}

/// Listing without a filter gives every snippet, in order.
pub proof fn lemma_list_unfiltered(s: Seq<SnippetView>)
    ensures
        listed(s, None) == s,
    decreases s.len(),
{
    if s.len() > 0 {
        lemma_list_unfiltered(s.drop_last());
        assert(s.drop_last().push(s.last()) =~= s);
    }
}

/// A listing holds exactly the snippets of the store that pass the filter.
pub proof fn lemma_list_exact(s: Seq<SnippetView>, filter: Option<Seq<char>>)
    ensures
        forall|v: SnippetView| #[trigger] listed(s, filter).contains(v) <==> (s.contains(v) && selected(v, filter)),
    decreases s.len(),
{
    if s.len() > 0 {
        let init = s.drop_last();
        lemma_list_exact(init, filter);
        assert(init.push(s.last()) =~= s);
        assert forall|v: SnippetView| #[trigger] listed(s, filter).contains(v) <==> (s.contains(v) && selected(v, filter)) by {
            let rest = listed(init, filter);
            if s.contains(v) && selected(v, filter) {
                let k = choose|k: int| 0 <= k < s.len() && s[k] == v;
                if k < s.len() - 1 {
                    assert(init[k] == v);
                    assert(init.contains(v));
                    assert(listed(init, filter).contains(v));
                    if selected(s.last(), filter) {
                        let j = choose|j: int| 0 <= j < rest.len() && rest[j] == v;
                        assert(rest.push(s.last())[j] == v);
                    }
                } else {
                    assert(rest.push(s.last())[rest.len() as int] == v);
                }
            }
            if listed(s, filter).contains(v) {
                if selected(s.last(), filter) {
                    let j = choose|j: int| 0 <= j < rest.len() + 1 && rest.push(s.last())[j] == v;
                    if j < rest.len() {
                        assert(rest[j] == v);
                        assert(rest.contains(v));
                        let k = choose|k: int| 0 <= k < init.len() && init[k] == v;
                        assert(s[k] == v);
                    } else {
                        assert(s[s.len() - 1] == v);
                    }
                } else {
                    let k = choose|k: int| 0 <= k < init.len() && init[k] == v;
                    assert(s[k] == v);
                }
            }
        }
    }
}

/// Removing the id of the middle one of three snippets with unique ids leaves
/// the first and the last, in that order.
pub proof fn lemma_remove_keeps_order(a: SnippetView, b: SnippetView, c: SnippetView)
    requires
        ids_unique(seq![a, b, c]),
    ensures
        has_id(seq![a, b, c], b.id),
        without_id(seq![a, b, c], b.id) == seq![a, c],
{
    let s = seq![a, b, c];
    lemma_index_of_unique(s, b.id, 1);
    assert(s.remove(1) =~= seq![a, c]);
}

/// The collection of snippets, in insertion order, unique by id.
pub struct SnippetStore {
    snippets: Vec<Snippet>,
}

impl View for SnippetStore {
    type V = Seq<SnippetView>;

    closed spec fn view(&self) -> Seq<SnippetView> {
        views(self.snippets@)
    }
}

impl SnippetStore {
    /// The store's invariant: no two snippets share an id.
    pub open spec fn wf(&self) -> bool {
        ids_unique(self@)
    }

    /// An empty store.
    pub fn new() -> (r: SnippetStore)
        ensures
            r.wf(),
            r@ == Seq::<SnippetView>::empty(),
    {
        let r = SnippetStore { snippets: Vec::new() };
        assert(r@ =~= Seq::<SnippetView>::empty());
        r
    }

    /// A store of the given records; `CorruptStore` when two of them share an id.
    pub fn from_snippets(v: Vec<Snippet>) -> (r: Result<SnippetStore, StoreError>)
        ensures
            r is Ok <==> ids_unique(views(v@)),
            match r {
                Ok(st) => st.wf() && st@ == views(v@),
                Err(e) => e == StoreError::CorruptStore,
            },
    {
        let n = v.len();
        let mut i: usize = 0;
        while i < n
            invariant
                n == v@.len(),
                i <= n,
                forall|a: int, b: int| 0 <= a < b < i ==> v@[a].id != v@[b].id,
            decreases n - i,
        {
            let mut j: usize = 0;
            while j < i
                invariant
                    n == v@.len(),
                    j <= i < n,
                    forall|a: int| 0 <= a < j ==> v@[a].id != v@[i as int].id,
                decreases i - j,
            {
                if v[j].id == v[i].id {
                    assert(views(v@)[j as int].id == views(v@)[i as int].id);
                    return Err(StoreError::CorruptStore);
                }
                j = j + 1;
            }
            i = i + 1;
        }
        assert forall|a: int, b: int| 0 <= a < b < views(v@).len() implies views(v@)[a].id != views(v@)[b].id by {
            assert(views(v@)[a].id == v@[a].id && views(v@)[b].id == v@[b].id);
        }
        Ok(SnippetStore { snippets: v })
    }

    /// The store that `stored` holds: empty when nothing was stored, else the
    /// stored records, or `CorruptStore` when two of them share an id.
    pub fn load(stored: Option<Vec<Snippet>>) -> (r: Result<SnippetStore, StoreError>)
        ensures
            r is Ok <==> loaded(stored_views(stored)) is Some,
            match r {
                Ok(st) => st.wf() && Some(st@) == loaded(stored_views(stored)),
                Err(e) => e == StoreError::CorruptStore,
            },
    {
        match stored {
            None => Ok(SnippetStore::new()),
            Some(v) => SnippetStore::from_snippets(v),
        }
    }

    /// The snippets, in insertion order.
    pub fn snippets(&self) -> (r: &Vec<Snippet>)
        ensures
            views(r@) == self@,
    {
        &self.snippets
    }

    /// The number of snippets.
    pub fn len(&self) -> (r: usize)
        ensures
            r == self@.len(),
    {
        self.snippets.len()
    }

    /// The largest id in use, or 0 when the store is empty.
    pub fn max_id(&self) -> (r: u32)
        ensures
            r as nat == max_id(self@),
    {
        let n = self.snippets.len();
        let mut m: u32 = 0;
        let mut i: usize = 0;
        while i < n
            invariant
                n == self.snippets@.len(),
                i <= n,
                m as nat == max_id(self@.subrange(0, i as int)),
            decreases n - i,
        {
            proof {
                assert(self@.subrange(0, i + 1).drop_last() =~= self@.subrange(0, i as int));
            }
            let id = self.snippets[i].id;
            if id > m {
                m = id;
            }
            i = i + 1;
        }
        assert(self@.subrange(0, n as int) =~= self@);
        m
    }

    /// Appends a new snippet with the next id (one more than the largest in use,
    /// 1 for an empty store) and returns a copy of it. Fails, changing nothing,
    /// only when the largest id in use is the largest `u32`.
    pub fn add(&mut self, code: String, lang: String, tags: Vec<String>) -> (r: Result<Snippet, StoreError>)
        requires
            old(self).wf(),
        ensures
            final(self).wf(),
            max_id(old(self)@) < u32::MAX ==> {
                &&& r is Ok
                &&& r->Ok_0@ == (SnippetView {
                    id: (max_id(old(self)@) + 1) as u32,
                    code: code@,
                    lang: lang@,
                    tags: tags.deep_view(),
                })
                &&& final(self)@ == old(self)@.push(r->Ok_0@)
                &&& max_id(final(self)@) == max_id(old(self)@) + 1
            },
            max_id(old(self)@) == u32::MAX ==> {
                &&& r is Err
                &&& r->Err_0 == StoreError::IdsExhausted
                &&& final(self)@ == old(self)@
            },
    {
        let m = self.max_id();
        proof {
            lemma_max_id_bounds(self@);
        }
        if m == u32::MAX {
            return Err(StoreError::IdsExhausted);
        }
        let sn = Snippet::new(m + 1, code, lang, tags);
        let copy = sn.duplicate();
        let ghost before = self@;
        proof {
            lemma_add_keeps_ids_unique(before, sn@);
        }
        self.snippets.push(sn);
        assert(self@ =~= before.push(copy@));
        assert(self@.drop_last() =~= before);
        Ok(copy)
    }

    /// The position of the snippet with id `id`, if there is one.
    fn position(&self, id: u32) -> (r: Option<usize>)
        requires
            self.wf(),
        ensures
            match r {
                Some(i) => has_id(self@, id) && i == index_of(self@, id) && i < self@.len(),
                None => !has_id(self@, id),
            },
    {
        let n = self.snippets.len();
        let mut i: usize = 0;
        while i < n
            invariant
                n == self.snippets@.len(),
                i <= n,
                self.wf(),
                forall|k: int| 0 <= k < i ==> self@[k].id != id,
            decreases n - i,
        {
            if self.snippets[i].id == id {
                proof {
                    lemma_index_of_unique(self@, id, i as int);
                }
                return Some(i);
            }
            i = i + 1;
        }
        None
    }

    /// The snippet with id `id`, or `NotFound`.
    pub fn get_by_id(&self, id: u32) -> (r: Result<&Snippet, StoreError>)
        requires
            self.wf(),
        ensures
            match r {
                Ok(sn) => has_id(self@, id) && sn@ == self@[index_of(self@, id)],
                Err(e) => !has_id(self@, id) && e == StoreError::NotFound,
            },
    {
        match self.position(id) {
            Some(i) => Ok(&self.snippets[i]),
            None => Err(StoreError::NotFound),
        }
    }

    /// Takes out the snippet with id `id` and returns it, the others keeping
    /// their order; `NotFound`, changing nothing, when no snippet has that id.
    pub fn remove_by_id(&mut self, id: u32) -> (r: Result<Snippet, StoreError>)
        requires
            old(self).wf(),
        ensures
            final(self).wf(),
            match r {
                Ok(sn) => {
                    &&& has_id(old(self)@, id)
                    &&& sn@ == old(self)@[index_of(old(self)@, id)]
                    &&& final(self)@ == without_id(old(self)@, id)
                },
                Err(e) => {
                    &&& !has_id(old(self)@, id)
                    &&& e == StoreError::NotFound
                    &&& final(self)@ == old(self)@
                },
            },
    {
        match self.position(id) {
            Some(i) => {
                let ghost before = self@;
                proof {
                    lemma_remove_keeps_ids_unique(before, i as int);
                }
                let sn = self.snippets.remove(i);
                assert(self@ =~= before.remove(i as int));
                Ok(sn)
            },
            None => Err(StoreError::NotFound),
        }
    }

    /// Takes out the most recently added snippet (the last one) and returns
    /// it; `EmptyStore` when there is none.
    pub fn pop(&mut self) -> (r: Result<Snippet, StoreError>)
        requires
            old(self).wf(),
        ensures
            final(self).wf(),
            match r {
                Ok(sn) => {
                    &&& old(self)@.len() > 0
                    &&& sn@ == old(self)@.last()
                    &&& final(self)@ == old(self)@.drop_last()
                },
                Err(e) => {
                    &&& old(self)@.len() == 0
                    &&& e == StoreError::EmptyStore
                    &&& final(self)@ == old(self)@
                },
            },
    {
        let ghost before = self@;
        match self.snippets.pop() {
            Some(sn) => {
                assert(self@ =~= before.drop_last());
                Ok(sn)
            },
            None => Err(StoreError::EmptyStore),
        }
    }

    /// Copies of the snippets that pass `filter`, in store order: all of them
    /// when there is no filter, else those with a tag that contains the filter
    /// text.
    pub fn list(&self, filter: Option<&str>) -> (r: Vec<Snippet>)
        ensures
            views(r@) == listed(self@, filter_text(filter)),
    {
        let ghost fv = filter_text(filter);
        let n = self.snippets.len();
        let mut out: Vec<Snippet> = Vec::new();
        let mut i: usize = 0;
        assert(views(out@) =~= listed(self@.subrange(0, 0), fv));
        while i < n
            invariant
                n == self.snippets@.len(),
                i <= n,
                fv == filter_text(filter),
                views(out@) == listed(self@.subrange(0, i as int), fv),
            decreases n - i,
        {
            proof {
                assert(self@.subrange(0, i + 1).drop_last() =~= self@.subrange(0, i as int));
                assert(self@.subrange(0, i + 1).last() == self@[i as int]);
            }
            if passes(&self.snippets[i], filter) {
                let ghost prev = out@;
                out.push(self.snippets[i].duplicate());
                assert(views(out@) =~= views(prev).push(self@[i as int]));
            }
            i = i + 1;
        }
        assert(self@.subrange(0, n as int) =~= self@);
        out
    }
}

} // verus!
