//! The per-URI state the reconciliation loop maintains: each open page's
//! live document (text plus line index) and its most recently stored
//! rendered page, replaced wholesale on every regeneration and removed when
//! the document closes.
//!
//! Entries are keyed by URI; the store behaves as a map from the URI's
//! characters to the (document, page) pair stored last.

use vstd::prelude::*;

use crate::line_index::LineIndex;
use crate::page_writer::Page;
use crate::text::str_eq;

verus! {

/// The map a sequence of store entries denotes: later entries win.
pub open spec fn store_map(s: Seq<(String, LineIndex, Page)>) -> Map<
    Seq<char>,
    (LineIndex, Page),
>
    decreases s.len(),
{
    if s.len() == 0 {
        Map::empty()
    } else {
        store_map(s.drop_last()).insert(s.last().0@, (s.last().1, s.last().2))
    }
}

/// Store state keyed by URI.
pub struct DocumentStore {
    pub docs: Vec<(String, LineIndex, Page)>,
}

proof fn lemma_store_map_absent(s: Seq<(String, LineIndex, Page)>, k: Seq<char>)
    requires
        forall|i: int| 0 <= i < s.len() ==> (#[trigger] s[i]).0@ != k,
    ensures
        !store_map(s).contains_key(k),
    decreases s.len(),
{
    if s.len() > 0 {
        assert(forall|i: int|
            0 <= i < s.len() - 1 ==> #[trigger] s.drop_last()[i] == s[i]);
        lemma_store_map_absent(s.drop_last(), k);
    }
}

proof fn lemma_store_map_remove(s: Seq<(String, LineIndex, Page)>, i: int)
    requires
        forall|a: int, b: int|
            #![trigger s[a], s[b]]
            0 <= a < b < s.len() ==> s[a].0@ != s[b].0@,
        0 <= i < s.len(),
    ensures
        store_map(s.remove(i)) == store_map(s).remove(s[i].0@),
    decreases s.len(),
{
    let k = s[i].0@;
    assert(forall|a: int|
        0 <= a < s.len() - 1 ==> #[trigger] s.drop_last()[a] == s[a]);
    if i == s.len() - 1 {
        assert(s.remove(i) =~= s.drop_last());
        assert(forall|a: int| 0 <= a < s.drop_last().len() ==> (#[trigger] s.drop_last()[a]).0@ != k);
        lemma_store_map_absent(s.drop_last(), k);
        assert(store_map(s).remove(k) =~= store_map(s.drop_last()));
    } else {
        let last = s.last();
        assert(s.remove(i).drop_last() =~= s.drop_last().remove(i));
        assert(s.remove(i).last() == last);
        lemma_store_map_remove(s.drop_last(), i);
        assert(s.drop_last()[i] == s[i]);
        assert(last.0@ != k);
        assert(store_map(s.remove(i)) == store_map(s.drop_last()).remove(k).insert(
            last.0@,
            (last.1, last.2),
        ));
        assert(store_map(s.drop_last()).remove(k).insert(last.0@, (last.1, last.2))
            =~= store_map(s.drop_last()).insert(last.0@, (last.1, last.2)).remove(k));
    }
}

impl DocumentStore {
    /// What the store holds, as a map.
    pub open spec fn view(self) -> Map<Seq<char>, (LineIndex, Page)> {
        store_map(self.docs@)
    }

    /// No two entries share a URI.
    pub open spec fn wf(self) -> bool {
        forall|a: int, b: int|
            #![trigger self.docs@[a], self.docs@[b]]
            0 <= a < b < self.docs@.len() ==> self.docs@[a].0@ != self.docs@[b].0@
    }

    pub fn new() -> (r: DocumentStore)
        ensures
            r.wf(),
            r.view() == Map::<Seq<char>, (LineIndex, Page)>::empty(),
    {
        DocumentStore { docs: Vec::new() }
    }

    /// The position of the entry stored under `uri`, if any.
    fn find(&self, uri: &str) -> (r: Option<usize>)
        ensures
            match r {
                Some(i) => i < self.docs@.len() && self.docs@[i as int].0@ == uri@,
                None => forall|i: int|
                    0 <= i < self.docs@.len() ==> (#[trigger] self.docs@[i]).0@ != uri@,
            },
    {
        let mut i: usize = 0;
        while i < self.docs.len()
            invariant
                i <= self.docs@.len(),
                forall|j: int| 0 <= j < i ==> (#[trigger] self.docs@[j]).0@ != uri@,
            decreases self.docs@.len() - i,
        {
            if str_eq(self.docs[i].0.as_str(), uri) {
                return Some(i);
            }
            i = i + 1;
        }
        None
    }

    /// Stores `doc` and `page` under `uri`, replacing wholesale whatever
    /// regeneration was stored before: the state observed afterwards is
    /// entirely this call's, never a mix.
    pub fn upsert(&mut self, uri: String, doc: LineIndex, page: Page)
        requires
            old(self).wf(),
        ensures
            final(self).wf(),
            final(self).view() == old(self).view().insert(uri@, (doc, page)),
    {
        let found = self.find(uri.as_str());
        match found {
            Some(i) => {
                proof {
                    lemma_store_map_remove(self.docs@, i as int);
                }
                let ghost removed = self.docs@.remove(i as int);
                self.docs.remove(i);
                proof {
                    assert(forall|a: int, b: int|
                        #![trigger removed[a], removed[b]]
                        0 <= a < b < removed.len() ==> removed[a].0@ != removed[b].0@);
                    lemma_store_map_absent(removed, uri@);
                }
                self.docs.push((uri, doc, page));
                proof {
                    assert(self.docs@.drop_last() =~= removed);
                    assert(store_map(self.docs@) == store_map(removed).insert(uri@, (doc, page)));
                    assert(store_map(removed).insert(uri@, (doc, page)) =~= old(
                        self,
                    ).view().insert(uri@, (doc, page)));
                }
            },
            None => {
                proof {
                    lemma_store_map_absent(self.docs@, uri@);
                }
                let ghost before = self.docs@;
                self.docs.push((uri, doc, page));
                proof {
                    assert(self.docs@.drop_last() =~= before);
                }
            },
        }
    }

    /// The entry stored under `uri`, if any.
    pub fn get(&self, uri: &str) -> (r: Option<&(String, LineIndex, Page)>)
        requires
            self.wf(),
        ensures
            match r {
                Some(t) => self.view().contains_key(uri@) && t.0@ == uri@ && self.view()[uri@]
                    == (t.1, t.2),
                None => !self.view().contains_key(uri@),
            },
    {
        let found = self.find(uri);
        match found {
            Some(i) => {
                proof {
                    lemma_store_map_get(self.docs@, i as int);
                }
                Some(&self.docs[i])
            },
            None => {
                proof {
                    lemma_store_map_absent(self.docs@, uri@);
                }
                None
            },
        }
    }

    /// Drops whatever is stored under `uri`, as when a document closes.
    pub fn remove(&mut self, uri: &str)
        requires
            old(self).wf(),
        ensures
            final(self).wf(),
            final(self).view() == old(self).view().remove(uri@),
    {
        let found = self.find(uri);
        match found {
            Some(i) => {
                proof {
                    lemma_store_map_remove(self.docs@, i as int);
                }
                self.docs.remove(i);
            },
            None => {
                proof {
                    lemma_store_map_absent(self.docs@, uri@);
                    assert(old(self).view().remove(uri@) =~= old(self).view());
                }
            },
        }
    }
}

proof fn lemma_store_map_get(s: Seq<(String, LineIndex, Page)>, i: int)
    requires
        forall|a: int, b: int|
            #![trigger s[a], s[b]]
            0 <= a < b < s.len() ==> s[a].0@ != s[b].0@,
        0 <= i < s.len(),
    ensures
        store_map(s).contains_key(s[i].0@),
        store_map(s)[s[i].0@] == (s[i].1, s[i].2),
    decreases s.len(),
{
    assert(forall|a: int|
        0 <= a < s.len() - 1 ==> #[trigger] s.drop_last()[a] == s[a]);
    if i < s.len() - 1 {
        lemma_store_map_get(s.drop_last(), i);
        assert(s[i].0@ != s.last().0@);
    }
}

/// One reconciliation step's stored effect: replaces the live document for
/// `uri` with the text the editor sent and the stored overlays with the
/// fresh regeneration, wholesale, and reports whether the regenerated text
/// disagrees with the live text — which callers log but never block on.
pub fn update_document(
    store: &mut DocumentStore,
    uri: String,
    live_text: String,
    page: Page,
) -> (changed: bool)
    requires
        old(store).wf(),
    ensures
        final(store).wf(),
        changed == (page.text@ != live_text@),
        exists|d: LineIndex|
            (#[trigger] d.wf()) && d.text == live_text && final(store).view() == old(
                store,
            ).view().insert(uri@, (d, page)),
{
    let changed = !str_eq(page.text.as_str(), live_text.as_str());
    let doc = LineIndex::new(live_text);
    let ghost dw = doc;
    store.upsert(uri, doc, page);
    proof {
        assert(dw.wf() && store.view() == old(store).view().insert(uri@, (dw, page)));
    }
    changed
}

/// Law: for two regenerations of the same URI, the state stored last is the
/// state observed afterwards, whole: storing is a single replacement of the
/// (document, page) pair, so no later query sees a mix of the two results.
pub proof fn lemma_last_write_wins(
    m: Map<Seq<char>, (LineIndex, Page)>,
    uri: Seq<char>,
    first: (LineIndex, Page),
    second: (LineIndex, Page),
)
    ensures
        m.insert(uri, first).insert(uri, second) == m.insert(uri, second),
        m.insert(uri, first).insert(uri, second)[uri] == second,
{
    assert(m.insert(uri, first).insert(uri, second) =~= m.insert(uri, second));
}

} // verus!
