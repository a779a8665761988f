//! The corpus: documents keyed by path, each with its term statistics and
//! modification time, and for every token the number of documents that
//! contain it.

use vstd::prelude::*;
use crate::assoc::{
    find_key, lemma_lookup_at, lemma_lookup_last, lemma_lookup_missing, lemma_lookup_unique,
    lemma_push_new, lemma_update_value, lookup, unique_keys,
};
use crate::terms::{TermStats, TermsView};
use crate::tokenizer::{tokenize, tokens};

verus! {

/// A point in time: seconds and nanoseconds since the Unix epoch.
#[derive(Clone, Copy, Debug, PartialEq, Eq, Structural)]
pub struct Timestamp {
    pub secs: u64,
    pub nanos: u32,
}

impl Timestamp {
    /// `self` is strictly earlier than `other`.
    pub open spec fn precedes(self, other: Timestamp) -> bool {
        self.secs < other.secs || (self.secs == other.secs && self.nanos < other.nanos)
    }

    pub fn is_before(&self, other: &Timestamp) -> (r: bool)
        ensures
            r == self.precedes(*other),
    {
        self.secs < other.secs || (self.secs == other.secs && self.nanos < other.nanos)
    }
}

/// The mathematical content of a document.
pub struct DocView {
    pub terms: TermsView,
    pub last_modified: Timestamp,
}

/// An indexed document: its term statistics and when its file was last modified.
pub struct Doc {
    stats: TermStats,
    last_modified: Timestamp,
}

impl View for Doc {
    type V = DocView;

    closed spec fn view(&self) -> DocView {
        DocView { terms: self.stats@, last_modified: self.last_modified }
    }
}

impl Doc {
    pub fn new(stats: TermStats, last_modified: Timestamp) -> (r: Doc)
        ensures
            r@ == (DocView { terms: stats@, last_modified }),
    {
        Doc { stats, last_modified }
    }

    pub fn stats(&self) -> (r: &TermStats)
        ensures
            r@ == self@.terms,
    {
        &self.stats
    }

    pub fn last_modified(&self) -> (r: Timestamp)
        ensures
            r == self@.last_modified,
    {
        self.last_modified
    }
}

pub open spec fn entries_view(v: Seq<(String, Doc)>) -> Seq<(Seq<char>, DocView)> {
    v.map_values(|e: (String, Doc)| (e.0@, e.1@))
}

pub open spec fn counts_view(v: Seq<(String, usize)>) -> Seq<(Seq<char>, usize)> {
    v.map_values(|e: (String, usize)| (e.0@, e.1))
}

/// The count that `s` associates with `t`, zero where it has none.
pub open spec fn count_of(s: Seq<(Seq<char>, usize)>, t: Seq<char>) -> nat {
    match lookup(s, t) {
        Some(c) => c as nat,
        None => 0,
    }
}

/// The number of documents of `s` whose statistics contain `t`.
pub open spec fn containing(s: Seq<(Seq<char>, DocView)>, t: Seq<char>) -> nat
    decreases s.len(),
{
    if s.len() == 0 {
        0
    } else {
        containing(s.drop_last(), t) + if s.last().1.terms.contains(t) {
            1nat
        } else {
            0nat
        }
    }
}

pub proof fn lemma_containing_bound(s: Seq<(Seq<char>, DocView)>, t: Seq<char>)
    ensures
        containing(s, t) <= s.len(),
    decreases s.len(),
{
    if s.len() > 0 {
        lemma_containing_bound(s.drop_last(), t);
    }
}

pub proof fn lemma_containing_push(s: Seq<(Seq<char>, DocView)>, x: (Seq<char>, DocView), t: Seq<char>)
    ensures
        containing(s.push(x), t) == containing(s, t) + if x.1.terms.contains(t) {
            1nat
        } else {
            0nat
        },
{
    assert(s.push(x).drop_last() =~= s);
}

pub proof fn lemma_containing_update(s: Seq<(Seq<char>, DocView)>, j: int, x: (Seq<char>, DocView), t: Seq<char>)
    requires
        0 <= j < s.len(),
    ensures
        containing(s.update(j, x), t) + (if s[j].1.terms.contains(t) { 1nat } else { 0nat })
            == containing(s, t) + (if x.1.terms.contains(t) { 1nat } else { 0nat }),
    decreases s.len(),
{
    let s2 = s.update(j, x);
    if j < s.len() - 1 {
        assert(s2.drop_last() =~= s.drop_last().update(j, x));
        lemma_containing_update(s.drop_last(), j, x, t);
    } else {
        assert(s2.drop_last() =~= s.drop_last());
    }
}

pub proof fn lemma_containing_positive(s: Seq<(Seq<char>, DocView)>, j: int, t: Seq<char>)
    requires
        0 <= j < s.len(),
        s[j].1.terms.contains(t),
    ensures
        containing(s, t) >= 1,
    decreases s.len(),
{
    if j < s.len() - 1 {
        lemma_containing_positive(s.drop_last(), j, t);
    }
}

/// Whether one of the first `k` keys of `s` is `t`.
pub open spec fn key_among<V>(s: Seq<(Seq<char>, V)>, k: int, t: Seq<char>) -> bool {
    exists|i: int| 0 <= i < k && s[i].0 == t
}

/// For a list with unique keys, all its keys are among its keys exactly when the lookup succeeds.
proof fn lemma_key_among_all<V>(s: Seq<(Seq<char>, V)>, t: Seq<char>)
    requires
        unique_keys(s),
    ensures
        key_among(s, s.len() as int, t) <==> lookup(s, t) is Some,
{
    lemma_lookup_unique(s, t);
}

/// Removes one occurrence of `t` from the counts, never going below zero.
fn count_decrement(df: &mut Vec<(String, usize)>, t: &String)
    requires
        unique_keys(counts_view(old(df)@)),
    ensures
        unique_keys(counts_view(final(df)@)),
        count_of(counts_view(final(df)@), t@) == if count_of(counts_view(old(df)@), t@) > 0 {
            count_of(counts_view(old(df)@), t@) - 1
        } else {
            0
        },
        forall|u: Seq<char>| u != t@ ==> #[trigger] count_of(counts_view(final(df)@), u) == count_of(counts_view(old(df)@), u),
{
    let ghost s0 = counts_view(df@);
    match find_key(df, t) {
        Some(j) => {
            let c = df[j].1;
            if c > 0 {
                df[j].1 = c - 1;
                proof {
                    assert(s0[j as int].0 == t@);
                    assert(counts_view(df@) =~= s0.update(j as int, (t@, (c - 1) as usize)));
                    lemma_update_value(s0, j as int, (c - 1) as usize);
                    lemma_lookup_at(s0, j as int);
                }
            } else {
                proof {
                    lemma_lookup_at(s0, j as int);
                }
            }
        },
        None => {
            proof {
                lemma_lookup_missing(s0, t@);
            }
        },
    }
}

/// Adds one occurrence of `t` to the counts.
fn count_increment(df: &mut Vec<(String, usize)>, t: &String)
    requires
        unique_keys(counts_view(old(df)@)),
        count_of(counts_view(old(df)@), t@) < usize::MAX,
    ensures
        unique_keys(counts_view(final(df)@)),
        count_of(counts_view(final(df)@), t@) == count_of(counts_view(old(df)@), t@) + 1,
        forall|u: Seq<char>| u != t@ ==> #[trigger] count_of(counts_view(final(df)@), u) == count_of(counts_view(old(df)@), u),
{
    let ghost s0 = counts_view(df@);
    match find_key(df, t) {
        Some(j) => {
            let c = df[j].1;
            proof {
                lemma_lookup_at(s0, j as int);
            }
            df[j].1 = c + 1;
            proof {
                assert(counts_view(df@) =~= s0.update(j as int, (t@, (c + 1) as usize)));
                lemma_update_value(s0, j as int, (c + 1) as usize);
            }
        },
        None => {
            df.push((t.clone(), 1));
            proof {
                assert(counts_view(df@) =~= s0.push((t@, 1usize)));
                lemma_lookup_missing(s0, t@);
                lemma_push_new(s0, t@, 1usize);
            }
        },
    }
}

/// The corpus.
pub struct Model {
    docs: Vec<(String, Doc)>,
    df: Vec<(String, usize)>,
}

impl Model {
    /// The documents, each with its path.
    pub closed spec fn entries(&self) -> Seq<(Seq<char>, DocView)> {
        entries_view(self.docs@)
    }

    /// The stored document frequencies.
    pub closed spec fn df_entries(&self) -> Seq<(Seq<char>, usize)> {
        counts_view(self.df@)
    }

    /// The document stored under path `p`.
    pub open spec fn doc(&self, p: Seq<char>) -> Option<DocView> {
        lookup(self.entries(), p)
    }

    pub open spec fn n_docs(&self) -> nat {
        self.entries().len()
    }

    /// The stored document frequency of `t`, zero where none is stored.
    pub open spec fn df_of(&self, t: Seq<char>) -> nat {
        count_of(self.df_entries(), t)
    }

    /// The number of documents that contain `t`.
    pub open spec fn docs_containing(&self, t: Seq<char>) -> nat {
        containing(self.entries(), t)
    }

    /// Paths and tokens are unique keys, and the stored document frequency
    /// of every token is the number of documents that contain it.
    pub open spec fn wf(&self) -> bool {
        &&& unique_keys(self.entries())
        &&& unique_keys(self.df_entries())
        &&& forall|t: Seq<char>| #[trigger] self.df_of(t) == self.docs_containing(t)
    }

    /// The documents, each with its path, in corpus order.
    pub fn documents(&self) -> (r: &Vec<(String, Doc)>)
        ensures
            entries_view(r@) == self.entries(),
    {
        &self.docs
    }

    /// The stored document frequencies.
    pub fn df_counts(&self) -> (r: &Vec<(String, usize)>)
        ensures
            counts_view(r@) == self.df_entries(),
    {
        &self.df
    }

    /// An empty corpus.
    pub fn new() -> (r: Model)
        ensures
            r.wf(),
            r.n_docs() == 0,
            forall|p: Seq<char>| #[trigger] r.doc(p) is None,
    {
        let r = Model { docs: Vec::new(), df: Vec::new() };
        assert(r.entries().len() == 0);
        assert(r.df_entries().len() == 0);
        r
    }

    /// A file at `p` last modified at `t` must be (re)indexed: it has no
    /// document yet, or its document is strictly older.
    pub open spec fn needs_reindexing(&self, p: Seq<char>, t: Timestamp) -> bool {
        match self.doc(p) {
            Some(d) => d.last_modified.precedes(t),
            None => true,
        }
    }

    /// Whether the file at `file_path`, last modified at `last_modified`,
    /// must be (re)indexed: it has no document yet, or its document is older.
    pub fn requires_reindexing(&self, file_path: &String, last_modified: Timestamp) -> (r: bool)
        ensures
            r == self.needs_reindexing(file_path@, last_modified),
    {
        match find_key(&self.docs, file_path) {
            Some(j) => {
                proof {
                    lemma_lookup_last(self.entries(), j as int);
                }
                self.docs[j].1.last_modified.is_before(&last_modified)
            },
            None => {
                proof {
                    lemma_lookup_missing(self.entries(), file_path@);
                }
                true
            },
        }
    }

    /// Takes the statistics of the document at index `j` out of the document frequencies.
    fn unwind_document(&mut self, j: usize)
        requires
            old(self).wf(),
            j < old(self).n_docs(),
        ensures
            final(self).entries() == old(self).entries(),
            unique_keys(final(self).df_entries()),
            forall|t: Seq<char>|
                #[trigger] final(self).df_of(t) + (if old(self).entries()[j as int].1.terms.contains(t) {
                    1nat
                } else {
                    0nat
                }) == old(self).docs_containing(t),
    {
        let ghost e = self.entries();
        let ghost d = e[j as int].1.terms;
        let keys = self.docs[j].1.stats.postings();
        let mut k: usize = 0;
        while k < keys.len()
            invariant
                self.entries() == e,
                d.wf(),
                e[j as int].1.terms == d,
                j < e.len(),
                crate::terms::postings_view(keys@) == d.postings,
                k <= keys@.len(),
                unique_keys(self.df_entries()),
                forall|t: Seq<char>|
                    #[trigger] self.df_of(t) + (if key_among(d.postings, k as int, t) {
                        1nat
                    } else {
                        0nat
                    }) == containing(e, t),
            decreases keys@.len() - k,
        {
            let t = &keys[k].0;
            let ghost before = self.df_entries();
            let ghost m0 = *self;
            proof {
                assert(d.postings[k as int].0 == t@);
                lemma_lookup_at(d.postings, k as int);
                lemma_containing_positive(e, j as int, t@);
                if key_among(d.postings, k as int, t@) {
                    let i = choose|i: int| 0 <= i < k && d.postings[i].0 == t@;
                    assert(d.postings[i].0 == d.postings[k as int].0);
                }
                assert(!key_among(d.postings, k as int, t@));
            }
            count_decrement(&mut self.df, t);
            proof {
                assert forall|u: Seq<char>| #[trigger] self.df_of(u) + (if key_among(d.postings, k + 1, u) {
                    1nat
                } else {
                    0nat
                }) == containing(e, u) by {
                    assert(m0.df_of(u) + (if key_among(d.postings, k as int, u) {
                        1nat
                    } else {
                        0nat
                    }) == containing(e, u));
                    if u != t@ {
                        assert(count_of(self.df_entries(), u) == count_of(before, u));
                        if key_among(d.postings, k + 1, u) {
                            let i = choose|i: int| 0 <= i < k + 1 && d.postings[i].0 == u;
                            assert(0 <= i < k && d.postings[i].0 == u);
                        }
                    } else {
                        assert(0 <= k < k + 1 && d.postings[k as int].0 == u);
                    }
                }
            }
            k += 1;
        }
        proof {
            assert forall|t: Seq<char>| key_among(d.postings, k as int, t) == #[trigger] d.contains(t) by {
                lemma_key_among_all(d.postings, t);
            }
        }
    }

    /// Adds the statistics of a new document to the document frequencies.
    fn fold_statistics(&mut self, stats: &TermStats)
        requires
            unique_keys(old(self).df_entries()),
            forall|t: Seq<char>| #[trigger] old(self).df_of(t) < usize::MAX,
        ensures
            final(self).entries() == old(self).entries(),
            unique_keys(final(self).df_entries()),
            forall|t: Seq<char>|
                #[trigger] final(self).df_of(t) == old(self).df_of(t) + (if stats@.contains(t) {
                    1nat
                } else {
                    0nat
                }),
    {
        let ghost d = stats@;
        let ghost s0 = *self;
        let keys = stats.postings();
        let mut k: usize = 0;
        while k < keys.len()
            invariant
                self.entries() == s0.entries(),
                d.wf(),
                crate::terms::postings_view(keys@) == d.postings,
                k <= keys@.len(),
                unique_keys(self.df_entries()),
                forall|t: Seq<char>| #[trigger] s0.df_of(t) < usize::MAX,
                forall|t: Seq<char>|
                    #[trigger] self.df_of(t) == s0.df_of(t) + (if key_among(d.postings, k as int, t) {
                        1nat
                    } else {
                        0nat
                    }),
            decreases keys@.len() - k,
        {
            let t = &keys[k].0;
            let ghost before = self.df_entries();
            let ghost m0 = *self;
            proof {
                assert(d.postings[k as int].0 == t@);
                if key_among(d.postings, k as int, t@) {
                    let i = choose|i: int| 0 <= i < k && d.postings[i].0 == t@;
                    assert(d.postings[i].0 == d.postings[k as int].0);
                }
                assert(!key_among(d.postings, k as int, t@));
                assert(s0.df_of(t@) < usize::MAX);
                assert(self.df_of(t@) == s0.df_of(t@));
            }
            count_increment(&mut self.df, t);
            proof {
                assert forall|u: Seq<char>| #[trigger] self.df_of(u) == s0.df_of(u) + (if key_among(d.postings, k + 1, u) {
                    1nat
                } else {
                    0nat
                }) by {
                    assert(m0.df_of(u) == s0.df_of(u) + (if key_among(d.postings, k as int, u) {
                        1nat
                    } else {
                        0nat
                    }));
                    if u != t@ {
                        assert(count_of(self.df_entries(), u) == count_of(before, u));
                        if key_among(d.postings, k + 1, u) {
                            let i = choose|i: int| 0 <= i < k + 1 && d.postings[i].0 == u;
                            assert(0 <= i < k && d.postings[i].0 == u);
                        }
                    } else {
                        assert(0 <= k < k + 1 && d.postings[k as int].0 == u);
                    }
                }
            }
            k += 1;
        }
        proof {
            assert forall|t: Seq<char>| key_among(d.postings, k as int, t) == #[trigger] d.contains(t) by {
                lemma_key_among_all(d.postings, t);
            }
        }
    }

    /// Stores `stats` as the document at `file_path`, replacing any document
    /// there: the old statistics are taken out of the document frequencies and
    /// the new ones folded in.
    pub fn add_document_precomputed(&mut self, file_path: String, last_modified: Timestamp, stats: TermStats)
        requires
            old(self).wf(),
            old(self).n_docs() < usize::MAX,
        ensures
            final(self).wf(),
            final(self).doc(file_path@) == Some(DocView { terms: stats@, last_modified }),
            forall|p: Seq<char>| p != file_path@ ==> #[trigger] final(self).doc(p) == old(self).doc(p),
            final(self).n_docs() == old(self).n_docs() + if old(self).doc(file_path@) is None {
                1nat
            } else {
                0nat
            },
    {
        let ghost s0 = *self;
        let ghost e0 = self.entries();
        let pos = find_key(&self.docs, &file_path);
        match pos {
            Some(j) => {
                self.unwind_document(j);
            },
            None => {},
        }
        let ghost s1 = *self;
        proof {
            assert forall|t: Seq<char>| #[trigger] self.df_of(t) < usize::MAX by {
                lemma_containing_bound(e0, t);
                assert(s0.docs_containing(t) == containing(e0, t));
                if pos is Some {
                    assert(s1.df_of(t) + (if e0[pos.unwrap() as int].1.terms.contains(t) { 1nat } else { 0nat })
                        == s0.docs_containing(t));
                } else {
                    assert(s0.df_of(t) == s0.docs_containing(t));
                }
            }
        }
        self.fold_statistics(&stats);
        let ghost s2 = *self;
        let ghost dv = DocView { terms: stats@, last_modified };
        let doc = Doc { stats, last_modified };
        assert(doc@ == dv);
        match pos {
            Some(j) => {
                self.docs[j] = (file_path, doc);
                proof {
                    let e1 = self.entries();
                    assert(e1 =~= e0.update(j as int, (file_path@, dv)));
                    assert(e0[j as int].0 == file_path@);
                    lemma_update_value(e0, j as int, dv);
                    lemma_lookup_at(e0, j as int);
                    assert forall|t: Seq<char>| #[trigger] self.df_of(t) == self.docs_containing(t) by {
                        lemma_containing_update(e0, j as int, (file_path@, dv), t);
                        assert(s2.df_of(t) == s1.df_of(t) + (if dv.terms.contains(t) { 1nat } else { 0nat }));
                        assert(s1.df_of(t) + (if e0[j as int].1.terms.contains(t) { 1nat } else { 0nat })
                            == s0.docs_containing(t));
                        assert(self.df_entries() == s2.df_entries());
                    }
                }
            },
            None => {
                self.docs.push((file_path, doc));
                proof {
                    let e1 = self.entries();
                    assert(e1 =~= e0.push((file_path@, dv)));
                    lemma_push_new(e0, file_path@, dv);
                    lemma_lookup_missing(e0, file_path@);
                    assert forall|t: Seq<char>| #[trigger] self.df_of(t) == self.docs_containing(t) by {
                        lemma_containing_push(e0, (file_path@, dv), t);
                        assert(s2.df_of(t) == s1.df_of(t) + (if dv.terms.contains(t) { 1nat } else { 0nat }));
                        assert(s0.df_of(t) == s0.docs_containing(t));
                        assert(self.df_entries() == s2.df_entries());
                    }
                }
            },
        }
    }

    /// Tokenizes `content` and stores its statistics as the document at
    /// `file_path`, replacing any document there.
    pub fn add_document(&mut self, file_path: String, last_modified: Timestamp, content: &[char])
        requires
            old(self).wf(),
            old(self).n_docs() < usize::MAX,
        ensures
            final(self).wf(),
            final(self).doc(file_path@) is Some,
            final(self).doc(file_path@).unwrap().last_modified == last_modified,
            final(self).doc(file_path@).unwrap().terms.indexes(tokens(content@)),
            forall|p: Seq<char>| p != file_path@ ==> #[trigger] final(self).doc(p) == old(self).doc(p),
            final(self).n_docs() == old(self).n_docs() + if old(self).doc(file_path@) is None {
                1nat
            } else {
                0nat
            },
    {
        let stats = Model::compute_search_data(content);
        self.add_document_precomputed(file_path, last_modified, stats);
    }

    /// A corpus holding the given documents, later ones replacing earlier ones
    /// at the same path, with the document frequencies derived from them.
    pub fn from_documents(docs: Vec<(String, Doc)>) -> (r: Model)
        ensures
            r.wf(),
            forall|p: Seq<char>| #[trigger] r.doc(p) == lookup(entries_view(docs@), p),
    {
        let ghost all = entries_view(docs@);
        let n = docs.len();
        let mut docs = docs;
        let mut m = Model::new();
        let mut k: usize = 0;
        while k < n
            invariant
                m.wf(),
                all.len() == n,
                k <= n,
                m.n_docs() <= k,
                entries_view(docs@) == all.subrange(k as int, n as int),
                forall|p: Seq<char>| #[trigger] m.doc(p) == lookup(all.subrange(0, k as int), p),
            decreases n - k,
        {
            let ghost before = m;
            assert(docs@.len() == entries_view(docs@).len());
            let ghost old_docs = docs@;
            let (path, doc) = docs.remove(0);
            proof {
                assert(docs@ == old_docs.remove(0));
                assert(entries_view(old_docs)[0] == (path@, doc@));
                assert(all[k as int] == entries_view(old_docs)[0]);
                assert forall|i: int| 0 <= i < docs@.len() implies entries_view(docs@)[i] == all.subrange(k + 1, n as int)[i] by {
                    assert(docs@[i] == old_docs[i + 1]);
                    assert(entries_view(old_docs)[i + 1] == all[k + 1 + i]);
                }
                assert(entries_view(docs@) =~= all.subrange(k + 1, n as int));
            }
            let Doc { stats, last_modified } = doc;
            m.add_document_precomputed(path, last_modified, stats);
            proof {
                let pre = all.subrange(0, k as int);
                let post = all.subrange(0, k + 1);
                assert(post.drop_last() =~= pre);
                assert(post.last() == (path@, doc@));
                assert forall|p: Seq<char>| #[trigger] m.doc(p) == lookup(post, p) by {
                    if p != path@ {
                        assert(m.doc(p) == before.doc(p));
                    }
                }
            }
            k += 1;
        }
        assert(all.subrange(0, n as int) =~= all);
        m
    }

    /// Tokenizes `content` and computes its term statistics.
    pub fn compute_search_data(content: &[char]) -> (r: TermStats)
        ensures
            r@.indexes(tokens(content@)),
    {
        TermStats::from_tokens(&tokenize(content))
    }
}

} // verus!
