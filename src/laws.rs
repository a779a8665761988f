//! Laws of the corpus that relate several operations or hold of every state.

use vstd::prelude::*;
use crate::assoc::{lemma_lookup_unique, lookup, unique_keys};
use crate::model::{containing, DocView, Model, Timestamp};
use crate::terms::{holds, strictly_increasing, TermsView};

verus! {

/// The paths whose documents contain `t`, in the list of documents `s`.
pub open spec fn paths_with(s: Seq<(Seq<char>, DocView)>, t: Seq<char>) -> Set<Seq<char>> {
    Set::new(|p: Seq<char>| lookup(s, p) is Some && lookup(s, p).unwrap().terms.contains(t))
}

proof fn lemma_containing_counts_paths(s: Seq<(Seq<char>, DocView)>, t: Seq<char>)
    requires
        unique_keys(s),
    ensures
        paths_with(s, t).finite(),
        containing(s, t) == paths_with(s, t).len(),
    decreases s.len(),
{
    if s.len() == 0 {
        assert(paths_with(s, t) =~= Set::empty());
    } else {
        let r = s.drop_last();
        let x = s.last();
        assert(unique_keys(r)) by {
            assert forall|a: int, b: int| 0 <= a < r.len() && 0 <= b < r.len() && a != b implies r[a].0 != r[b].0 by {
                assert(r[a] == s[a] && r[b] == s[b]);
            }
        }
        lemma_containing_counts_paths(r, t);
        assert forall|j: int| 0 <= j < r.len() implies r[j].0 != x.0 by {
            assert(r[j] == s[j]);
        }
        lemma_lookup_unique(r, x.0);
        if x.1.terms.contains(t) {
            assert(paths_with(s, t) =~= paths_with(r, t).insert(x.0));
        } else {
            assert(paths_with(s, t) =~= paths_with(r, t));
        }
    }
}

/// Document frequency law: in every well-formed corpus, which is every
/// corpus built by `Model::new` and `add_document`, the document frequency of
/// a token is the number of stored paths whose document contains it.
pub proof fn lemma_document_frequency(m: Model, t: Seq<char>)
    requires
        m.wf(),
    ensures
        m.df_of(t) == Set::new(|p: Seq<char>| m.doc(p) is Some && m.doc(p).unwrap().terms.contains(t)).len(),
{
    lemma_containing_counts_paths(m.entries(), t);
    assert(paths_with(m.entries(), t) =~= Set::new(|p: Seq<char>| m.doc(p) is Some && m.doc(p).unwrap().terms.contains(t)));
}

proof fn lemma_containing_lacking(s: Seq<(Seq<char>, DocView)>, j: int, t: Seq<char>)
    requires
        0 <= j < s.len(),
        !s[j].1.terms.contains(t),
    ensures
        containing(s, t) < s.len(),
    decreases s.len(),
{
    if j < s.len() - 1 {
        lemma_containing_lacking(s.drop_last(), j, t);
    } else {
        crate::model::lemma_containing_bound(s.drop_last(), t);
    }
}

/// A token that some stored document lacks has a document frequency below
/// the number of documents, so its inverse document frequency is positive.
pub proof fn lemma_lacking_token_is_rare(m: Model, p: Seq<char>, t: Seq<char>)
    requires
        m.wf(),
        m.doc(p) is Some,
        !m.doc(p).unwrap().terms.contains(t),
    ensures
        m.df_of(t) < m.n_docs(),
{
    crate::assoc::lemma_lookup_found(m.entries(), p);
    let j = choose|j: int| 0 <= j < m.entries().len() && m.entries()[j].0 == p && lookup(m.entries(), p) == Some(m.entries()[j].1);
    lemma_containing_lacking(m.entries(), j, t);
}

/// Staleness law: a file needs reindexing exactly when it has no document
/// or its stored modification time is strictly earlier; an equal time never
/// calls for it.
pub proof fn lemma_equal_time_is_current(m: Model, p: Seq<char>, t: Timestamp)
    requires
        m.doc(p) is Some,
        m.doc(p).unwrap().last_modified == t,
    ensures
        !m.needs_reindexing(p, t),
{
}

proof fn lemma_sorted_same_members(a: Seq<usize>, b: Seq<usize>)
    requires
        strictly_increasing(a),
        strictly_increasing(b),
        forall|x: int| holds(a, x) <==> holds(b, x),
    ensures
        a == b,
    decreases a.len() + b.len(),
{
    if a.len() == 0 && b.len() == 0 {
        assert(a =~= b);
    } else if a.len() == 0 {
        assert(holds(b, b[0] as int));
    } else if b.len() == 0 {
        assert(holds(a, a[0] as int));
    } else {
        let la = a.last();
        let lb = b.last();
        assert(holds(a, la as int));
        assert(holds(b, lb as int));
        let ja = choose|j: int| 0 <= j < b.len() && b[j] as int == la as int;
        let jb = choose|j: int| 0 <= j < a.len() && a[j] as int == lb as int;
        if ja < b.len() - 1 {
            assert(b[ja] < lb);
        }
        if jb < a.len() - 1 {
            assert(a[jb] < la);
        }
        assert(la == lb);
        let a2 = a.drop_last();
        let b2 = b.drop_last();
        assert forall|x: int| holds(a2, x) <==> holds(b2, x) by {
            if holds(a2, x) {
                let j = choose|j: int| 0 <= j < a2.len() && a2[j] as int == x;
                assert(a[j] < la);
                assert(holds(a, x));
                let k = choose|k: int| 0 <= k < b.len() && b[k] as int == x;
                assert(k < b.len() - 1);
                assert(b2[k] as int == x);
            }
            if holds(b2, x) {
                let j = choose|j: int| 0 <= j < b2.len() && b2[j] as int == x;
                assert(b[j] < lb);
                assert(holds(b, x));
                let k = choose|k: int| 0 <= k < a.len() && a[k] as int == x;
                assert(k < a.len() - 1);
                assert(a2[k] as int == x);
            }
        }
        lemma_sorted_same_members(a2, b2);
        assert(a =~= a2.push(la));
        assert(b =~= b2.push(lb));
    }
}

/// Two statistics of the same token sequence agree on the offsets of every token.
pub proof fn lemma_indexes_determines_positions(d1: TermsView, d2: TermsView, toks: Seq<Seq<char>>, t: Seq<char>)
    requires
        d1.indexes(toks),
        d2.indexes(toks),
    ensures
        d1.positions(t) == d2.positions(t),
{
    if d1.contains(t) {
        assert(d2.contains(t));
        crate::assoc::lemma_lookup_found(d1.postings, t);
        crate::assoc::lemma_lookup_found(d2.postings, t);
        let a = d1.positions(t).unwrap();
        let b = d2.positions(t).unwrap();
        let ja = choose|j: int| 0 <= j < d1.postings.len() && d1.postings[j].0 == t && lookup(d1.postings, t) == Some(d1.postings[j].1);
        let jb = choose|j: int| 0 <= j < d2.postings.len() && d2.postings[j].0 == t && lookup(d2.postings, t) == Some(d2.postings[j].1);
        assert(d1.postings[ja].1 == a);
        assert(d2.postings[jb].1 == b);
        assert forall|x: int| holds(a, x) <==> holds(b, x) by {
            if holds(a, x) {
                let k = choose|k: int| 0 <= k < a.len() && a[k] as int == x;
                assert(a[k] < d1.count);
                assert(d1.occurs_at(t, x));
                assert(d2.occurs_at(t, x));
            }
            if holds(b, x) {
                let k = choose|k: int| 0 <= k < b.len() && b[k] as int == x;
                assert(b[k] < d2.count);
                assert(d2.occurs_at(t, x));
                assert(d1.occurs_at(t, x));
            }
        }
        lemma_sorted_same_members(a, b);
    } else {
        assert(!d2.contains(t));
    }
}

/// Idempotence law: indexing the same content again at the same path, after
/// it was indexed once, changes no term frequency, no offset and no document
/// frequency.
pub proof fn lemma_reindex_same_content(
    m1: Model,
    m2: Model,
    p: Seq<char>,
    toks: Seq<Seq<char>>,
    t: Seq<char>,
)
    requires
        m1.wf(),
        m2.wf(),
        m1.doc(p) is Some,
        m1.doc(p).unwrap().terms.indexes(toks),
        m2.doc(p) is Some,
        m2.doc(p).unwrap().terms.indexes(toks),
        forall|q: Seq<char>| q != p ==> #[trigger] m2.doc(q) == m1.doc(q),
    ensures
        m2.doc(p).unwrap().terms.positions(t) == m1.doc(p).unwrap().terms.positions(t),
        m2.doc(p).unwrap().terms.freq(t) == m1.doc(p).unwrap().terms.freq(t),
        m2.doc(p).unwrap().terms.count == m1.doc(p).unwrap().terms.count,
        m2.df_of(t) == m1.df_of(t),
{
    let d1 = m1.doc(p).unwrap().terms;
    let d2 = m2.doc(p).unwrap().terms;
    lemma_indexes_determines_positions(d1, d2, toks, t);
    lemma_document_frequency(m1, t);
    lemma_document_frequency(m2, t);
    assert(Set::new(|q: Seq<char>| m1.doc(q) is Some && m1.doc(q).unwrap().terms.contains(t))
        =~= Set::new(|q: Seq<char>| m2.doc(q) is Some && m2.doc(q).unwrap().terms.contains(t)));
}

} // verus!
