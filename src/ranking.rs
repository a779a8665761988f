//! The exact ingredients of a ranked query: for every document, the counts
//! that its tf·idf score is computed from, and the coverage and phrase
//! factors that scale it.

use vstd::prelude::*;
use crate::assoc::{find_key, lemma_lookup_last, lemma_lookup_missing, lookup};
use crate::model::Model;
use crate::terms::{phrase_in_doc, TermStats, TermsView};
use crate::tokenizer::{tokenize, tokens, views};

verus! {

/// The number of distinct tokens of the query `q`.
pub open spec fn distinct_count(q: Seq<Seq<char>>) -> nat {
    q.to_set().len()
}

/// The number of distinct tokens of `q` that the document `d` contains.
pub open spec fn present_count(q: Seq<Seq<char>>, d: TermsView) -> nat {
    q.to_set().filter(|t: Seq<char>| d.contains(t)).len()
}

/// The coverage factor as a fraction (numerator, denominator): one when the
/// query has at most one distinct token, three halves when the document holds
/// them all, and otherwise the square of the share of them that it holds.
pub open spec fn coverage_factor(present: nat, distinct: nat) -> (nat, nat) {
    if distinct <= 1 {
        (1, 1)
    } else if present == distinct {
        (3, 2)
    } else {
        (present * present, distinct * distinct)
    }
}

/// The phrase factor: two when the query has more than one token and they
/// occur contiguously and in order, otherwise one.
pub open spec fn phrase_boost(phrase: bool) -> nat {
    if phrase {
        2
    } else {
        1
    }
}

/// What one document contributes to a ranked query.
pub struct DocMatch {
    /// The path of the document.
    pub path: String,
    /// Its number of tokens.
    pub term_count: usize,
    /// For each query token, in query order, its number of occurrences.
    pub counts: Vec<usize>,
    /// How many distinct query tokens it contains.
    pub present: usize,
    /// Whether the query has more than one token and occurs in it as a phrase.
    pub phrase: bool,
    /// The coverage factor, as (numerator, denominator).
    pub coverage: (u128, u128),
    /// The phrase factor.
    pub boost: u128,
}

impl DocMatch {
    /// This match is the one of document `d`, stored under path `p`, for the query `q`.
    pub open spec fn describes(&self, p: Seq<char>, d: TermsView, q: Seq<Seq<char>>) -> bool {
        &&& self.path@ == p
        &&& self.term_count == d.count
        &&& self.counts@.len() == q.len()
        &&& forall|k: int| 0 <= k < q.len() ==> #[trigger] self.counts@[k] == d.freq(q[k])
        &&& self.present == present_count(q, d)
        &&& self.phrase == (q.len() > 1 && d.has_phrase(q))
        &&& self.coverage.0 as nat == coverage_factor(self.present as nat, distinct_count(q)).0
        &&& self.coverage.1 as nat == coverage_factor(self.present as nat, distinct_count(q)).1
        &&& self.boost as nat == phrase_boost(self.phrase)
    }
}

/// The sum over the first `n` query positions of the token count times the
/// weight of that position.
pub open spec fn weighted_sum(c: Seq<usize>, w: Seq<int>, n: int) -> int
    decreases n,
{
    if n <= 0 {
        0
    } else {
        weighted_sum(c, w, n - 1) + c[n - 1] as int * w[n - 1]
    }
}

impl DocMatch {
    /// The numerator of the score when query position `k` weighs `w[k]` (its
    /// inverse document frequency): the weighted token counts times the
    /// coverage and phrase factors. A document without tokens scores zero.
    pub open spec fn score_num(&self, w: Seq<int>) -> int {
        if self.term_count == 0 {
            0
        } else {
            weighted_sum(self.counts@, w, self.counts@.len() as int) * self.coverage.0 * self.boost
        }
    }

    /// The denominator of the score: the token count times the coverage
    /// denominator.
    pub open spec fn score_den(&self) -> int {
        if self.term_count == 0 {
            1
        } else {
            self.term_count * self.coverage.1
        }
    }
}

/// Everything a score needs, for every document of the corpus.
pub struct Ranking {
    /// The query tokens, repeats kept.
    pub tokens: Vec<String>,
    /// The number of distinct query tokens.
    pub distinct: usize,
    /// The number of documents in the corpus.
    pub n_docs: usize,
    /// For each query token, its document frequency, taken as one where it is zero.
    pub doc_freq: Vec<usize>,
    /// One match per document, in corpus order.
    pub matches: Vec<DocMatch>,
}

/// Whether `v` holds a string equal to `t`.
fn has_string(v: &Vec<String>, t: &String) -> (r: bool)
    ensures
        r == views(v@).contains(t@),
{
    let mut i: usize = 0;
    while i < v.len()
        invariant
            i <= v@.len(),
            forall|j: int| 0 <= j < i ==> v@[j]@ != t@,
        decreases v@.len() - i,
    {
        if v[i] == *t {
            assert(views(v@)[i as int] == t@);
            return true;
        }
        i += 1;
    }
    assert forall|j: int| 0 <= j < views(v@).len() implies views(v@)[j] != t@ by {
        assert(views(v@)[j] == v@[j]@);
    }
    false
}

/// The distinct tokens of `q`, each once, in order of first occurrence.
fn distinct_tokens(q: &Vec<String>) -> (u: Vec<String>)
    ensures
        views(u@).no_duplicates(),
        views(u@).to_set() == views(q@).to_set(),
{
    let ghost qv = views(q@);
    let mut u: Vec<String> = Vec::new();
    let mut i: usize = 0;
    while i < q.len()
        invariant
            qv == views(q@),
            i <= q@.len(),
            views(u@).no_duplicates(),
            forall|x: Seq<char>| views(u@).contains(x) <==> exists|j: int| 0 <= j < i && qv[j] == x,
        decreases q@.len() - i,
    {
        let ghost before = views(u@);
        assert(qv[i as int] == q@[i as int]@);
        if !has_string(&u, &q[i]) {
            u.push(q[i].clone());
            proof {
                assert(views(u@) =~= before.push(qv[i as int]));
                assert forall|x: Seq<char>| views(u@).contains(x) <==> exists|j: int| 0 <= j < i + 1 && qv[j] == x by {
                    if views(u@).contains(x) && x != qv[i as int] {
                        let k = choose|k: int| 0 <= k < views(u@).len() && views(u@)[k] == x;
                        assert(before[k] == x);
                    }
                    if exists|j: int| 0 <= j < i + 1 && qv[j] == x {
                        let j = choose|j: int| 0 <= j < i + 1 && qv[j] == x;
                        if j < i {
                            assert(before.contains(x));
                            let k = choose|k: int| 0 <= k < before.len() && before[k] == x;
                            assert(views(u@)[k] == x);
                        } else {
                            assert(views(u@)[before.len() as int] == x);
                        }
                    }
                }
            }
        } else {
            proof {
                assert forall|x: Seq<char>| views(u@).contains(x) <==> exists|j: int| 0 <= j < i + 1 && qv[j] == x by {
                    if exists|j: int| 0 <= j < i + 1 && qv[j] == x {
                        let j = choose|j: int| 0 <= j < i + 1 && qv[j] == x;
                        if j == i {
                            assert(views(u@).contains(qv[i as int]));
                        } else {
                            assert(exists|j2: int| 0 <= j2 < i && qv[j2] == x);
                        }
                    }
                }
            }
        }
        i += 1;
    }
    proof {
        assert forall|x: Seq<char>| views(u@).to_set().contains(x) <==> qv.to_set().contains(x) by {
            if qv.contains(x) {
                let j = choose|j: int| 0 <= j < qv.len() && qv[j] == x;
                assert(exists|j2: int| 0 <= j2 < i && qv[j2] == x);
            }
        }
        assert(views(u@).to_set() =~= qv.to_set());
    }
    u
}

/// How many of the distinct tokens `u` the statistics contain.
fn count_present(u: &Vec<String>, stats: &TermStats) -> (r: usize)
    requires
        views(u@).no_duplicates(),
    ensures
        r == views(u@).to_set().filter(|t: Seq<char>| stats@.contains(t)).len(),
{
    let ghost uv = views(u@);
    let ghost d = stats@;
    let ghost mut acc: Seq<Seq<char>> = seq![];
    let mut cnt: usize = 0;
    let mut i: usize = 0;
    while i < u.len()
        invariant
            uv == views(u@),
            uv.no_duplicates(),
            d == stats@,
            i <= u@.len(),
            cnt == acc.len(),
            cnt <= i,
            acc.no_duplicates(),
            forall|x: Seq<char>| acc.contains(x) <==> (exists|j: int| 0 <= j < i && uv[j] == x) && d.contains(x),
        decreases u@.len() - i,
    {
        assert(uv[i as int] == u@[i as int]@);
        if stats.positions_of(&u[i]).is_some() {
            proof {
                let x = uv[i as int];
                if acc.contains(x) {
                    let j = choose|j: int| 0 <= j < i && uv[j] == x;
                    assert(uv[j] == uv[i as int]);
                }
                let old_acc = acc;
                acc = acc.push(x);
                assert forall|a: int, b: int| 0 <= a < acc.len() && 0 <= b < acc.len() && a != b implies acc[a] != acc[b] by {
                    if a < old_acc.len() && b < old_acc.len() {
                        assert(acc[a] == old_acc[a] && acc[b] == old_acc[b]);
                    } else if a < old_acc.len() {
                        assert(acc[a] == old_acc[a]);
                        assert(old_acc.contains(acc[a]));
                    } else if b < old_acc.len() {
                        assert(acc[b] == old_acc[b]);
                        assert(old_acc.contains(acc[b]));
                    }
                }
                assert forall|y: Seq<char>| acc.contains(y) <==> (exists|j: int| 0 <= j < i + 1 && uv[j] == y) && d.contains(y) by {
                    if acc.contains(y) && y != x {
                        let k = choose|k: int| 0 <= k < acc.len() && acc[k] == y;
                        assert(old_acc[k] == y);
                        assert(old_acc.contains(y));
                        let j = choose|j: int| 0 <= j < i && uv[j] == y;
                        assert(0 <= j < i + 1 && uv[j] == y);
                    }
                    if (exists|j: int| 0 <= j < i + 1 && uv[j] == y) && d.contains(y) {
                        let j = choose|j: int| 0 <= j < i + 1 && uv[j] == y;
                        if j < i {
                            assert(old_acc.contains(y));
                            let k = choose|k: int| 0 <= k < old_acc.len() && old_acc[k] == y;
                            assert(acc[k] == y);
                        } else {
                            assert(acc[old_acc.len() as int] == y);
                        }
                    }
                }
            }
            cnt += 1;
        } else {
            proof {
                assert forall|y: Seq<char>| acc.contains(y) <==> (exists|j: int| 0 <= j < i + 1 && uv[j] == y) && d.contains(y) by {
                    if acc.contains(y) {
                        let j = choose|j: int| 0 <= j < i && uv[j] == y;
                        assert(0 <= j < i + 1 && uv[j] == y);
                    }
                    if (exists|j: int| 0 <= j < i + 1 && uv[j] == y) && d.contains(y) {
                        let j = choose|j: int| 0 <= j < i + 1 && uv[j] == y;
                        if j == i {
                            assert(!d.contains(uv[i as int]));
                        }
                        assert(exists|j2: int| 0 <= j2 < i && uv[j2] == y);
                    }
                }
            }
        }
        i += 1;
    }
    proof {
        let p = |t: Seq<char>| d.contains(t);
        assert forall|x: Seq<char>| acc.to_set().contains(x) <==> uv.to_set().filter(p).contains(x) by {
            if uv.contains(x) && d.contains(x) {
                let j = choose|j: int| 0 <= j < uv.len() && uv[j] == x;
                assert(exists|j2: int| 0 <= j2 < i && uv[j2] == x);
            }
        }
        assert(acc.to_set() =~= uv.to_set().filter(p));
        acc.unique_seq_to_set();
    }
    cnt
}

/// The coverage factor for `present` of `distinct` distinct query tokens.
pub fn coverage(present: usize, distinct: usize) -> (r: (u128, u128))
    ensures
        r.0 as nat == coverage_factor(present as nat, distinct as nat).0,
        r.1 as nat == coverage_factor(present as nat, distinct as nat).1,
{
    if distinct <= 1 {
        (1, 1)
    } else if present == distinct {
        (3, 2)
    } else {
        let p = present as u128;
        let d = distinct as u128;
        assert(p * p <= 0xffff_ffff_ffff_ffffu128 * 0xffff_ffff_ffff_ffffu128) by (nonlinear_arith)
            requires
                p <= 0xffff_ffff_ffff_ffffu128,
        ;
        assert(d * d <= 0xffff_ffff_ffff_ffffu128 * 0xffff_ffff_ffff_ffffu128) by (nonlinear_arith)
            requires
                d <= 0xffff_ffff_ffff_ffffu128,
        ;
        (p * p, d * d)
    }
}

impl Model {
    /// The stored document frequency of `t`.
    pub fn document_frequency(&self, t: &String) -> (r: usize)
        ensures
            r == self.df_of(t@),
    {
        let df = self.df_counts();
        match find_key(df, t) {
            Some(j) => {
                proof {
                    lemma_lookup_last(self.df_entries(), j as int);
                }
                df[j].1
            },
            None => {
                proof {
                    lemma_lookup_missing(self.df_entries(), t@);
                }
                0
            },
        }
    }

    /// The ranking ingredients of every document for the query tokens `q`.
    pub fn rank_tokens(&self, q: &Vec<String>) -> (r: Ranking)
        ensures
            r.tokens@ == q@,
            r.distinct == distinct_count(views(q@)),
            r.n_docs == self.n_docs(),
            r.doc_freq@.len() == q@.len(),
            forall|k: int|
                0 <= k < q@.len() ==> #[trigger] r.doc_freq@[k] == if self.df_of(views(q@)[k]) == 0 {
                    1
                } else {
                    self.df_of(views(q@)[k])
                },
            r.matches@.len() == self.n_docs(),
            forall|i: int|
                0 <= i < self.n_docs() ==> #[trigger] r.matches@[i].describes(
                    self.entries()[i].0,
                    self.entries()[i].1.terms,
                    views(q@),
                ),
    {
        let ghost qv = views(q@);
        let u = distinct_tokens(q);
        proof {
            views(u@).unique_seq_to_set();
        }
        let distinct = u.len();
        let mut doc_freq: Vec<usize> = Vec::new();
        let mut k: usize = 0;
        while k < q.len()
            invariant
                qv == views(q@),
                k <= q@.len(),
                doc_freq@.len() == k,
                forall|j: int|
                    0 <= j < k ==> #[trigger] doc_freq@[j] == if self.df_of(qv[j]) == 0 {
                        1
                    } else {
                        self.df_of(qv[j])
                    },
            decreases q@.len() - k,
        {
            assert(qv[k as int] == q@[k as int]@);
            let c = self.document_frequency(&q[k]);
            doc_freq.push(if c == 0 {
                1
            } else {
                c
            });
            k += 1;
        }
        let docs = self.documents();
        let mut matches: Vec<DocMatch> = Vec::new();
        let mut i: usize = 0;
        while i < docs.len()
            invariant
                qv == views(q@),
                crate::model::entries_view(docs@) == self.entries(),
                views(u@).no_duplicates(),
                views(u@).to_set() == qv.to_set(),
                distinct == distinct_count(qv),
                i <= docs@.len(),
                matches@.len() == i,
                forall|j: int|
                    0 <= j < i ==> #[trigger] matches@[j].describes(
                        self.entries()[j].0,
                        self.entries()[j].1.terms,
                        qv,
                    ),
            decreases docs@.len() - i,
        {
            let path = &docs[i].0;
            let stats = docs[i].1.stats();
            let ghost d = stats@;
            assert(self.entries()[i as int].1.terms == d);
            let mut counts: Vec<usize> = Vec::new();
            let mut k: usize = 0;
            while k < q.len()
                invariant
                    qv == views(q@),
                    d == stats@,
                    k <= q@.len(),
                    counts@.len() == k,
                    forall|j: int| 0 <= j < k ==> #[trigger] counts@[j] == d.freq(qv[j]),
                decreases q@.len() - k,
            {
                assert(qv[k as int] == q@[k as int]@);
                counts.push(stats.freq(&q[k]));
                k += 1;
            }
            let present = count_present(&u, stats);
            let phrase = q.len() > 1 && phrase_in_doc(q, stats);
            let m = DocMatch {
                path: path.clone(),
                term_count: stats.term_count(),
                counts,
                present,
                phrase,
                coverage: coverage(present, distinct),
                boost: if phrase {
                    2
                } else {
                    1
                },
            };
            matches.push(m);
            i += 1;
        }
        Ranking { tokens: q.clone(), distinct, n_docs: docs.len(), doc_freq, matches }
    }

    /// Tokenizes `query` and computes the ranking ingredients of every document.
    pub fn rank_query(&self, query: &[char]) -> (r: Ranking)
        ensures
            views(r.tokens@) == tokens(query@),
            r.distinct == distinct_count(tokens(query@)),
            r.n_docs == self.n_docs(),
            r.doc_freq@.len() == tokens(query@).len(),
            forall|k: int|
                0 <= k < tokens(query@).len() ==> #[trigger] r.doc_freq@[k] == if self.df_of(tokens(query@)[k]) == 0 {
                    1
                } else {
                    self.df_of(tokens(query@)[k])
                },
            r.matches@.len() == self.n_docs(),
            forall|i: int|
                0 <= i < self.n_docs() ==> #[trigger] r.matches@[i].describes(
                    self.entries()[i].0,
                    self.entries()[i].1.terms,
                    tokens(query@),
                ),
    {
        let q = tokenize(query);
        self.rank_tokens(&q)
    }
}

/// Under well-formed statistics a token is contained exactly when it occurs.
pub proof fn lemma_contains_iff_occurs(d: TermsView, t: Seq<char>)
    requires
        d.wf(),
    ensures
        d.contains(t) <==> d.freq(t) > 0,
{
    if d.contains(t) {
        crate::assoc::lemma_lookup_found(d.postings, t);
    }
}

proof fn lemma_weighted_sum_eq(c1: Seq<usize>, c2: Seq<usize>, w: Seq<int>, n: int)
    requires
        0 <= n <= c1.len(),
        n <= c2.len(),
        forall|k: int| 0 <= k < n ==> c1[k] == c2[k],
    ensures
        weighted_sum(c1, w, n) == weighted_sum(c2, w, n),
    decreases n,
{
    if n > 0 {
        lemma_weighted_sum_eq(c1, c2, w, n - 1);
    }
}

/// Single-token law: for a query of one token `t`, the score of a document
/// is its term frequency of `t` times the weight of `t`, with no coverage or
/// phrase factor.
pub proof fn lemma_single_token_score(t: Seq<char>, p: Seq<char>, d: TermsView, m: DocMatch, w: Seq<int>)
    requires
        m.describes(p, d, seq![t]),
        w.len() == 1,
    ensures
        m.coverage == (1u128, 1u128),
        m.boost == 1,
        m.score_num(w) == if d.count == 0 {
            0
        } else {
            d.freq(t) as int * w[0]
        },
        m.score_den() == if d.count == 0 {
            1
        } else {
            d.count as int
        },
{
    let q = seq![t];
    assert(q[0] == t);
    assert forall|x: Seq<char>| q.to_set().contains(x) <==> Set::empty().insert(t).contains(x) by {
        if x == t {
            assert(q.contains(x));
        }
    }
    assert(q.to_set() =~= Set::empty().insert(t));
    assert(weighted_sum(m.counts@, w, 0) == 0);
}

/// Documents that agree on the count of every query token contain the same
/// distinct query tokens.
proof fn lemma_same_counts_same_present(q: Seq<Seq<char>>, d1: TermsView, d2: TermsView)
    requires
        d1.wf(),
        d2.wf(),
        forall|k: int| 0 <= k < q.len() ==> d1.freq(#[trigger] q[k]) == d2.freq(q[k]),
    ensures
        present_count(q, d1) == present_count(q, d2),
{
    let in1 = |t: Seq<char>| d1.contains(t);
    let in2 = |t: Seq<char>| d2.contains(t);
    assert forall|t: Seq<char>| q.to_set().filter(in1).contains(t) <==> q.to_set().filter(in2).contains(t) by {
        if q.contains(t) {
            let k = choose|k: int| 0 <= k < q.len() && q[k] == t;
            assert(d1.freq(q[k]) == d2.freq(q[k]));
            lemma_contains_iff_occurs(d1, t);
            lemma_contains_iff_occurs(d2, t);
        }
    }
    assert(q.to_set().filter(in1) =~= q.to_set().filter(in2));
}

/// Phrase law: of two documents of equal length that hold every query token
/// equally often, the one in which a query of more than one token occurs as a
/// phrase scores exactly twice as much as the one in which it does not, for
/// every weighting of the query tokens.
pub proof fn lemma_phrase_doubles_score(
    q: Seq<Seq<char>>,
    path1: Seq<char>,
    d1: TermsView,
    m1: DocMatch,
    path2: Seq<char>,
    d2: TermsView,
    m2: DocMatch,
    w: Seq<int>,
)
    requires
        d1.wf(),
        d2.wf(),
        m1.describes(path1, d1, q),
        m2.describes(path2, d2, q),
        q.len() > 1,
        d1.has_phrase(q),
        !d2.has_phrase(q),
        d1.count == d2.count,
        forall|k: int| 0 <= k < q.len() ==> d1.freq(#[trigger] q[k]) == d2.freq(q[k]),
    ensures
        m1.score_num(w) * m2.score_den() == 2 * m2.score_num(w) * m1.score_den(),
{
    lemma_same_counts_same_present(q, d1, d2);
    lemma_weighted_sum_eq(m1.counts@, m2.counts@, w, q.len() as int);
    assert(m1.coverage == m2.coverage);
    assert(m1.boost == 2 && m2.boost == 1);
    assert(m1.score_den() == m2.score_den());
    let sum = weighted_sum(m1.counts@, w, q.len() as int);
    let c = m1.coverage.0 as int;
    let den = m1.score_den();
    if m1.term_count != 0 {
        assert(m1.score_num(w) == sum * c * 2);
        assert(m2.score_num(w) == sum * c * 1);
        assert((sum * c * 2) * den == 2 * (sum * c * 1) * den) by (nonlinear_arith);
    }
}

proof fn lemma_two_tokens(a: Seq<char>, b: Seq<char>, d: TermsView)
    requires
        a != b,
        d.wf(),
    ensures
        distinct_count(seq![a, b]) == 2,
        present_count(seq![a, b], d) == (if d.contains(a) { 1nat } else { 0nat }) + (if d.contains(b) {
            1nat
        } else {
            0nat
        }),
{
    let q = seq![a, b];
    assert(q.to_set() =~= Set::empty().insert(a).insert(b));
    let f = q.to_set().filter(|t: Seq<char>| d.contains(t));
    if d.contains(a) && d.contains(b) {
        assert(f =~= Set::empty().insert(a).insert(b));
    } else if d.contains(a) {
        assert(f =~= Set::empty().insert(a));
    } else if d.contains(b) {
        assert(f =~= Set::empty().insert(b));
    } else {
        assert(f =~= Set::empty());
    }
}

/// A document that contains a token has at least one token.
proof fn lemma_contains_nonempty(d: TermsView, t: Seq<char>)
    requires
        d.wf(),
        d.contains(t),
    ensures
        d.count > 0,
{
    crate::assoc::lemma_lookup_found(d.postings, t);
    let j = choose|j: int| 0 <= j < d.postings.len() && d.postings[j].0 == t && lookup(d.postings, t) == Some(d.postings[j].1);
    assert(d.postings[j].1[0] < d.count);
}

/// Coverage law: for the two-token query `a b`, a document that holds `a` in
/// the same proportion as another and also holds `b`, which the other lacks,
/// scores strictly higher, for every weighting of the two tokens that is
/// non-negative and gives `b` a positive weight (as its inverse document
/// frequency is, since a document lacks it).
pub proof fn lemma_coverage_ranks_higher(
    a: Seq<char>,
    b: Seq<char>,
    path1: Seq<char>,
    d1: TermsView,
    m1: DocMatch,
    path2: Seq<char>,
    d2: TermsView,
    m2: DocMatch,
    w: Seq<int>,
)
    requires
        a != b,
        d1.wf(),
        d2.wf(),
        m1.describes(path1, d1, seq![a, b]),
        m2.describes(path2, d2, seq![a, b]),
        d1.freq(a) * d2.count == d2.freq(a) * d1.count,
        d1.contains(b),
        !d2.contains(b),
        w.len() == 2,
        w[0] >= 0,
        w[1] > 0,
    ensures
        m1.score_num(w) * m2.score_den() > m2.score_num(w) * m1.score_den(),
{
    let q = seq![a, b];
    lemma_two_tokens(a, b, d1);
    lemma_two_tokens(a, b, d2);
    lemma_contains_iff_occurs(d1, a);
    lemma_contains_iff_occurs(d1, b);
    lemma_contains_iff_occurs(d2, a);
    lemma_contains_iff_occurs(d2, b);
    lemma_contains_nonempty(d1, b);
    assert(q[0] == a && q[1] == b);
    assert(m1.counts@[0] == d1.freq(a) && m1.counts@[1] == d1.freq(b));
    assert(m2.counts@[0] == d2.freq(a) && m2.counts@[1] == d2.freq(b));
    assert(!d2.has_phrase(q)) by {
        if d2.has_phrase(q) {
            let s = choose|s: int| d2.phrase_at(q, s);
            assert(d2.occurs_at(q[1], s + 1));
        }
    }
    let n1 = d1.count as int;
    let n2 = d2.count as int;
    let c1a = d1.freq(a) as int;
    let c1b = d1.freq(b) as int;
    let c2a = d2.freq(a) as int;
    let w0 = w[0];
    let w1 = w[1];
    let s1 = weighted_sum(m1.counts@, w, 2);
    let s2 = weighted_sum(m2.counts@, w, 2);
    assert(weighted_sum(m1.counts@, w, 0) == 0);
    assert(weighted_sum(m1.counts@, w, 1) == c1a * w0);
    assert(s1 == c1a * w0 + c1b * w1);
    assert(weighted_sum(m2.counts@, w, 0) == 0);
    assert(weighted_sum(m2.counts@, w, 1) == c2a * w0);
    assert(s2 == c2a * w0 + 0 * w1);
    assert(m2.boost == 1);
    assert(c1b * w1 > 0) by (nonlinear_arith)
        requires
            c1b > 0,
            w1 > 0,
    ;
    assert(c1a * w0 >= 0) by (nonlinear_arith)
        requires
            c1a >= 0,
            w0 >= 0,
    ;
    let b1 = m1.boost as int;
    let k1 = m1.coverage.0 as int;
    let den1 = m1.score_den();
    assert(den1 == n1 * (m1.coverage.1 as int));
    assert(den1 > 0) by (nonlinear_arith)
        requires
            den1 == n1 * (m1.coverage.1 as int),
            n1 > 0,
            m1.coverage.1 as int >= 1,
    ;
    assert(m1.score_num(w) == s1 * k1 * b1);
    assert(s1 * k1 * b1 > 0) by (nonlinear_arith)
        requires
            s1 > 0,
            k1 >= 1,
            b1 >= 1,
    ;
    if n2 == 0 || c2a == 0 {
        assert(m2.score_num(w) == 0) by (nonlinear_arith)
            requires
                m2.term_count == 0 ==> m2.score_num(w) == 0,
                m2.term_count != 0 ==> m2.score_num(w) == s2 * (m2.coverage.0 as int) * 1,
                n2 == m2.term_count,
                n2 == 0 || c2a == 0,
                s2 == c2a * w0,
        ;
        assert(m2.score_den() >= 1) by (nonlinear_arith)
            requires
                m2.term_count == 0 ==> m2.score_den() == 1,
                m2.term_count != 0 ==> m2.score_den() == m2.term_count * (m2.coverage.1 as int),
                m2.coverage.1 as int >= 1,
        ;
        assert(m1.score_num(w) * m2.score_den() > 0) by (nonlinear_arith)
            requires
                m1.score_num(w) > 0,
                m2.score_den() >= 1,
        ;
    } else {
        assert(c2a > 0 && n2 > 0);
        assert(c1a > 0) by (nonlinear_arith)
            requires
                c1a * n2 == c2a * n1,
                c2a > 0,
                n1 > 0,
                c1a >= 0,
        ;
        assert(m1.coverage == (3u128, 2u128));
        assert(m2.coverage == (1u128, 4u128));
        assert(m2.score_num(w) == c2a * w0);
        assert(m2.score_den() == n2 * 4);
        assert(den1 == n1 * 2);
        assert(s1 * 3 * b1 * (n2 * 4) > c2a * w0 * (n1 * 2)) by (nonlinear_arith)
            requires
                s1 == c1a * w0 + c1b * w1,
                c1a * n2 == c2a * n1,
                c1b * w1 > 0,
                c2a * w0 >= 0,
                c1a * w0 >= 0,
                n1 > 0,
                n2 > 0,
                b1 >= 1,
                w0 >= 0,
                c2a > 0,
        ;
    }
}

} // verus!
