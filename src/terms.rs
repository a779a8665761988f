//! Per-document term statistics: how many tokens a document has, and for
//! each distinct token the ascending offsets at which it occurs.

use vstd::prelude::*;
use crate::assoc::{find_key, lemma_lookup_at, lemma_lookup_last, lemma_lookup_unique, lookup, unique_keys};
use crate::tokenizer::views;

verus! {

/// Every offset is smaller than the next one.
pub open spec fn strictly_increasing(p: Seq<usize>) -> bool {
    forall|a: int, b: int| 0 <= a < b < p.len() ==> p[a] < p[b]
}

/// Whether the offset list `p` holds `i`.
pub open spec fn holds(p: Seq<usize>, i: int) -> bool {
    exists|j: int| 0 <= j < p.len() && p[j] as int == i
}

/// The mathematical content of term statistics.
pub struct TermsView {
    /// The number of tokens in the document.
    pub count: nat,
    /// For each distinct token, its offsets in the token sequence.
    pub postings: Seq<(Seq<char>, Seq<usize>)>,
}

impl TermsView {
    /// The offsets of `t`, if it occurs.
    pub open spec fn positions(self, t: Seq<char>) -> Option<Seq<usize>> {
        lookup(self.postings, t)
    }

    pub open spec fn contains(self, t: Seq<char>) -> bool {
        self.positions(t) is Some
    }

    /// The number of occurrences of `t`.
    pub open spec fn freq(self, t: Seq<char>) -> nat {
        match self.positions(t) {
            Some(p) => p.len(),
            None => 0,
        }
    }

    /// Whether `t` is the token at offset `i`.
    pub open spec fn occurs_at(self, t: Seq<char>, i: int) -> bool {
        match self.positions(t) {
            Some(p) => holds(p, i),
            None => false,
        }
    }

    /// Keys are unique; each offset list is non-empty, strictly increasing
    /// and below the token count.
    pub open spec fn wf(self) -> bool {
        &&& unique_keys(self.postings)
        &&& forall|j: int|
            0 <= j < self.postings.len() ==> {
                let p = #[trigger] self.postings[j].1;
                &&& p.len() > 0
                &&& strictly_increasing(p)
                &&& forall|k: int| 0 <= k < p.len() ==> p[k] < self.count
            }
    }

    /// The tokens of `q` occur one after another from offset `s` on.
    pub open spec fn phrase_at(self, q: Seq<Seq<char>>, s: int) -> bool {
        forall|k: int| 0 <= k < q.len() ==> #[trigger] self.occurs_at(q[k], s + k)
    }

    /// The non-empty token sequence `q` occurs contiguously and in order.
    pub open spec fn has_phrase(self, q: Seq<Seq<char>>) -> bool {
        q.len() > 0 && exists|s: int| self.phrase_at(q, s)
    }

    /// These statistics describe exactly the token sequence `toks`.
    pub open spec fn indexes(self, toks: Seq<Seq<char>>) -> bool {
        &&& self.count == toks.len()
        &&& self.wf()
        &&& forall|t: Seq<char>| #[trigger] self.contains(t) <==> toks.contains(t)
        &&& forall|t: Seq<char>, i: int|
            0 <= i < toks.len() ==> (#[trigger] self.occurs_at(t, i) <==> toks[i] == t)
    }
}

pub open spec fn postings_view(v: Seq<(String, Vec<usize>)>) -> Seq<(Seq<char>, Seq<usize>)> {
    v.map_values(|e: (String, Vec<usize>)| (e.0@, e.1@))
}

/// Term statistics of one document, built from its token sequence.
pub struct TermStats {
    count: usize,
    postings: Vec<(String, Vec<usize>)>,
}

impl View for TermStats {
    type V = TermsView;

    closed spec fn view(&self) -> TermsView {
        TermsView { count: self.count as nat, postings: postings_view(self.postings@) }
    }
}

/// What holds of the postings built from the first `n` tokens of `toks`.
spec fn built_from(pv: Seq<(Seq<char>, Seq<usize>)>, toks: Seq<Seq<char>>, n: int) -> bool {
    let v = TermsView { count: n as nat, postings: pv };
    &&& v.wf()
    &&& forall|t: Seq<char>|
        #[trigger] v.contains(t) <==> exists|i: int| 0 <= i < n && toks[i] == t
    &&& forall|t: Seq<char>, i: int| 0 <= i < n ==> (#[trigger] v.occurs_at(t, i) <==> toks[i] == t)
}

proof fn lemma_occurs_bounded(v: TermsView, t: Seq<char>, i: int)
    requires
        v.wf(),
        v.occurs_at(t, i),
    ensures
        0 <= i < v.count,
{
    crate::assoc::lemma_lookup_found(v.postings, t);
    let k = choose|k: int| 0 <= k < v.postings.len() && v.postings[k].0 == t && lookup(v.postings, t) == Some(v.postings[k].1);
    let p = v.postings[k].1;
    let j = choose|j: int| 0 <= j < p.len() && p[j] as int == i;
}

/// Adding a token that differs from `t` at offset `n` keeps what is known of `t`.
proof fn lemma_other_token(v0: TermsView, v1: TermsView, tv: Seq<Seq<char>>, n: int, t: Seq<char>)
    requires
        v0.count == n,
        n < tv.len(),
        built_from(v0.postings, tv, n),
        tv[n] != t,
        v1.positions(t) == v0.positions(t),
    ensures
        v1.contains(t) <==> exists|i: int| 0 <= i < n + 1 && tv[i] == t,
        forall|i: int| 0 <= i < n + 1 ==> (v1.occurs_at(t, i) <==> tv[i] == t),
{
    assert(v0 == TermsView { count: n as nat, postings: v0.postings });
    if v0.contains(t) {
        let i = choose|i: int| 0 <= i < n && tv[i] == t;
        assert(0 <= i < n + 1 && tv[i] == t);
    }
    if exists|i: int| 0 <= i < n + 1 && tv[i] == t {
        let i = choose|i: int| 0 <= i < n + 1 && tv[i] == t;
        assert(0 <= i < n && tv[i] == t);
    }
    assert forall|i: int| 0 <= i < n + 1 implies (v1.occurs_at(t, i) <==> tv[i] == t) by {
        if i < n {
            assert(v0.occurs_at(t, i) <==> tv[i] == t);
        } else if v0.occurs_at(t, i) {
            lemma_occurs_bounded(v0, t, i);
        }
    }
}

/// Adding the token `tv[n]` at offset `n` extends its offsets by `n`.
proof fn lemma_same_token(v0: TermsView, v1: TermsView, tv: Seq<Seq<char>>, n: int, ps: Seq<usize>, np: Seq<usize>)
    requires
        v0.count == n,
        0 <= n < tv.len(),
        n <= usize::MAX,
        built_from(v0.postings, tv, n),
        v0.positions(tv[n]) is Some ==> v0.positions(tv[n]) == Some(ps),
        v0.positions(tv[n]) is None ==> ps.len() == 0,
        np == ps.push(n as usize),
        v1.positions(tv[n]) == Some(np),
    ensures
        forall|i: int| 0 <= i < n + 1 ==> (v1.occurs_at(tv[n], i) <==> tv[i] == tv[n]),
{
    let x = tv[n];
    assert(v0 == TermsView { count: n as nat, postings: v0.postings });
    assert forall|i: int| 0 <= i < n + 1 implies (v1.occurs_at(x, i) <==> tv[i] == x) by {
        if i < n {
            assert(v0.occurs_at(x, i) <==> tv[i] == x);
            if tv[i] == x {
                let k = choose|k: int| 0 <= k < ps.len() && ps[k] as int == i;
                assert(np[k] == ps[k]);
                assert(0 <= k < np.len() && np[k] as int == i);
                assert(holds(np, i));
            }
            if v1.occurs_at(x, i) {
                let k = choose|k: int| 0 <= k < np.len() && np[k] as int == i;
                if k == ps.len() {
                    assert(np[k] == n);
                } else {
                    assert(np[k] == ps[k]);
                    assert(v0.positions(x) is Some);
                    assert(v0.positions(x) == Some(ps));
                    assert(0 <= k < ps.len() && ps[k] as int == i);
                    assert(holds(ps, i));
                    assert(v0.occurs_at(x, i));
                }
            }
        } else {
            assert(np[ps.len() as int] == n);
            assert(0 <= ps.len() < np.len() && np[ps.len() as int] as int == i);
            assert(holds(np, i));
        }
    }
}

impl TermStats {
    #[verifier::type_invariant]
    spec fn inv(&self) -> bool {
        self@.wf()
    }

    /// The number of tokens.
    pub fn term_count(&self) -> (r: usize)
        ensures
            r == self@.count,
    {
        self.count
    }

    /// For each distinct token, its offsets in ascending order.
    pub fn postings(&self) -> (r: &Vec<(String, Vec<usize>)>)
        ensures
            postings_view(r@) == self@.postings,
            self@.wf(),
            self@.count <= usize::MAX,
    {
        proof {
            use_type_invariant(self);
        }
        &self.postings
    }

    /// The offsets of `t`, if it occurs.
    pub fn positions_of(&self, t: &String) -> (r: Option<&Vec<usize>>)
        ensures
            match r {
                Some(p) => self@.positions(t@) == Some(p@),
                None => self@.positions(t@) is None,
            },
    {
        match find_key(&self.postings, t) {
            Some(j) => {
                proof {
                    lemma_lookup_last(self@.postings, j as int);
                }
                Some(&self.postings[j].1)
            },
            None => {
                proof {
                    crate::assoc::lemma_lookup_missing(self@.postings, t@);
                }
                None
            },
        }
    }

    /// The number of occurrences of `t`.
    pub fn freq(&self, t: &String) -> (r: usize)
        ensures
            r == self@.freq(t@),
    {
        match self.positions_of(t) {
            Some(p) => p.len(),
            None => 0,
        }
    }

    /// Term statistics from stored parts: a token count and, per token, its
    /// offsets. None where the parts are not well formed (a repeated token,
    /// an empty or unordered offset list, or an offset past the count).
    pub fn from_parts(count: usize, postings: Vec<(String, Vec<usize>)>) -> (r: Option<TermStats>)
        ensures
            match r {
                Some(s) => s@ == (TermsView { count: count as nat, postings: postings_view(postings@) }),
                None => !(TermsView { count: count as nat, postings: postings_view(postings@) }).wf(),
            },
    {
        let ghost v = TermsView { count: count as nat, postings: postings_view(postings@) };
        let ghost pv = postings_view(postings@);
        let mut j: usize = 0;
        while j < postings.len()
            invariant
                pv == postings_view(postings@),
                v == (TermsView { count: count as nat, postings: pv }),
                j <= pv.len(),
                forall|a: int, b: int| 0 <= a < j && 0 <= b < j && a != b ==> pv[a].0 != pv[b].0,
                forall|a: int|
                    0 <= a < j ==> {
                        let p = #[trigger] pv[a].1;
                        &&& p.len() > 0
                        &&& strictly_increasing(p)
                        &&& forall|k: int| 0 <= k < p.len() ==> p[k] < count
                    },
            decreases pv.len() - j,
        {
            let key = &postings[j].0;
            let ps = &postings[j].1;
            assert(pv[j as int].0 == key@ && pv[j as int].1 == ps@);
            let mut a: usize = 0;
            while a < j
                invariant
                    pv == postings_view(postings@),
                    j < pv.len(),
                    pv[j as int].0 == key@,
                    a <= j,
                    forall|b: int| 0 <= b < a ==> pv[b].0 != key@,
                decreases j - a,
            {
                if postings[a].0 == *key {
                    assert(pv[a as int].0 == key@);
                    return None;
                }
                a += 1;
            }
            if ps.len() == 0 {
                return None;
            }
            let mut k: usize = 0;
            while k < ps.len()
                invariant
                    pv == postings_view(postings@),
                    v == (TermsView { count: count as nat, postings: pv }),
                    j < pv.len(),
                    ps@ == pv[j as int].1,
                    ps@.len() > 0,
                    k <= ps@.len(),
                    forall|x: int, y: int| 0 <= x < y < k ==> ps@[x] < ps@[y],
                    forall|x: int| 0 <= x < k ==> ps@[x] < count,
                decreases ps@.len() - k,
            {
                if ps[k] >= count {
                    proof {
                        let p = v.postings[j as int].1;
                        assert(p[k as int] >= count);
                    }
                    return None;
                }
                if k > 0 && ps[k - 1] >= ps[k] {
                    proof {
                        let p = v.postings[j as int].1;
                        assert(p[k - 1] >= p[k as int]);
                    }
                    return None;
                }
                k += 1;
            }
            j += 1;
        }
        Some(TermStats { count, postings })
    }

    /// Counts the tokens of `toks` and records where each one occurs.
    pub fn from_tokens(toks: &Vec<String>) -> (r: TermStats)
        ensures
            r@.indexes(views(toks@)),
    {
        let ghost tv = views(toks@);
        let mut postings: Vec<(String, Vec<usize>)> = Vec::new();
        let mut n: usize = 0;
        while n < toks.len()
            invariant
                n <= toks@.len(),
                tv == views(toks@),
                built_from(postings_view(postings@), tv, n as int),
            decreases toks@.len() - n,
        {
            let ghost old_pv = postings_view(postings@);
            let x = &toks[n];
            assert(tv[n as int] == x@);
            match find_key(&postings, x) {
                Some(j) => {
                    let ghost ps = postings@[j as int].1@;
                    postings[j].1.push(n);
                    proof {
                        let pv = postings_view(postings@);
                        assert(pv =~= old_pv.update(j as int, (x@, ps.push(n))));
                        assert(old_pv[j as int].0 == x@);
                        lemma_lookup_at(old_pv, j as int);
                        lemma_lookup_at(pv, j as int);
                        let v0 = TermsView { count: n as nat, postings: old_pv };
                        let v1 = TermsView { count: (n + 1) as nat, postings: pv };
                        assert forall|t: Seq<char>| t != x@ implies #[trigger] v1.positions(t) == v0.positions(t) by {
                            lemma_lookup_unique(old_pv, t);
                            lemma_lookup_unique(pv, t);
                            if v0.positions(t) is Some {
                                let k = choose|k: int| 0 <= k < old_pv.len() && old_pv[k].0 == t;
                                assert(pv[k] == old_pv[k]);
                            } else if v1.positions(t) is Some {
                                let k = choose|k: int| 0 <= k < pv.len() && pv[k].0 == t;
                                assert(pv[k] == old_pv[k]);
                            }
                        }
                        assert(v1.positions(x@) == Some(ps.push(n)));
                        assert(v0.positions(x@) == Some(ps));
                        lemma_same_token(v0, v1, tv, n as int, ps, ps.push(n));
                        assert(v1.contains(x@) && 0 <= n < n + 1 && tv[n as int] == x@);
                        assert forall|t: Seq<char>, i: int| 0 <= i < n + 1 implies (#[trigger] v1.occurs_at(t, i) <==> tv[i] == t) by {
                            if t != x@ {
                                lemma_other_token(v0, v1, tv, n as int, t);
                            }
                        }
                        assert forall|t: Seq<char>| #[trigger] v1.contains(t) <==> exists|i: int| 0 <= i < n + 1 && tv[i] == t by {
                            if t != x@ {
                                lemma_other_token(v0, v1, tv, n as int, t);
                            } else {
                                assert(0 <= n < n + 1 && tv[n as int] == t);
                            }
                        }
                        assert forall|jj: int| 0 <= jj < pv.len() implies {
                            let p = #[trigger] pv[jj].1;
                            &&& p.len() > 0
                            &&& strictly_increasing(p)
                            &&& forall|k: int| 0 <= k < p.len() ==> p[k] < n + 1
                        } by {
                            if jj == j {
                                assert forall|a: int, b: int| 0 <= a < b < ps.len() + 1 implies ps.push(n)[a] < ps.push(n)[b] by {
                                    assert(old_pv[jj].1 == ps);
                                }
                            } else {
                                assert(pv[jj] == old_pv[jj]);
                            }
                        }
                        assert(unique_keys(pv)) by {
                            assert forall|a: int, b: int| 0 <= a < pv.len() && 0 <= b < pv.len() && a != b implies pv[a].0 != pv[b].0 by {
                                assert(pv[a].0 == old_pv[a].0);
                                assert(pv[b].0 == old_pv[b].0);
                            }
                        }
                    }
                },
                None => {
                    let mut ps: Vec<usize> = Vec::new();
                    ps.push(n);
                    postings.push((x.clone(), ps));
                    proof {
                        let pv = postings_view(postings@);
                        let np = seq![n];
                        assert(ps@ =~= np);
                        assert(pv =~= old_pv.push((x@, np)));
                        assert(pv.drop_last() =~= old_pv);
                        let v0 = TermsView { count: n as nat, postings: old_pv };
                        let v1 = TermsView { count: (n + 1) as nat, postings: pv };
                        lemma_lookup_unique(old_pv, x@);
                        assert(v0.positions(x@) is None);
                        assert forall|t: Seq<char>| t != x@ implies #[trigger] v1.positions(t) == v0.positions(t) by {}
                        assert(v1.positions(x@) == Some(np));
                        assert(Seq::<usize>::empty().push(n) =~= np);
                        lemma_same_token(v0, v1, tv, n as int, Seq::<usize>::empty(), np);
                        assert(v1.contains(x@) && 0 <= n < n + 1 && tv[n as int] == x@);
                        assert forall|t: Seq<char>, i: int| 0 <= i < n + 1 implies (#[trigger] v1.occurs_at(t, i) <==> tv[i] == t) by {
                            if t != x@ {
                                lemma_other_token(v0, v1, tv, n as int, t);
                            }
                        }
                        assert forall|t: Seq<char>| #[trigger] v1.contains(t) <==> exists|i: int| 0 <= i < n + 1 && tv[i] == t by {
                            if t != x@ {
                                lemma_other_token(v0, v1, tv, n as int, t);
                            } else {
                                assert(0 <= n < n + 1 && tv[n as int] == t);
                            }
                        }
                        assert forall|jj: int| 0 <= jj < pv.len() implies {
                            let p = #[trigger] pv[jj].1;
                            &&& p.len() > 0
                            &&& strictly_increasing(p)
                            &&& forall|k: int| 0 <= k < p.len() ==> p[k] < n + 1
                        } by {
                            if jj < old_pv.len() {
                                assert(pv[jj] == old_pv[jj]);
                            }
                        }
                        assert(unique_keys(pv)) by {
                            assert forall|a: int, b: int| 0 <= a < pv.len() && 0 <= b < pv.len() && a != b implies pv[a].0 != pv[b].0 by {
                                if a < old_pv.len() && b < old_pv.len() {
                                    assert(pv[a] == old_pv[a]);
                                    assert(pv[b] == old_pv[b]);
                                } else if a < old_pv.len() {
                                    assert(pv[a] == old_pv[a]);
                                } else if b < old_pv.len() {
                                    assert(pv[b] == old_pv[b]);
                                }
                            }
                        }
                    }
                },
            }
            n += 1;
        }
        let r = TermStats { count: n, postings };
        proof {
            let v = r@;
            assert forall|t: Seq<char>| #[trigger] v.contains(t) <==> tv.contains(t) by {
                if tv.contains(t) {
                    let i = choose|i: int| 0 <= i < tv.len() && tv[i] == t;
                    assert(0 <= i < n && tv[i] == t);
                }
            }
        }
        r
    }
}

/// Whether the strictly increasing offsets `p` hold `x`, by binary search.
pub fn contains_sorted(p: &Vec<usize>, x: usize) -> (r: bool)
    requires
        strictly_increasing(p@),
    ensures
        r == holds(p@, x as int),
{
    let mut lo: usize = 0;
    let mut hi: usize = p.len();
    while lo < hi
        invariant
            strictly_increasing(p@),
            lo <= hi <= p@.len(),
            forall|j: int| 0 <= j < lo ==> p@[j] < x,
            forall|j: int| hi <= j < p@.len() ==> p@[j] > x,
        decreases hi - lo,
    {
        let mid = lo + (hi - lo) / 2;
        if p[mid] == x {
            assert(p@[mid as int] as int == x as int);
            return true;
        } else if p[mid] < x {
            lo = mid + 1;
        } else {
            hi = mid;
        }
    }
    assert forall|j: int| 0 <= j < p@.len() implies p@[j] as int != x as int by {
        if j < lo {
        } else {
        }
    }
    false
}

/// Given that the first query token occurs at `start`, whether the others
/// follow it at the next offsets.
fn matches_at(tokens: &Vec<String>, stats: &TermStats, start: usize) -> (r: bool)
    requires
        tokens@.len() > 0,
        stats@.occurs_at(views(tokens@)[0], start as int),
    ensures
        r == stats@.phrase_at(views(tokens@), start as int),
{
    let ghost q = views(tokens@);
    let ghost d = stats@;
    proof {
        use_type_invariant(stats);
    }
    proof {
        crate::assoc::lemma_lookup_found(d.postings, q[0]);
        let jj = choose|jj: int| 0 <= jj < d.postings.len() && d.postings[jj].0 == q[0] && lookup(d.postings, q[0]) == Some(d.postings[jj].1);
        let m = choose|m: int| 0 <= m < d.postings[jj].1.len() && d.postings[jj].1[m] as int == start as int;
        assert(d.postings[jj].1[m] < d.count);
    }
    let mut expected: usize = start + 1;
    let mut k: usize = 1;
    while k < tokens.len()
        invariant
            q == views(tokens@),
            d == stats@,
            d.wf(),
            d.count <= usize::MAX,
            1 <= k <= tokens@.len(),
            expected == start + k,
            expected <= d.count,
            forall|i: int| 0 <= i < k ==> d.occurs_at(#[trigger] q[i], start + i),
        decreases tokens@.len() - k,
    {
        assert(q[k as int] == tokens@[k as int]@);
        let p = match stats.positions_of(&tokens[k]) {
            Some(p) => p,
            None => {
                assert(!d.occurs_at(q[k as int], start + k));
                return false;
            },
        };
        proof {
            crate::assoc::lemma_lookup_found(d.postings, q[k as int]);
            let jj = choose|jj: int| 0 <= jj < d.postings.len() && d.postings[jj].0 == q[k as int] && lookup(d.postings, q[k as int]) == Some(d.postings[jj].1);
            assert(d.postings[jj].1 == p@);
        }
        if !contains_sorted(p, expected) {
            assert(!d.occurs_at(q[k as int], start + k));
            return false;
        }
        proof {
            crate::assoc::lemma_lookup_found(d.postings, q[k as int]);
            let jj = choose|jj: int| 0 <= jj < d.postings.len() && d.postings[jj].0 == q[k as int] && lookup(d.postings, q[k as int]) == Some(d.postings[jj].1);
            let m = choose|m: int| 0 <= m < p@.len() && p@[m] as int == expected as int;
            assert(p@[m] < d.count);
        }
        expected = expected + 1;
        k += 1;
    }
    true
}

/// Whether the query tokens occur contiguously and in order in `stats`.
/// Candidate starts are the offsets of the first token; each following
/// token is looked for, by binary search, at the next offset.
pub fn phrase_in_doc(tokens: &Vec<String>, stats: &TermStats) -> (r: bool)
    ensures
        r == stats@.has_phrase(views(tokens@)),
{
    let ghost q = views(tokens@);
    let ghost d = stats@;
    if tokens.len() == 0 {
        return false;
    }
    proof {
        use_type_invariant(stats);
    }
    let mut k: usize = 0;
    while k < tokens.len()
        invariant
            q == views(tokens@),
            d == stats@,
            k <= tokens@.len(),
            forall|i: int| 0 <= i < k ==> d.contains(#[trigger] q[i]),
        decreases tokens@.len() - k,
    {
        if stats.positions_of(&tokens[k]).is_none() {
            proof {
                assert(q[k as int] == tokens@[k as int]@);
                assert forall|s: int| !d.phrase_at(q, s) by {
                    assert(!d.occurs_at(q[k as int], s + k));
                }
            }
            return false;
        }
        assert(q[k as int] == tokens@[k as int]@);
        k += 1;
    }
    let first = match stats.positions_of(&tokens[0]) {
        Some(p) => p,
        None => {
            assert(d.contains(q[0]));
            return false;
        },
    };
    proof {
        assert(q[0] == tokens@[0]@);
        crate::assoc::lemma_lookup_found(d.postings, q[0]);
    }
    let mut idx: usize = 0;
    while idx < first.len()
        invariant
            q == views(tokens@),
            d == stats@,
            d.wf(),
            d.count <= usize::MAX,
            tokens@.len() > 0,
            d.positions(q[0]) == Some(first@),
            idx <= first@.len(),
            forall|i: int| 0 <= i < tokens@.len() ==> d.contains(#[trigger] q[i]),
            forall|j: int| 0 <= j < idx ==> !d.phrase_at(q, #[trigger] first@[j] as int),
        decreases first@.len() - idx,
    {
        let start = first[idx];
        proof {
            crate::assoc::lemma_lookup_found(d.postings, q[0]);
            let jj = choose|jj: int| 0 <= jj < d.postings.len() && d.postings[jj].0 == q[0] && lookup(d.postings, q[0]) == Some(d.postings[jj].1);
            assert(d.postings[jj].1 == first@);
            assert(first@[idx as int] < d.count);
        }
        if matches_at(tokens, stats, start) {
            return true;
        }
        idx += 1;
    }
    proof {
        assert forall|s: int| !d.phrase_at(q, s) by {
            if d.phrase_at(q, s) {
                assert(d.occurs_at(q[0], s + 0));
                let j = choose|j: int| 0 <= j < first@.len() && first@[j] as int == s;
                assert(!d.phrase_at(q, first@[j] as int));
            }
        }
    }
    false
}

} // verus!
