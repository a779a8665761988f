//! Splits text into normalized tokens: maximal alphanumeric runs, lowercased
//! and reduced by a suffix-stripping stemmer.

use vstd::prelude::*;

verus! {

/// Whether a character is alphabetic or numeric in Unicode.
pub uninterp spec fn alphanumeric(c: char) -> bool;

/// The Unicode lowercase mapping of a string.
pub uninterp spec fn lowercase(s: Seq<char>) -> Seq<char>;

/// Relies on `char::is_alphanumeric`: the Unicode alphabetic-or-numeric test.
#[verifier::external_body]
fn is_word_char(c: char) -> (r: bool)
    ensures
        r == alphanumeric(c),
{
    c.is_alphanumeric()
}

/// Relies on `str::to_lowercase`: the lowercase mapping, a function of the characters alone.
#[verifier::external_body]
fn to_lower(s: &str) -> (r: String)
    ensures
        r@ == lowercase(s@),
{
    s.to_lowercase()
}

/// Relies on `String`'s `FromIterator<char>`: the string holds exactly these characters.
#[verifier::external_body]
pub(crate) fn string_from_chars(chars: &[char]) -> (r: String)
    ensures
        r@ == chars@,
{
    chars.iter().collect()
}

/// The characters of a string, in order.
pub(crate) fn chars_of(s: &str) -> (r: Vec<char>)
    ensures
        r@ == s@,
{
    broadcast use vstd::string::group_string_axioms;
    let mut r: Vec<char> = Vec::new();
    for c in it: s.chars()
        invariant
            it.seq() == s@,
            r@ == it.history(),
    {
        r.push(c);
    }
    assert(r@ =~= s@);
    r
}

pub open spec fn is_vowel(c: char) -> bool {
    c == 'a' || c == 'e' || c == 'i' || c == 'o' || c == 'u'
}

pub open spec fn has_vowel(s: Seq<char>) -> bool {
    exists|i: int| 0 <= i < s.len() && is_vowel(#[trigger] s[i])
}

pub open spec fn ends_with(w: Seq<char>, suffix: Seq<char>) -> bool {
    suffix.len() <= w.len() && w.subrange(w.len() - suffix.len(), w.len() as int) == suffix
}

/// `w` without its last `n` characters.
pub open spec fn chop(w: Seq<char>, n: int) -> Seq<char> {
    w.subrange(0, w.len() - n)
}

/// Whether dropping a suffix of length `n` leaves a stem of at least three
/// characters that holds a vowel.
pub open spec fn strippable(w: Seq<char>, n: int) -> bool {
    w.len() >= n + 3 && has_vowel(chop(w, n))
}

/// A stem that ends in a doubled consonant other than `l`, `s` or `z` loses
/// one of the two (`runn` becomes `run`).
pub open spec fn undouble(s: Seq<char>) -> Seq<char> {
    if s.len() >= 2 && s[s.len() - 1] == s[s.len() - 2] && !is_vowel(s.last()) && s.last() != 'l'
        && s.last() != 's' && s.last() != 'z' {
        chop(s, 1)
    } else {
        s
    }
}

/// A final `y` after a part that holds a vowel becomes `i` (`pony` and
/// `ponies` share `poni`).
pub open spec fn y_to_i(s: Seq<char>) -> Seq<char> {
    if s.len() >= 2 && s.last() == 'y' && has_vowel(chop(s, 1)) {
        chop(s, 1).push('i')
    } else {
        s
    }
}

/// The suffix-stripping stemmer: the first suffix rule that applies wins,
/// then a final `y` is normalized.
pub open spec fn stem(w: Seq<char>) -> Seq<char> {
    y_to_i(strip_suffix(w))
}

/// The suffix rules of the stemmer.
pub open spec fn strip_suffix(w: Seq<char>) -> Seq<char> {
    if ends_with(w, seq!['s', 's', 'e', 's']) {
        chop(w, 2)
    } else if ends_with(w, seq!['i', 'e', 's']) {
        chop(w, 2)
    } else if ends_with(w, seq!['s', 's']) {
        w
    } else if ends_with(w, seq!['s']) && w.len() > 3 {
        chop(w, 1)
    } else if ends_with(w, seq!['i', 'n', 'g']) && strippable(w, 3) {
        undouble(chop(w, 3))
    } else if ends_with(w, seq!['e', 'd']) && strippable(w, 2) {
        undouble(chop(w, 2))
    } else {
        w
    }
}

/// The token that a maximal alphanumeric run becomes.
pub open spec fn normalize(run: Seq<char>) -> Seq<char> {
    stem(lowercase(run))
}

/// The token of a pending run, if the run is not empty.
pub open spec fn flush(run: Seq<char>) -> Seq<Seq<char>> {
    if run.len() == 0 {
        seq![]
    } else {
        seq![normalize(run)]
    }
}

/// The tokens of `s`, given that `run` is the alphanumeric run just before it.
pub open spec fn tokens_from(s: Seq<char>, run: Seq<char>) -> Seq<Seq<char>>
    decreases s.len(),
{
    if s.len() == 0 {
        flush(run)
    } else if alphanumeric(s[0]) {
        tokens_from(s.drop_first(), run.push(s[0]))
    } else {
        flush(run) + tokens_from(s.drop_first(), seq![])
    }
}

/// The token sequence of a text.
pub open spec fn tokens(s: Seq<char>) -> Seq<Seq<char>> {
    tokens_from(s, seq![])
}

/// The views of a sequence of strings.
pub open spec fn views(v: Seq<String>) -> Seq<Seq<char>> {
    v.map_values(|t: String| t@)
}

fn ends_with_exec(w: &Vec<char>, suffix: Vec<char>) -> (r: bool)
    ensures
        r == ends_with(w@, suffix@),
{
    if suffix.len() > w.len() {
        return false;
    }
    let off = w.len() - suffix.len();
    let mut j: usize = off;
    while j < w.len()
        invariant
            suffix@.len() <= w@.len(),
            off == w@.len() - suffix@.len(),
            off <= j <= w@.len(),
            forall|k: int| off <= k < j ==> w@[k] == suffix@[k - off],
        decreases w@.len() - j,
    {
        if w[j] != suffix[j - off] {
            assert(w@.subrange(off as int, w@.len() as int)[j - off] != suffix@[j - off]);
            return false;
        }
        j += 1;
    }
    assert(w@.subrange(off as int, w@.len() as int) =~= suffix@);
    true
}

fn has_vowel_exec(w: &Vec<char>, end: usize) -> (r: bool)
    requires
        end <= w@.len(),
    ensures
        r == has_vowel(w@.subrange(0, end as int)),
{
    let mut i: usize = 0;
    while i < end
        invariant
            end <= w@.len(),
            i <= end,
            forall|j: int| 0 <= j < i ==> !is_vowel(w@[j]),
        decreases end - i,
    {
        let c = w[i];
        if c == 'a' || c == 'e' || c == 'i' || c == 'o' || c == 'u' {
            assert(w@.subrange(0, end as int)[i as int] == c);
            return true;
        }
        i += 1;
    }
    assert forall|j: int| 0 <= j < end implies !is_vowel(#[trigger] w@.subrange(0, end as int)[j]) by {
        assert(w@.subrange(0, end as int)[j] == w@[j]);
    }
    false
}

fn chop_exec(w: &Vec<char>, n: usize) -> (r: Vec<char>)
    requires
        n <= w@.len(),
    ensures
        r@ == chop(w@, n as int),
{
    let end = w.len() - n;
    let mut r: Vec<char> = Vec::new();
    let mut i: usize = 0;
    while i < end
        invariant
            end == w@.len() - n,
            i <= end,
            r@ == w@.subrange(0, i as int),
        decreases end - i,
    {
        r.push(w[i]);
        i += 1;
        assert(r@ =~= w@.subrange(0, i as int));
    }
    r
}

fn undouble_exec(s: Vec<char>) -> (r: Vec<char>)
    ensures
        r@ == undouble(s@),
{
    let n = s.len();
    if n >= 2 {
        let c = s[n - 1];
        if c == s[n - 2] && !(c == 'a' || c == 'e' || c == 'i' || c == 'o' || c == 'u') && c != 'l' && c != 's'
            && c != 'z' {
            return chop_exec(&s, 1);
        }
    }
    s
}

fn y_to_i_exec(s: Vec<char>) -> (r: Vec<char>)
    ensures
        r@ == y_to_i(s@),
{
    let n = s.len();
    if n >= 2 && s[n - 1] == 'y' && has_vowel_exec(&s, n - 1) {
        let mut r = chop_exec(&s, 1);
        r.push('i');
        return r;
    }
    s
}

/// Reduces a lowercased word to its stem.
pub fn stem_word(w: &Vec<char>) -> (r: Vec<char>)
    ensures
        r@ == stem(w@),
{
    y_to_i_exec(strip_suffix_exec(w))
}

fn strip_suffix_exec(w: &Vec<char>) -> (r: Vec<char>)
    ensures
        r@ == strip_suffix(w@),
{
    assert(chop(w@, 0) =~= w@);
    let n = w.len();
    let sses = ends_with_exec(w, vec!['s', 's', 'e', 's']);
    let ies = ends_with_exec(w, vec!['i', 'e', 's']);
    let ss = ends_with_exec(w, vec!['s', 's']);
    let plural = n > 0 && w[n - 1] == 's';
    assert(plural == ends_with(w@, seq!['s'])) by {
        if n > 0 {
            let sub = w@.subrange(n - 1, n as int);
            assert(sub.len() == 1 && sub[0] == w@[n - 1]);
            if w@[n - 1] == 's' {
                assert(sub =~= seq!['s']);
            } else {
                assert(sub[0] != seq!['s'][0]);
            }
        }
    }
    let ing = ends_with_exec(w, vec!['i', 'n', 'g']);
    let ed = ends_with_exec(w, vec!['e', 'd']);
    if sses {
        chop_exec(w, 2)
    } else if ies {
        chop_exec(w, 2)
    } else if ss {
        chop_exec(w, 0)
    } else if plural && n > 3 {
        chop_exec(w, 1)
    } else if ing && n >= 6 && has_vowel_exec(w, n - 3) {
        undouble_exec(chop_exec(w, 3))
    } else if ed && n >= 5 && has_vowel_exec(w, n - 2) {
        undouble_exec(chop_exec(w, 2))
    } else {
        chop_exec(w, 0)
    }
}

/// The token of a non-empty alphanumeric run.
fn normalize_run(run: &Vec<char>) -> (r: String)
    ensures
        r@ == normalize(run@),
{
    let lowered = to_lower(string_from_chars(run.as_slice()).as_str());
    let stemmed = stem_word(&chars_of(lowered.as_str()));
    string_from_chars(stemmed.as_slice())
}

proof fn lemma_views_push(v: Seq<String>, x: String)
    ensures
        views(v.push(x)) == views(v).push(x@),
{
    assert(views(v.push(x)) =~= views(v).push(x@));
}

/// Splits `text` into tokens: each maximal run of alphanumeric characters,
/// lowercased and stemmed. Every other character only separates runs.
pub fn tokenize(text: &[char]) -> (r: Vec<String>)
    ensures
        views(r@) == tokens(text@),
{
    let mut out: Vec<String> = Vec::new();
    let mut run: Vec<char> = Vec::new();
    let mut i: usize = 0;
    assert(text@.subrange(0, text@.len() as int) =~= text@);
    while i < text.len()
        invariant
            i <= text@.len(),
            views(out@) + tokens_from(text@.subrange(i as int, text@.len() as int), run@)
                == tokens(text@),
        decreases text@.len() - i,
    {
        let rest = Ghost(text@.subrange(i as int, text@.len() as int));
        assert(rest@.drop_first() =~= text@.subrange(i + 1, text@.len() as int));
        let c = text[i];
        if is_word_char(c) {
            run.push(c);
        } else {
            if run.len() > 0 {
                let t = normalize_run(&run);
                proof {
                    lemma_views_push(out@, t);
                    assert(views(out@).push(t@) =~= views(out@) + flush(run@));
                    assert((views(out@) + flush(run@)) + tokens_from(rest@.drop_first(), seq![])
                        =~= views(out@) + (flush(run@) + tokens_from(rest@.drop_first(), seq![])));
                }
                out.push(t);
            } else {
                assert(views(out@) + flush(run@) =~= views(out@));
            }
            run = Vec::new();
        }
        i += 1;
    }
    assert(text@.subrange(i as int, text@.len() as int).len() == 0);
    if run.len() > 0 {
        let t = normalize_run(&run);
        proof {
            lemma_views_push(out@, t);
            assert(views(out@).push(t@) =~= views(out@) + flush(run@));
        }
        out.push(t);
    } else {
        assert(views(out@) + flush(run@) =~= views(out@));
    }
    out
}

} // verus!
