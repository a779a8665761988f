//! The ignore matcher: a gitignore-style pattern set read from the indexed
//! root's ignore file, built once and then only read. It fails open: without
//! a built pattern set nothing is ignored.

use vstd::prelude::*;
use ignore::gitignore::{Gitignore, GitignoreBuilder};
use crate::tokenizer::{chars_of, string_from_chars, views};

verus! {

#[verifier::external_type_specification]
#[verifier::external_body]
pub struct ExGitignore(Gitignore);

#[verifier::external_type_specification]
#[verifier::external_body]
pub struct ExGitignoreBuilder(GitignoreBuilder);

/// Whether a character is white space in Unicode.
pub uninterp spec fn whitespace(c: char) -> bool;

/// The root that a pattern builder matches relative to.
pub uninterp spec fn builder_root(b: GitignoreBuilder) -> Seq<char>;

/// The pattern lines a builder holds, in the order they were added.
pub uninterp spec fn builder_globs(b: GitignoreBuilder) -> Seq<Seq<char>>;

/// The root that a built matcher matches relative to.
pub uninterp spec fn matcher_root(g: Gitignore) -> Seq<char>;

/// The pattern lines a built matcher holds, in the order they were added.
pub uninterp spec fn matcher_globs(g: Gitignore) -> Seq<Seq<char>>;

/// Whether a pattern line parses as a glob.
pub uninterp spec fn glob_line_accepted(line: Seq<char>) -> bool;

/// Whether a matcher can be built from these pattern lines.
pub uninterp spec fn gitignore_builds(globs: Seq<Seq<char>>) -> bool;

/// Whether the matcher with this root and these pattern lines ignores `path`:
/// the last pattern that matches it (directory-only patterns only where
/// `is_dir`) is not a negated one.
pub uninterp spec fn gitignore_ignored(root: Seq<char>, globs: Seq<Seq<char>>, path: Seq<char>, is_dir: bool) -> bool;

/// `s` without one leading `./`.
pub open spec fn without_dot_slash(s: Seq<char>) -> Seq<char> {
    if s.len() >= 2 && s[0] == '.' && s[1] == '/' {
        s.subrange(2, s.len() as int)
    } else {
        s
    }
}

/// Relies on `char::is_whitespace`: the Unicode White_Space property.
#[verifier::external_body]
fn is_space(c: char) -> (r: bool)
    ensures
        r == whitespace(c),
{
    c.is_whitespace()
}

/// Relies on `GitignoreBuilder::new`: an empty builder whose root is `root`
/// without a leading `./`.
#[verifier::external_body]
fn gitignore_builder(root: &str) -> (r: GitignoreBuilder)
    ensures
        builder_root(r) == without_dot_slash(root@),
        builder_globs(r) == Seq::<Seq<char>>::empty(),
{
    GitignoreBuilder::new(root)
}

/// Relies on `GitignoreBuilder::add_line`: a line that is not a comment, not
/// empty and has no trailing white space to trim (or ends in an escaped
/// space) is kept as it is when it parses as a glob; otherwise the builder is
/// left unchanged.
#[verifier::external_body]
fn gitignore_add_line(builder: &mut GitignoreBuilder, line: &str) -> (r: bool)
    requires
        pattern_ready(line@),
    ensures
        r == glob_line_accepted(line@),
        r ==> builder_globs(*final(builder)) == builder_globs(*old(builder)).push(line@),
        r ==> builder_root(*final(builder)) == builder_root(*old(builder)),
        !r ==> *final(builder) == *old(builder),
{
    builder.add_line(None, line).is_ok()
}

/// Relies on `GitignoreBuilder::build`: the matcher keeps the builder's root
/// and lines; a builder without lines always builds.
#[verifier::external_body]
fn gitignore_build(builder: &GitignoreBuilder) -> (r: Option<Gitignore>)
    ensures
        r is Some == gitignore_builds(builder_globs(*builder)),
        builder_globs(*builder).len() == 0 ==> r is Some,
        r is Some ==> matcher_root(r.unwrap()) == builder_root(*builder),
        r is Some ==> matcher_globs(r.unwrap()) == builder_globs(*builder),
{
    builder.build().ok()
}

/// Relies on `Gitignore::matched` and `Match::is_ignore`: the matcher's
/// decision for `path`; a matcher without lines matches nothing.
#[verifier::external_body]
fn gitignore_ignores(matcher: &Gitignore, path: &str, is_dir: bool) -> (r: bool)
    ensures
        r == gitignore_ignored(matcher_root(*matcher), matcher_globs(*matcher), path@, is_dir),
        matcher_globs(*matcher).len() == 0 ==> !r,
{
    matcher.matched(path, is_dir).is_ignore()
}

/// A line without the carriage return that ended it, if any.
pub open spec fn without_cr(l: Seq<char>) -> Seq<char> {
    if l.len() > 0 && l.last() == '\r' {
        l.drop_last()
    } else {
        l
    }
}

/// The lines of `s`, given that `cur` is the unterminated line before it.
pub open spec fn lines_from(s: Seq<char>, cur: Seq<char>) -> Seq<Seq<char>>
    decreases s.len(),
{
    if s.len() == 0 {
        if cur.len() == 0 {
            seq![]
        } else {
            seq![cur]
        }
    } else if s[0] == '\n' {
        seq![without_cr(cur)] + lines_from(s.drop_first(), seq![])
    } else {
        lines_from(s.drop_first(), cur.push(s[0]))
    }
}

/// The lines of a text: split at each line feed, a carriage return before
/// it dropped, with no empty line after a final line feed.
pub open spec fn lines(s: Seq<char>) -> Seq<Seq<char>> {
    lines_from(s, seq![])
}

fn drop_cr(l: &Vec<char>) -> (r: Vec<char>)
    ensures
        r@ == without_cr(l@),
{
    let n = l.len();
    let keep = if n > 0 && l[n - 1] == '\r' {
        n - 1
    } else {
        n
    };
    let mut r: Vec<char> = Vec::new();
    let mut i: usize = 0;
    while i < keep
        invariant
            keep <= l@.len(),
            i <= keep,
            r@ == l@.subrange(0, i as int),
        decreases keep - i,
    {
        r.push(l[i]);
        i += 1;
        assert(r@ =~= l@.subrange(0, i as int));
    }
    assert(l@.drop_last() =~= l@.subrange(0, l@.len() - 1));
    assert(l@.subrange(0, l@.len() as int) =~= l@);
    r
}

/// Splits a text into its lines.
pub fn split_lines(text: &[char]) -> (r: Vec<String>)
    ensures
        views(r@) == lines(text@),
{
    let mut out: Vec<String> = Vec::new();
    let mut cur: Vec<char> = Vec::new();
    let mut i: usize = 0;
    assert(text@.subrange(0, text@.len() as int) =~= text@);
    while i < text.len()
        invariant
            i <= text@.len(),
            views(out@) + lines_from(text@.subrange(i as int, text@.len() as int), cur@) == lines(text@),
        decreases text@.len() - i,
    {
        let ghost rest = text@.subrange(i as int, text@.len() as int);
        assert(rest.drop_first() =~= text@.subrange(i + 1, text@.len() as int));
        let c = text[i];
        if c == '\n' {
            let line = string_from_chars(drop_cr(&cur).as_slice());
            proof {
                assert(views(out@.push(line)) =~= views(out@).push(line@));
                assert(views(out@).push(line@) + lines_from(rest.drop_first(), seq![])
                    =~= views(out@) + (seq![without_cr(cur@)] + lines_from(rest.drop_first(), seq![])));
            }
            out.push(line);
            cur = Vec::new();
        } else {
            cur.push(c);
        }
        i += 1;
    }
    if cur.len() > 0 {
        let line = string_from_chars(cur.as_slice());
        proof {
            assert(views(out@.push(line)) =~= views(out@).push(line@));
            assert(views(out@).push(line@) =~= views(out@) + seq![cur@]);
        }
        out.push(line);
    } else {
        assert(views(out@) + seq![] =~= views(out@));
    }
    out
}

/// `l` without the white space at its end.
pub open spec fn trim_end(l: Seq<char>) -> Seq<char>
    decreases l.len(),
{
    if l.len() > 0 && whitespace(l.last()) {
        trim_end(l.drop_last())
    } else {
        l
    }
}

/// `l` ends in a backslash and a space.
pub open spec fn ends_escaped_space(l: Seq<char>) -> bool {
    l.len() >= 2 && l[l.len() - 2] == '\\' && l[l.len() - 1] == ' '
}

/// A line that needs no more preparation to be added as a pattern: not a
/// comment, not empty, and without trailing white space unless it ends in
/// an escaped space.
pub open spec fn pattern_ready(l: Seq<char>) -> bool {
    &&& l.len() > 0
    &&& l[0] != '#'
    &&& (ends_escaped_space(l) || !whitespace(l.last()))
}

/// The pattern a line of an ignore file stands for: none for a comment or a
/// blank line; otherwise the line without its trailing white space, unless it
/// ends in an escaped space.
pub open spec fn pattern_of(l: Seq<char>) -> Option<Seq<char>> {
    if l.len() > 0 && l[0] == '#' {
        None
    } else {
        let t = if ends_escaped_space(l) {
            l
        } else {
            trim_end(l)
        };
        if t.len() == 0 {
            None
        } else {
            Some(t)
        }
    }
}

/// The patterns that the lines `ls` add to a matcher: those of non-comment,
/// non-blank lines that parse as globs, in order.
pub open spec fn accepted_globs(ls: Seq<Seq<char>>) -> Seq<Seq<char>>
    decreases ls.len(),
{
    if ls.len() == 0 {
        seq![]
    } else {
        accepted_globs(ls.drop_last()) + match pattern_of(ls.last()) {
            Some(t) => if glob_line_accepted(t) {
                seq![t]
            } else {
                seq![]
            },
            None => seq![],
        }
    }
}

/// The patterns of the text of an ignore file.
pub open spec fn pattern_globs(text: Seq<char>) -> Seq<Seq<char>> {
    accepted_globs(lines(text))
}

/// Without an ignore file (its text empty) there are no patterns, so after
/// the first `init` nothing is ignored.
pub proof fn lemma_no_ignore_file_no_patterns()
    ensures
        pattern_globs(Seq::<char>::empty()) == Seq::<Seq<char>>::empty(),
{
    assert(lines(Seq::<char>::empty()) =~= Seq::<Seq<char>>::empty());
}

/// The pattern of one line of an ignore file, if it has one.
fn pattern_line(line: &String) -> (r: Option<String>)
    ensures
        match r {
            Some(t) => pattern_of(line@) == Some(t@) && pattern_ready(t@),
            None => pattern_of(line@) is None,
        },
{
    let l = chars_of(line.as_str());
    let n = l.len();
    if n > 0 && l[0] == '#' {
        return None;
    }
    if n >= 2 && l[n - 2] == '\\' && l[n - 1] == ' ' {
        let t = string_from_chars(l.as_slice());
        return Some(t);
    }
    let mut end: usize = n;
    assert(l@.subrange(0, n as int) =~= l@);
    while end > 0 && is_space(l[end - 1])
        invariant
            end <= l@.len(),
            trim_end(l@) == trim_end(l@.subrange(0, end as int)),
        decreases end,
    {
        assert(l@.subrange(0, end as int).drop_last() =~= l@.subrange(0, end - 1));
        end -= 1;
    }
    proof {
        assert(l@.subrange(0, n as int) =~= l@);
        let t = l@.subrange(0, end as int);
        if end > 0 {
            assert(t.last() == l@[end - 1]);
        }
        assert(trim_end(t) == t);
    }
    if end == 0 {
        return None;
    }
    let mut kept: Vec<char> = Vec::new();
    let mut i: usize = 0;
    while i < end
        invariant
            end <= l@.len(),
            i <= end,
            kept@ == l@.subrange(0, i as int),
        decreases end - i,
    {
        kept.push(l[i]);
        i += 1;
        assert(kept@ =~= l@.subrange(0, i as int));
    }
    proof {
        assert(kept@.last() == l@[end - 1]);
    }
    Some(string_from_chars(kept.as_slice()))
}

/// The pattern set of one indexing root, built at most once.
pub struct IgnoreRules {
    initialized: bool,
    matcher: Option<Gitignore>,
    root: Ghost<Seq<char>>,
    globs: Ghost<Seq<Seq<char>>>,
}

impl IgnoreRules {
    #[verifier::type_invariant]
    spec fn inv(&self) -> bool {
        match self.matcher {
            Some(g) => matcher_root(g) == self.root@ && matcher_globs(g) == self.globs@,
            None => true,
        }
    }

    /// Whether `init` has run.
    pub closed spec fn is_initialized(&self) -> bool {
        self.initialized
    }

    /// Whether a pattern set was built.
    pub closed spec fn has_matcher(&self) -> bool {
        self.matcher is Some
    }

    /// The root that paths are matched relative to.
    pub closed spec fn root(&self) -> Seq<char> {
        self.root@
    }

    /// The patterns of the pattern set, in file order.
    pub closed spec fn globs(&self) -> Seq<Seq<char>> {
        self.globs@
    }

    /// Rules that are not initialized yet and ignore nothing.
    pub fn new() -> (r: IgnoreRules)
        ensures
            !r.is_initialized(),
            !r.has_matcher(),
    {
        IgnoreRules { initialized: false, matcher: None, root: Ghost(Seq::empty()), globs: Ghost(Seq::empty()) }
    }

    /// Whether a pattern set was built; where not, nothing is ignored.
    pub fn is_active(&self) -> (r: bool)
        ensures
            r == self.has_matcher(),
    {
        self.matcher.is_some()
    }
}

/// Builds the pattern set from the text of the ignore file at `root` (empty
/// where there is none): each line that is not a comment or blank, without
/// its trailing white space, is a pattern, and lines that are not valid
/// patterns are skipped. Where the set cannot be built, none is kept. Only
/// the first call builds; later calls change nothing.
pub fn init(rules: &mut IgnoreRules, root: &str, patterns: &[char])
    ensures
        final(rules).is_initialized(),
        old(rules).is_initialized() ==> *final(rules) == *old(rules),
        !old(rules).is_initialized() ==> {
            &&& final(rules).root() == without_dot_slash(root@)
            &&& final(rules).globs() == pattern_globs(patterns@)
            &&& final(rules).has_matcher() == gitignore_builds(pattern_globs(patterns@))
        },
{
    if rules.initialized {
        return;
    }
    let mut builder = gitignore_builder(root);
    let lines = split_lines(patterns);
    let ghost lv = views(lines@);
    let mut i: usize = 0;
    while i < lines.len()
        invariant
            lv == views(lines@),
            i <= lines@.len(),
            builder_root(builder) == without_dot_slash(root@),
            builder_globs(builder) == accepted_globs(lv.subrange(0, i as int)),
        decreases lines@.len() - i,
    {
        let ghost before = builder_globs(builder);
        proof {
            let pre = lv.subrange(0, i + 1);
            assert(pre.drop_last() =~= lv.subrange(0, i as int));
            assert(pre.last() == lines@[i as int]@);
        }
        match pattern_line(&lines[i]) {
            Some(t) => {
                if gitignore_add_line(&mut builder, t.as_str()) {
                    assert(builder_globs(builder) =~= before + seq![t@]);
                } else {
                    assert(before =~= before + Seq::<Seq<char>>::empty());
                }
            },
            None => {
                assert(before =~= before + Seq::<Seq<char>>::empty());
            },
        }
        i += 1;
    }
    assert(lv.subrange(0, lv.len() as int) =~= lv);
    let matcher = gitignore_build(&builder);
    *rules = IgnoreRules {
        initialized: true,
        matcher,
        root: Ghost(builder_root(builder)),
        globs: Ghost(builder_globs(builder)),
    };
}

/// Whether `path` is excluded by the pattern set: the decision of the built
/// matcher. Before initialization, where no pattern set could be built, or
/// where the set has no patterns, nothing is excluded.
pub fn is_ignored(rules: &IgnoreRules, path: &str, is_dir: bool) -> (r: bool)
    ensures
        r == (rules.has_matcher() && gitignore_ignored(rules.root(), rules.globs(), path@, is_dir)),
        rules.globs().len() == 0 ==> !r,
{
    proof {
        use_type_invariant(rules);
    }
    match &rules.matcher {
        Some(m) => gitignore_ignores(m, path, is_dir),
        None => false,
    }
}

} // verus!
