//! The decisions of the indexing pipeline: which discovered files are
//! indexed, which content extractor reads each, and the text of markup files.

use vstd::prelude::*;
use vstd::string::StringExecFns;
use crate::tokenizer::chars_of;
use crate::model::{Model, Timestamp};
use xml::reader::{EventReader, XmlEvent};

verus! {

/// How the content of a file is read.
#[derive(Clone, Copy, Debug, PartialEq, Eq, Structural)]
pub enum Format {
    /// Plain UTF-8 text: prose, source code, configuration, markup read as text.
    Text,
    /// XML: the character data of the document.
    Xml,
    /// PDF: the text of its pages.
    Pdf,
}

/// The last component of a path, if it has one.
pub uninterp spec fn file_name_of(path: Seq<char>) -> Option<Seq<char>>;

/// Relies on `Path::file_name`: the final component of the path, unless it
/// is empty or `..`.
#[verifier::external_body]
fn file_name(path: &str) -> (r: Option<String>)
    ensures
        match r {
            Some(n) => file_name_of(path@) == Some(n@),
            None => file_name_of(path@) is None,
        },
{
    std::path::Path::new(path).file_name().map(|n| n.to_string_lossy().into_owned())
}

/// The index of the last dot among the first `i` characters of `n`, or -1.
pub open spec fn last_dot(n: Seq<char>, i: int) -> int
    decreases i,
{
    if i <= 0 {
        -1
    } else if n[i - 1] == '.' {
        i - 1
    } else {
        last_dot(n, i - 1)
    }
}

/// The extension of a file name, as `Path::extension` documents it: what
/// follows its last dot, unless it has no dot or its only dot is its first
/// character.
pub open spec fn extension_of_name(n: Seq<char>) -> Option<Seq<char>> {
    let k = last_dot(n, n.len() as int);
    if k <= 0 {
        None
    } else {
        Some(n.subrange(k + 1, n.len() as int))
    }
}

/// The extension of the last component of a path, if it has one.
pub open spec fn extension_of(path: Seq<char>) -> Option<Seq<char>> {
    match file_name_of(path) {
        Some(n) => extension_of_name(n),
        None => None,
    }
}

/// The extension of a file name.
fn extension_from_name(n: &Vec<char>) -> (r: Option<Vec<char>>)
    ensures
        match r {
            Some(e) => extension_of_name(n@) == Some(e@),
            None => extension_of_name(n@) is None,
        },
{
    let len = n.len();
    let mut i: usize = len;
    while i > 0 && n[i - 1] != '.'
        invariant
            i <= n@.len(),
            len == n@.len(),
            last_dot(n@, len as int) == last_dot(n@, i as int),
        decreases i,
    {
        i -= 1;
    }
    if i <= 1 {
        return None;
    }
    let mut e: Vec<char> = Vec::new();
    let mut j: usize = i;
    while j < len
        invariant
            i <= j <= len,
            len == n@.len(),
            e@ == n@.subrange(i as int, j as int),
        decreases len - j,
    {
        e.push(n[j]);
        j += 1;
        assert(e@ =~= n@.subrange(i as int, j as int));
    }
    Some(e)
}

/// The extension of the file at `path`, if it has one.
fn extension(path: &str) -> (r: Option<String>)
    ensures
        match r {
            Some(e) => extension_of(path@) == Some(e@),
            None => extension_of(path@) is None,
        },
{
    match file_name(path) {
        Some(n) => match extension_from_name(&chars_of(n.as_str())) {
            Some(e) => Some(crate::tokenizer::string_from_chars(e.as_slice())),
            None => None,
        },
        None => None,
    }
}

/// A character with ASCII letters folded to lowercase, as a code point.
pub open spec fn ascii_fold(c: char) -> int {
    if 'A' <= c && c <= 'Z' {
        c as u32 + 32
    } else {
        c as u32 as int
    }
}

/// The extension `e` equals the lowercase `lit`, ignoring ASCII case.
pub open spec fn ext_is(e: Seq<char>, lit: Seq<char>) -> bool {
    e.len() == lit.len() && forall|i: int| 0 <= i < e.len() ==> ascii_fold(#[trigger] e[i]) == lit[i] as u32 as int
}

/// Extensions of files read as plain text.
pub open spec fn is_text_extension(e: Seq<char>) -> bool {
    ext_is(e, "txt"@)
        || ext_is(e, "md"@)
        || ext_is(e, "rs"@)
        || ext_is(e, "js"@)
        || ext_is(e, "jsx"@)
        || ext_is(e, "ts"@)
        || ext_is(e, "tsx"@)
        || ext_is(e, "json"@)
        || ext_is(e, "toml"@)
        || ext_is(e, "yaml"@)
        || ext_is(e, "yml"@)
        || ext_is(e, "py"@)
        || ext_is(e, "go"@)
        || ext_is(e, "java"@)
        || ext_is(e, "kt"@)
        || ext_is(e, "kts"@)
        || ext_is(e, "c"@)
        || ext_is(e, "h"@)
        || ext_is(e, "hpp"@)
        || ext_is(e, "hh"@)
        || ext_is(e, "cpp"@)
        || ext_is(e, "cc"@)
        || ext_is(e, "cxx"@)
        || ext_is(e, "cs"@)
        || ext_is(e, "rb"@)
        || ext_is(e, "php"@)
        || ext_is(e, "html"@)
        || ext_is(e, "htm"@)
        || ext_is(e, "css"@)
        || ext_is(e, "scss"@)
        || ext_is(e, "less"@)
        || ext_is(e, "mdx"@)
        || ext_is(e, "ini"@)
        || ext_is(e, "cfg"@)
        || ext_is(e, "conf"@)
        || ext_is(e, "sh"@)
        || ext_is(e, "bash"@)
        || ext_is(e, "zsh"@)
        || ext_is(e, "fish"@)
        || ext_is(e, "pl"@)
        || ext_is(e, "sql"@)
        || ext_is(e, "gradle"@)
        || ext_is(e, "properties"@)
        || ext_is(e, "r"@)
        || ext_is(e, "tex"@)
        || ext_is(e, "rst"@)
        || ext_is(e, "vue"@)
        || ext_is(e, "svelte"@)
        || ext_is(e, "dart"@)
        || ext_is(e, "erl"@)
        || ext_is(e, "ex"@)
        || ext_is(e, "exs"@)
        || ext_is(e, "lua"@)
        || ext_is(e, "nim"@)
}

/// The content format of a file with extension `e`, if it is indexed at all.
pub open spec fn format_of(e: Seq<char>) -> Option<Format> {
    if ext_is(e, "xml"@) || ext_is(e, "xhtml"@) {
        Some(Format::Xml)
    } else if ext_is(e, "pdf"@) {
        Some(Format::Pdf)
    } else if is_text_extension(e) {
        Some(Format::Text)
    } else {
        None
    }
}

/// A file name that starts with a dot.
pub open spec fn is_hidden(name: Option<Seq<char>>) -> bool {
    match name {
        Some(n) => n.len() > 0 && n[0] == '.',
        None => false,
    }
}

/// The content format of the file at `path`, by its extension.
pub open spec fn format_of_path(path: Seq<char>) -> Option<Format> {
    match extension_of(path) {
        Some(e) => format_of(e),
        None => None,
    }
}

fn ext_eq(e: &Vec<char>, lit: &str) -> (r: bool)
    ensures
        r == ext_is(e@, lit@),
{
    let l = chars_of(lit);
    if e.len() != l.len() {
        return false;
    }
    let mut i: usize = 0;
    while i < e.len()
        invariant
            l@ == lit@,
            e@.len() == l@.len(),
            i <= e@.len(),
            forall|j: int| 0 <= j < i ==> ascii_fold(#[trigger] e@[j]) == l@[j] as u32 as int,
        decreases e@.len() - i,
    {
        let c = e[i];
        let folded: u32 = if 'A' <= c && c <= 'Z' {
            c as u32 + 32
        } else {
            c as u32
        };
        if folded != l[i] as u32 {
            return false;
        }
        i += 1;
    }
    true
}

fn text_extension(e: &Vec<char>) -> (r: bool)
    ensures
        r == is_text_extension(e@),
{
    ext_eq(e, "txt")
        || ext_eq(e, "md")
        || ext_eq(e, "rs")
        || ext_eq(e, "js")
        || ext_eq(e, "jsx")
        || ext_eq(e, "ts")
        || ext_eq(e, "tsx")
        || ext_eq(e, "json")
        || ext_eq(e, "toml")
        || ext_eq(e, "yaml")
        || ext_eq(e, "yml")
        || ext_eq(e, "py")
        || ext_eq(e, "go")
        || ext_eq(e, "java")
        || ext_eq(e, "kt")
        || ext_eq(e, "kts")
        || ext_eq(e, "c")
        || ext_eq(e, "h")
        || ext_eq(e, "hpp")
        || ext_eq(e, "hh")
        || ext_eq(e, "cpp")
        || ext_eq(e, "cc")
        || ext_eq(e, "cxx")
        || ext_eq(e, "cs")
        || ext_eq(e, "rb")
        || ext_eq(e, "php")
        || ext_eq(e, "html")
        || ext_eq(e, "htm")
        || ext_eq(e, "css")
        || ext_eq(e, "scss")
        || ext_eq(e, "less")
        || ext_eq(e, "mdx")
        || ext_eq(e, "ini")
        || ext_eq(e, "cfg")
        || ext_eq(e, "conf")
        || ext_eq(e, "sh")
        || ext_eq(e, "bash")
        || ext_eq(e, "zsh")
        || ext_eq(e, "fish")
        || ext_eq(e, "pl")
        || ext_eq(e, "sql")
        || ext_eq(e, "gradle")
        || ext_eq(e, "properties")
        || ext_eq(e, "r")
        || ext_eq(e, "tex")
        || ext_eq(e, "rst")
        || ext_eq(e, "vue")
        || ext_eq(e, "svelte")
        || ext_eq(e, "dart")
        || ext_eq(e, "erl")
        || ext_eq(e, "ex")
        || ext_eq(e, "exs")
        || ext_eq(e, "lua")
        || ext_eq(e, "nim")
}

/// The content format for a file extension, if such files are indexed.
pub fn format_for_extension(ext: &str) -> (r: Option<Format>)
    ensures
        r == format_of(ext@),
{
    let e = chars_of(ext);
    if ext_eq(&e, "xml") || ext_eq(&e, "xhtml") {
        Some(Format::Xml)
    } else if ext_eq(&e, "pdf") {
        Some(Format::Pdf)
    } else if text_extension(&e) {
        Some(Format::Text)
    } else {
        None
    }
}

/// The content format of the file at `path`, by its extension; none where
/// it has no extension or one that is not indexed.
pub fn format_for_path(path: &str) -> (r: Option<Format>)
    ensures
        r == format_of_path(path@),
{
    match extension(path) {
        Some(e) => format_for_extension(e.as_str()),
        None => None,
    }
}

/// Whether a discovered file is a candidate for indexing: not excluded by
/// the ignore rules (`ignored`), not hidden, and of an indexed format.
pub fn should_index(path: &str, ignored: bool) -> (r: bool)
    ensures
        r == (!ignored && !is_hidden(file_name_of(path@)) && format_of_path(path@) is Some),
{
    if ignored {
        return false;
    }
    let hidden = match file_name(path) {
        Some(n) => {
            let c = chars_of(n.as_str());
            c.len() > 0 && c[0] == '.'
        },
        None => false,
    };
    if hidden {
        return false;
    }
    format_for_path(path).is_some()
}

/// Whether the pipeline reads the file at `path`: it is a candidate
/// (`ignored` tells whether the ignore rules exclude it), its modification
/// time could be read, and the corpus holds no document for it that is as
/// recent.
pub open spec fn plans_extraction(m: Model, path: Seq<char>, ignored: bool, modified: Option<Timestamp>) -> bool {
    &&& !ignored
    &&& !is_hidden(file_name_of(path))
    &&& format_of_path(path) is Some
    &&& modified is Some
    &&& m.needs_reindexing(path, modified.unwrap())
}

/// The decision for one discovered file: the format to read it with, or
/// none where it is skipped. `modified` is none where the file's metadata
/// could not be read.
pub fn plan_file(model: &Model, path: &String, ignored: bool, modified: Option<Timestamp>) -> (r: Option<Format>)
    ensures
        r is Some == plans_extraction(*model, path@, ignored, modified),
        r is Some ==> r == format_of_path(path@),
{
    if !should_index(path.as_str(), ignored) {
        return None;
    }
    let t = match modified {
        Some(t) => t,
        None => return None,
    };
    if !model.requires_reindexing(path, t) {
        return None;
    }
    format_for_path(path.as_str())
}

/// A second run over files that have not changed since the corpus indexed
/// them reads none of them, so it commits nothing.
pub proof fn lemma_unchanged_files_not_read(m: Model, files: Seq<(Seq<char>, bool, Option<Timestamp>)>)
    requires
        forall|i: int|
            0 <= i < files.len() ==> {
                let f = #[trigger] files[i];
                &&& f.2 is Some
                &&& m.doc(f.0) is Some
                &&& m.doc(f.0).unwrap().last_modified == f.2.unwrap()
            },
    ensures
        forall|i: int| 0 <= i < files.len() ==> !plans_extraction(m, #[trigger] files[i].0, files[i].1, files[i].2),
{
    assert forall|i: int| 0 <= i < files.len() implies !plans_extraction(m, #[trigger] files[i].0, files[i].1, files[i].2) by {
        let f = files[i];
        crate::laws::lemma_equal_time_is_current(m, f.0, f.2.unwrap());
    }
}

/// The events of an XML document, each as its character data where it is
/// character data; none where the document is malformed.
pub uninterp spec fn xml_events(doc: Seq<u8>) -> Option<Seq<Option<Seq<char>>>>;

pub open spec fn event_views(v: Seq<Option<String>>) -> Seq<Option<Seq<char>>> {
    v.map_values(
        |o: Option<String>|
            match o {
                Some(s) => Some(s@),
                None => None,
            },
    )
}

/// Relies on xml-rs's `EventReader`: it parses the document into events and
/// stops at the first error.
#[verifier::external_body]
fn xml_character_events(doc: &[u8]) -> (r: Option<Vec<Option<String>>>)
    ensures
        match r {
            Some(v) => xml_events(doc@) == Some(event_views(v@)),
            None => xml_events(doc@) is None,
        },
{
    let events = EventReader::new(doc).into_iter();
    let converted = events.map(|e| e.map(|ev| match ev {
        XmlEvent::Characters(text) => Some(text),
        _ => None,
    }));
    converted.collect::<Result<Vec<Option<String>>, _>>().ok()
}

/// The character data of the events, each run followed by a space.
pub open spec fn text_of_events(ev: Seq<Option<Seq<char>>>) -> Seq<char>
    decreases ev.len(),
{
    if ev.len() == 0 {
        seq![]
    } else {
        text_of_events(ev.drop_last()) + match ev.last() {
            Some(t) => t.push(' '),
            None => seq![],
        }
    }
}

/// The text of an XML document: its character data, each run followed by a
/// space; none where the document is malformed.
pub fn xml_text(doc: &[u8]) -> (r: Option<String>)
    ensures
        match xml_events(doc@) {
            Some(ev) => r is Some && r.unwrap()@ == text_of_events(ev),
            None => r is None,
        },
{
    let events = match xml_character_events(doc) {
        Some(v) => v,
        None => return None,
    };
    let ghost ev = event_views(events@);
    let mut out = String::new();
    let mut i: usize = 0;
    proof {
        reveal_strlit(" ");
    }
    while i < events.len()
        invariant
            ev == event_views(events@),
            i <= events@.len(),
            out@ == text_of_events(ev.subrange(0, i as int)),
            " "@ == seq![' '],
        decreases events@.len() - i,
    {
        assert(ev.subrange(0, i + 1).drop_last() =~= ev.subrange(0, i as int));
        match &events[i] {
            Some(t) => {
                out.append(t.as_str());
                out.append(" ");
                assert(out@ =~= text_of_events(ev.subrange(0, i + 1)));
            },
            None => {
                assert(out@ =~= text_of_events(ev.subrange(0, i + 1)));
            },
        }
        i += 1;
    }
    assert(ev.subrange(0, ev.len() as int) =~= ev);
    Some(out)
}

} // verus!
