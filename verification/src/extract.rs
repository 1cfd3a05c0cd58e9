//! Which extractor turns a file into searchable text, chosen by extension.
//!
//! Plain-text files are searched in place ([`Source::Raw`]); binary document
//! formats are decoded to text first ([`Source::Materialized`]).
use vstd::prelude::*;
use crate::filter::{extension, ext_spec};
use crate::strings::{lower_char, push_char, str_eq, to_ascii_lowercase};
use crate::docx::{docx_fold, docx_xml_to_text};
use std::io::Read;

verus! {

/// Where a file's searchable text lives.
#[derive(Debug)]
pub enum Source {
    /// Search the file on disk as it is.
    Raw,
    /// Text already decoded into memory.
    Materialized(String),
}

/// The families of files the search knows how to read.
#[derive(Clone, Copy, Debug, PartialEq, Eq, Structural)]
pub enum ExtractorKind {
    /// Searched as raw text; also the fallback for unknown extensions.
    PlainText,
    /// xls/xlsx/xlsb/ods, rows as tab-separated lines.
    Spreadsheet,
    /// docx, one line per paragraph.
    Docx,
    /// pdf.
    Pdf,
}

/// Extensions confidently treated as plain text.
pub open spec fn plain_text_exts_spec() -> Seq<Seq<char>> {
    seq![
        "txt"@, "log"@, "xml"@, "json"@, "csv"@, "tsv"@, "md"@, "yml"@, "yaml"@, "toml"@, "ini"@,
        "cfg"@, "conf"@, "html"@, "htm"@, "css"@, "js"@, "ts"@, "rs"@, "py"@, "java"@, "c"@, "h"@,
        "cpp"@, "hpp"@, "cs"@, "go"@, "rb"@, "php"@, "sh"@, "bat"@, "ps1"@, "sql"@, "properties"@
    ]
}

/// The views of a sequence of string slices.
pub open spec fn str_views(v: Seq<&str>) -> Seq<Seq<char>> {
    v.map_values(|s: &str| s@)
}

/// Extensions confidently treated as plain text.
pub fn plain_text_exts() -> (v: Vec<&'static str>)
    ensures
        str_views(v@) == plain_text_exts_spec(),
{
    let v = vec![
        "txt", "log", "xml", "json", "csv", "tsv", "md", "yml", "yaml", "toml", "ini", "cfg", "conf",
        "html", "htm", "css", "js", "ts", "rs", "py", "java", "c", "h", "cpp", "hpp", "cs", "go", "rb",
        "php", "sh", "bat", "ps1", "sql", "properties",
    ];
    assert(str_views(v@) =~= plain_text_exts_spec());
    v
}

impl ExtractorKind {
    /// The lowercase extensions (without the dot) this kind claims.
    pub open spec fn extensions_spec(self) -> Seq<Seq<char>> {
        match self {
            ExtractorKind::PlainText => plain_text_exts_spec(),
            ExtractorKind::Spreadsheet => seq!["xls"@, "xlsx"@, "xlsb"@, "ods"@],
            ExtractorKind::Docx => seq!["docx"@],
            ExtractorKind::Pdf => seq!["pdf"@],
        }
    }

    /// The lowercase extensions this kind claims.
    pub fn extensions(self) -> (v: Vec<&'static str>)
        ensures
            str_views(v@) == self.extensions_spec(),
    {
        match self {
            ExtractorKind::PlainText => plain_text_exts(),
            ExtractorKind::Spreadsheet => {
                let v = vec!["xls", "xlsx", "xlsb", "ods"];
                assert(str_views(v@) =~= self.extensions_spec());
                v
            },
            ExtractorKind::Docx => {
                let v = vec!["docx"];
                assert(str_views(v@) =~= self.extensions_spec());
                v
            },
            ExtractorKind::Pdf => {
                let v = vec!["pdf"];
                assert(str_views(v@) =~= self.extensions_spec());
                v
            },
        }
    }
}

/// The plain-text extractor: files are searched in place as raw text. It is
/// also the fallback for unknown extensions.
#[derive(Clone, Copy, Debug, Default)]
pub struct PlainTextExtractor;

/// Spreadsheets (xls, xlsx, xlsb, ods): rows become tab-separated lines.
#[derive(Clone, Copy, Debug, Default)]
pub struct SpreadsheetExtractor;

/// Word documents (docx): the text of each paragraph as a line.
#[derive(Clone, Copy, Debug, Default)]
pub struct DocxExtractor;

/// PDF documents.
#[derive(Clone, Copy, Debug, Default)]
pub struct PdfExtractor;

impl PlainTextExtractor {
    /// The kind of extraction this is.
    pub fn kind(&self) -> (k: ExtractorKind)
        ensures
            k == ExtractorKind::PlainText,
    {
        ExtractorKind::PlainText
    }

    /// The extensions it claims.
    pub fn extensions(&self) -> (v: Vec<&'static str>)
        ensures
            str_views(v@) == plain_text_exts_spec(),
    {
        plain_text_exts()
    }

    /// A plain-text file is searched where it lies.
    pub fn extract(&self) -> (s: Source)
        ensures
            s is Raw,
    {
        Source::Raw
    }
}

/// The text of the entry `name` of the zip archive held in `bytes`, as
/// `zip::ZipArchive::new`, `by_name` and `read_to_string` give it; `None`
/// when the archive, the entry or its UTF-8 text cannot be read.
pub uninterp spec fn zip_entry_text(bytes: Seq<u8>, name: Seq<char>) -> Option<Seq<char>>;

/// Reads the entry `name` of an in-memory zip archive as text
/// (`ZipArchive::new`, `by_name`, `read_to_string`): exactly
/// [`zip_entry_text`].
#[verifier::external_body]
fn zip_entry(bytes: &[u8], name: &str) -> (r: Option<String>)
    ensures
        r is Some <==> zip_entry_text(bytes@, name@) is Some,
        r matches Some(t) ==> zip_entry_text(bytes@, name@) == Some(t@),
{
    let mut archive = zip::ZipArchive::new(std::io::Cursor::new(bytes)).ok()?;
    let mut entry = archive.by_name(name).ok()?;
    let mut text = String::new();
    entry.read_to_string(&mut text).ok()?;
    Some(text)
}

/// The body text of a docx held in `bytes`: its `word/document.xml` entry
/// turned into text by [`docx_xml_to_text`]; `None` when that entry cannot
/// be read.
pub fn docx_bytes_text(bytes: &[u8]) -> (r: Option<String>)
    ensures
        r is Some <==> zip_entry_text(bytes@, "word/document.xml"@) is Some,
        r matches Some(t) ==> t@ == docx_fold(zip_entry_text(bytes@, "word/document.xml"@)->0, usize::MAX as nat).out,
{
    match zip_entry(bytes, "word/document.xml") {
        Some(xml) => Some(docx_xml_to_text(xml.as_str())),
        None => None,
    }
}

impl SpreadsheetExtractor {
    /// The kind of extraction this is.
    pub fn kind(&self) -> (k: ExtractorKind)
        ensures
            k == ExtractorKind::Spreadsheet,
    {
        ExtractorKind::Spreadsheet
    }

    /// The extensions it claims.
    pub fn extensions(&self) -> (v: Vec<&'static str>)
        ensures
            str_views(v@) == ExtractorKind::Spreadsheet.extensions_spec(),
    {
        ExtractorKind::Spreadsheet.extensions()
    }

    /// A workbook as text, given the text of each cell of each readable
    /// sheet (which the caller reads with calamine): every row as a
    /// tab-separated line (see [`sheets_spec`]).
    pub fn extract(&self, book: &Vec<Vec<Vec<String>>>) -> (r: Source)
        ensures
            r matches Source::Materialized(t) && t@ == sheets_spec(book_views(book@)),
    {
        Source::Materialized(sheets_to_text(book))
    }
}

impl DocxExtractor {
    /// The kind of extraction this is.
    pub fn kind(&self) -> (k: ExtractorKind)
        ensures
            k == ExtractorKind::Docx,
    {
        ExtractorKind::Docx
    }

    /// The extensions it claims.
    pub fn extensions(&self) -> (v: Vec<&'static str>)
        ensures
            str_views(v@) == ExtractorKind::Docx.extensions_spec(),
    {
        ExtractorKind::Docx.extensions()
    }

    /// The document held in `bytes` as text, one line per paragraph (see
    /// [`docx_bytes_text`]); `None` (skip the file) when it cannot be read.
    pub fn extract(&self, bytes: &[u8]) -> (r: Option<Source>)
        ensures
            r is Some <==> zip_entry_text(bytes@, "word/document.xml"@) is Some,
            r matches Some(s) ==> (s matches Source::Materialized(t)
                && t@ == docx_fold(zip_entry_text(bytes@, "word/document.xml"@)->0, usize::MAX as nat).out),
    {
        match docx_bytes_text(bytes) {
            Some(t) => Some(Source::Materialized(t)),
            None => None,
        }
    }
}

impl PdfExtractor {
    /// The kind of extraction this is.
    pub fn kind(&self) -> (k: ExtractorKind)
        ensures
            k == ExtractorKind::Pdf,
    {
        ExtractorKind::Pdf
    }

    /// The extensions it claims.
    pub fn extensions(&self) -> (v: Vec<&'static str>)
        ensures
            str_views(v@) == ExtractorKind::Pdf.extensions_spec(),
    {
        ExtractorKind::Pdf.extensions()
    }
}

/// ASCII lowercase of a text.
pub open spec fn lower(s: Seq<char>) -> Seq<char> {
    s.map_values(|c: char| lower_char(c))
}

/// Whether `ext` is, ignoring ASCII case, one of the plain-text extensions.
pub open spec fn is_known_text_spec(ext: Seq<char>) -> bool {
    plain_text_exts_spec().contains(lower(ext))
}

/// The extension of the last component of a `/`-separated path (see
/// [`path_name_spec`] and [`ext_spec`]).
pub open spec fn path_ext_spec(path: Seq<char>) -> Option<Seq<char>> {
    match path_name_spec(path) {
        Some(n) => ext_spec(n),
        None => None,
    }
}

/// The components of a `/`-separated path that name something: the pieces
/// between slashes that are neither empty nor `.`.
pub open spec fn components(pieces: Seq<Seq<char>>) -> Seq<Seq<char>>
    decreases pieces.len(),
{
    if pieces.len() == 0 {
        seq![]
    } else if pieces.last().len() == 0 || pieces.last() == seq!['.'] {
        components(pieces.drop_last())
    } else {
        components(pieces.drop_last()).push(pieces.last())
    }
}

/// The file name of a `/`-separated path: its last component, unless there
/// is none or it is `..`.
pub open spec fn path_name_spec(path: Seq<char>) -> Option<Seq<char>> {
    let c = components(crate::strings::split_spec(path, seq!['/']));
    if c.len() == 0 || c.last() == seq!['.', '.'] {
        None
    } else {
        Some(c.last())
    }
}

/// The file name of a `/`-separated path (see [`path_name_spec`]).
pub fn file_name(path: &str) -> (r: Option<&str>)
    ensures
        r is Some <==> path_name_spec(path@) is Some,
        r matches Some(n) ==> n@ == path_name_spec(path@)->0,
{
    let pieces = crate::strings::split_chars(path, &['/']);
    let ghost ps = crate::strings::split_spec(path@, seq!['/']);
    proof {
        assert(seq!['/'] =~= ['/']@);
        assert forall|i: int| 0 <= i < ps.len() implies ps[i] == #[trigger] pieces@[i]@ by {
            assert(pieces@.map_values(|w: &str| w@)[i] == pieces@[i]@);
        }
        reveal_strlit(".");
        reveal_strlit("..");
        assert("."@ =~= seq!['.']);
        assert(".."@ =~= seq!['.', '.']);
    }
    let mut last: Option<&str> = None;
    let mut k: usize = 0;
    while k < pieces.len()
        invariant
            ps == crate::strings::split_spec(path@, seq!['/']),
            ps.len() == pieces@.len(),
            forall|i: int| 0 <= i < ps.len() ==> ps[i] == #[trigger] pieces@[i]@,
            0 <= k <= pieces.len(),
            "."@ == seq!['.'],
            ".."@ == seq!['.', '.'],
            last is None <==> components(ps.take(k as int)).len() == 0,
            last matches Some(l) ==> l@ == components(ps.take(k as int)).last(),
        decreases pieces.len() - k,
    {
        let p = pieces[k];
        assert(ps.take(k + 1).drop_last() =~= ps.take(k as int));
        if !crate::strings::is_empty_str(p) && !str_eq(p, ".") {
            last = Some(p);
        }
        k = k + 1;
    }
    assert(ps.take(pieces.len() as int) =~= ps);
    match last {
        Some(l) => if str_eq(l, "..") { None } else { Some(l) },
        None => None,
    }
}

/// Maps lowercase extensions to the extractor kind that handles them;
/// anything unmapped is plain text.
pub struct Registry {
    /// The registered kinds, each stored once; `by_ext` points into it.
    extractors: Vec<ExtractorKind>,
    /// Lowercase extension and the index of its kind in `extractors`.
    by_ext: Vec<(String, usize)>,
}

/// The extensions a kind registers under, lowercased.
pub open spec fn registered_exts(k: ExtractorKind) -> Seq<Seq<char>> {
    k.extensions_spec().map_values(|e: Seq<char>| lower(e))
}

/// Whether extension `e` has a slot in `by`.
pub open spec fn has_key_in(by: Seq<(String, usize)>, e: Seq<char>) -> bool {
    exists|i: int| 0 <= i < by.len() && (#[trigger] by[i]).0@ == e
}

/// The slot of extension `e` in `by`, when it has one.
pub open spec fn slot_in(by: Seq<(String, usize)>, e: Seq<char>) -> int {
    choose|i: int| 0 <= i < by.len() && (#[trigger] by[i]).0@ == e
}

/// No extension has two slots in `by`.
pub open spec fn distinct_keys(by: Seq<(String, usize)>) -> bool {
    forall|i: int, j: int| 0 <= i < j < by.len() ==> by[i].0@ != by[j].0@
}

/// With distinct keys, the slot of a key is where it sits.
proof fn lemma_slot_unique(by: Seq<(String, usize)>, e: Seq<char>, i: int)
    requires
        distinct_keys(by),
        0 <= i < by.len(),
        by[i].0@ == e,
    ensures
        slot_in(by, e) == i,
{
    assert(has_key_in(by, e));
    let c = slot_in(by, e);
    if c < i {
        assert(by[c].0@ != by[i].0@);
    } else if c > i {
        assert(by[i].0@ != by[c].0@);
    }
}

impl Registry {
    /// Every slot points at a registered kind, and no extension has two slots.
    pub closed spec fn wf(&self) -> bool {
        &&& forall|i: int| 0 <= i < self.by_ext@.len() ==> (#[trigger] self.by_ext@[i]).1 < self.extractors@.len()
        &&& distinct_keys(self.by_ext@)
    }

    /// Which kind each mapped extension resolves to.
    pub closed spec fn view(&self) -> Map<Seq<char>, ExtractorKind> {
        Map::new(
            |e: Seq<char>| has_key_in(self.by_ext@, e),
            |e: Seq<char>| self.extractors@[self.by_ext@[slot_in(self.by_ext@, e)].1 as int],
        )
    }

    /// The kind that handles files with (lowercase) extension `e`.
    pub open spec fn kind_for(&self, e: Seq<char>) -> ExtractorKind {
        if self.view().contains_key(e) { self.view()[e] } else { ExtractorKind::PlainText }
    }

    /// A registry with only the plain-text fallback.
    pub fn with_defaults() -> (r: Registry)
        ensures
            r.wf(),
            r.view() == Map::<Seq<char>, ExtractorKind>::empty(),
    {
        let r = Registry { extractors: Vec::new(), by_ext: Vec::new() };
        assert(r.view() =~= Map::<Seq<char>, ExtractorKind>::empty());
        r
    }

    /// Registers `kind` for each of its extensions (lowercased). A later
    /// registration for the same extension wins; other extensions keep
    /// their kind.
    pub fn register(&mut self, kind: ExtractorKind)
        requires
            old(self).wf(),
        ensures
            final(self).wf(),
            forall|e: Seq<char>| #[trigger] final(self).view().contains_key(e)
                <==> (old(self).view().contains_key(e) || registered_exts(kind).contains(e)),
            forall|e: Seq<char>| registered_exts(kind).contains(e) ==> #[trigger] final(self).view()[e] == kind,
            forall|e: Seq<char>| old(self).view().contains_key(e) && !registered_exts(kind).contains(e)
                ==> #[trigger] final(self).view()[e] == old(self).view()[e],
    {
        let ghost ob = old(self).by_ext@;
        let idx = self.extractors.len();
        let exts = kind.extensions();
        let ghost lowered = registered_exts(kind);
        for j in 0..exts.len()
            invariant
                str_views(exts@) == kind.extensions_spec(),
                lowered == registered_exts(kind),
                exts@.len() == lowered.len(),
                ob == old(self).by_ext@,
                idx == old(self).extractors@.len(),
                self.extractors@ == old(self).extractors@,
                old(self).wf(),
                forall|i: int| 0 <= i < self.by_ext@.len() ==> (#[trigger] self.by_ext@[i]).1 <= idx,
                distinct_keys(self.by_ext@),
                forall|e: Seq<char>| #[trigger] has_key_in(self.by_ext@, e)
                    <==> (has_key_in(ob, e) || lowered.take(j as int).contains(e)),
                forall|i: int| 0 <= i < self.by_ext@.len() && lowered.take(j as int).contains(#[trigger] self.by_ext@[i].0@)
                    ==> self.by_ext@[i].1 == idx,
                forall|i: int| 0 <= i < self.by_ext@.len() && !lowered.take(j as int).contains(#[trigger] self.by_ext@[i].0@)
                    ==> exists|m: int| 0 <= m < ob.len() && ob[m] == self.by_ext@[i],
        {
            let ext = to_ascii_lowercase(exts[j]);
            assert(exts@[j as int]@ == kind.extensions_spec()[j as int]);
            assert(ext@ =~= lowered[j as int]);
            let ghost tj = lowered.take(j as int);
            let ghost tj1 = lowered.take(j + 1);
            assert(tj1 =~= tj.push(ext@));
            let mut found: Option<usize> = None;
            let mut s: usize = 0;
            while s < self.by_ext.len()
                invariant
                    0 <= s <= self.by_ext@.len(),
                    found matches Some(f) ==> f < self.by_ext@.len() && self.by_ext@[f as int].0@ == ext@,
                    found is None ==> forall|i: int| 0 <= i < s ==> (#[trigger] self.by_ext@[i]).0@ != ext@,
                decreases self.by_ext@.len() - s,
            {
                if found.is_none() && str_eq(self.by_ext[s].0.as_str(), ext.as_str()) {
                    found = Some(s);
                }
                s = s + 1;
            }
            let ghost before = self.by_ext@;
            match found {
                Some(f) => {
                    let key = self.by_ext[f].0.clone();
                    self.by_ext.set(f, (key, idx));
                    assert(self.by_ext@ =~= before.update(f as int, (key, idx)));
                },
                None => {
                    self.by_ext.push((ext, idx));
                },
            }
            proof {
                let now = self.by_ext@;
                assert forall|i: int| 0 <= i < now.len() implies (#[trigger] now[i]).0@ == if i < before.len() { before[i].0@ } else { ext@ } by {}
                assert forall|e: Seq<char>| #[trigger] has_key_in(now, e)
                    <==> (has_key_in(ob, e) || tj1.contains(e)) by {
                    if has_key_in(now, e) {
                        let i = choose|i: int| 0 <= i < now.len() && (#[trigger] now[i]).0@ == e;
                        if i < before.len() {
                            assert(before[i].0@ == e);
                            assert(has_key_in(before, e));
                        } else {
                            assert(tj1[j as int] == e);
                        }
                    }
                    if has_key_in(ob, e) || tj.contains(e) {
                        assert(has_key_in(before, e));
                        let i = choose|i: int| 0 <= i < before.len() && (#[trigger] before[i]).0@ == e;
                        assert(now[i].0@ == e);
                    }
                    if tj1.contains(e) && !tj.contains(e) {
                        let t = choose|t: int| 0 <= t < tj1.len() && #[trigger] tj1[t] == e;
                        if t < j {
                            assert(tj[t] == e);
                        }
                        match found {
                            Some(f) => assert(now[f as int].0@ == e),
                            None => assert(now[before.len() as int].0@ == e),
                        }
                    }
                }
                assert forall|i: int| 0 <= i < now.len() && tj1.contains(#[trigger] now[i].0@) implies now[i].1 == idx by {
                    if !tj.contains(now[i].0@) {
                        let t = choose|t: int| 0 <= t < tj1.len() && #[trigger] tj1[t] == now[i].0@;
                        if t < j {
                            assert(tj[t] == now[i].0@);
                        }
                        match found {
                            Some(f) => {
                                if i != f {
                                    if i < f { assert(before[i].0@ != before[f as int].0@); }
                                    else { assert(before[f as int].0@ != before[i].0@); }
                                }
                            },
                            None => {
                                if i < before.len() {
                                    assert(before[i].0@ != ext@);
                                }
                            },
                        }
                    }
                }
                assert forall|i: int| 0 <= i < now.len() && !tj1.contains(#[trigger] now[i].0@)
                    implies exists|m: int| 0 <= m < ob.len() && ob[m] == now[i] by {
                    assert(!tj.contains(now[i].0@)) by {
                        if tj.contains(now[i].0@) {
                            let t = choose|t: int| 0 <= t < tj.len() && #[trigger] tj[t] == now[i].0@;
                            assert(tj1[t] == now[i].0@);
                        }
                    }
                    assert(now[i].0@ != ext@) by {
                        assert(tj1[j as int] == ext@);
                    }
                    assert(i < before.len());
                    match found {
                        Some(f) => {
                            assert(i != f);
                            assert(now[i] == before[i]);
                        },
                        None => {},
                    }
                }
            }
        }
        self.extractors.push(kind);
        proof {
            let fb = self.by_ext@;
            assert(lowered.take(lowered.len() as int) =~= lowered);
            assert forall|e: Seq<char>| registered_exts(kind).contains(e) implies #[trigger] self.view()[e] == kind by {
                assert(has_key_in(fb, e));
                let i = slot_in(fb, e);
                assert(fb[i].1 == idx);
            }
            assert forall|e: Seq<char>| old(self).view().contains_key(e) && !registered_exts(kind).contains(e)
                implies #[trigger] self.view()[e] == old(self).view()[e] by {
                assert(has_key_in(fb, e));
                let i = slot_in(fb, e);
                let m = choose|m: int| 0 <= m < ob.len() && ob[m] == fb[i];
                lemma_slot_unique(ob, e, m);
            }
            assert forall|e: Seq<char>| #[trigger] self.view().contains_key(e)
                <==> (old(self).view().contains_key(e) || registered_exts(kind).contains(e)) by {}
        }
    }

    /// The kind that handles a path, by its extension (ASCII case ignored);
    /// plain text for unknown or absent extensions.
    pub fn resolve(&self, path: &str) -> (k: ExtractorKind)
        requires
            self.wf(),
        ensures
            k == match path_ext_spec(path@) {
                Some(e) => self.kind_for(lower(e)),
                None => ExtractorKind::PlainText,
            },
    {
        let ghost mut e_view: Seq<char> = seq![];
        let name = match file_name(path) {
            Some(n) => n,
            None => return ExtractorKind::PlainText,
        };
        let ext = match extension(name) {
            Some(e) => {
                let l = to_ascii_lowercase(e);
                proof { e_view = e@; }
                assert(l@ =~= lower(e@));
                l
            },
            None => return ExtractorKind::PlainText,
        };
        let mut s: usize = 0;
        while s < self.by_ext.len()
            invariant
                self.wf(),
                path_ext_spec(path@) == Some(e_view),
                ext@ == lower(e_view),
                0 <= s <= self.by_ext@.len(),
                forall|i: int| 0 <= i < s ==> (#[trigger] self.by_ext@[i]).0@ != ext@,
            decreases self.by_ext@.len() - s,
        {
            if str_eq(self.by_ext[s].0.as_str(), ext.as_str()) {
                let k = self.extractors[self.by_ext[s].1];
                proof {
                    lemma_slot_unique(self.by_ext@, ext@, s as int);
                    assert(self.view().contains_key(ext@));
                    assert(self.view()[ext@] == k);
                }
                return k;
            }
            s = s + 1;
        }
        ExtractorKind::PlainText
    }

    /// Whether `ext` is, ignoring ASCII case, a plain-text extension.
    pub fn is_known_text(ext: &str) -> (b: bool)
        ensures
            b == is_known_text_spec(ext@),
    {
        let e = to_ascii_lowercase(ext);
        let exts = plain_text_exts();
        let mut i: usize = 0;
        while i < exts.len()
            invariant
                str_views(exts@) == plain_text_exts_spec(),
                e@ == lower(ext@),
                0 <= i <= exts@.len(),
                forall|j: int| 0 <= j < i ==> plain_text_exts_spec()[j] != e@,
            decreases exts@.len() - i,
        {
            if str_eq(exts[i], e.as_str()) {
                assert(plain_text_exts_spec()[i as int] == e@);
                return true;
            }
            i = i + 1;
        }
        false
    }
}

impl Default for Registry {
    /// The same as [`Registry::with_defaults`].
    fn default() -> (r: Registry)
        ensures
            r.wf(),
            r.view() == Map::<Seq<char>, ExtractorKind>::empty(),
    {
        Registry::with_defaults()
    }
}

/// A registry with the spreadsheet, docx and pdf extractors registered, in
/// that order.
pub fn default_registry() -> (r: Registry)
    ensures
        r.wf(),
        forall|e: Seq<char>| #[trigger] r.kind_for(e) == if registered_exts(ExtractorKind::Pdf).contains(e) {
            ExtractorKind::Pdf
        } else if registered_exts(ExtractorKind::Docx).contains(e) {
            ExtractorKind::Docx
        } else if registered_exts(ExtractorKind::Spreadsheet).contains(e) {
            ExtractorKind::Spreadsheet
        } else {
            ExtractorKind::PlainText
        },
{
    let mut reg = Registry::with_defaults();
    reg.register(ExtractorKind::Spreadsheet);
    reg.register(ExtractorKind::Docx);
    reg.register(ExtractorKind::Pdf);
    reg
}

/// A row of cells as a line: the cells separated by tabs, then a newline.
pub open spec fn row_line(cells: Seq<Seq<char>>) -> Seq<char>
    decreases cells.len(),
{
    if cells.len() == 0 {
        seq!['\n']
    } else if cells.len() == 1 {
        cells[0] + seq!['\n']
    } else {
        let prev = row_line(cells.drop_last());
        prev.drop_last() + seq!['\t'] + cells.last() + seq!['\n']
    }
}

/// The text of a workbook: every row of every sheet, in order, as a line.
pub open spec fn sheets_spec(sheets: Seq<Seq<Seq<Seq<char>>>>) -> Seq<char>
    decreases sheets.len(),
{
    if sheets.len() == 0 {
        seq![]
    } else {
        sheets_spec(sheets.drop_last()) + rows_spec(sheets.last())
    }
}

/// The lines of the rows of one sheet.
pub open spec fn rows_spec(rows: Seq<Seq<Seq<char>>>) -> Seq<char>
    decreases rows.len(),
{
    if rows.len() == 0 {
        seq![]
    } else {
        rows_spec(rows.drop_last()) + row_line(rows.last())
    }
}

/// The views of a workbook's cell texts.
pub open spec fn book_views(b: Seq<Vec<Vec<String>>>) -> Seq<Seq<Seq<Seq<char>>>> {
    b.map_values(|sheet: Vec<Vec<String>>| sheet@.map_values(|row: Vec<String>| row@.map_values(|c: String| c@)))
}

/// A row line always ends with its newline.
proof fn lemma_row_line(cells: Seq<Seq<char>>)
    ensures
        row_line(cells).len() > 0,
        row_line(cells).last() == '\n',
    decreases cells.len(),
{
    if cells.len() > 1 {
        lemma_row_line(cells.drop_last());
    }
}

/// The text of a workbook given the text of each cell (see [`sheets_spec`]):
/// rows become tab-separated lines, sheets follow one another.
pub fn sheets_to_text(book: &Vec<Vec<Vec<String>>>) -> (r: String)
    ensures
        r@ == sheets_spec(book_views(book@)),
{
    let ghost bv = book_views(book@);
    let mut out = String::new();
    for s in 0..book.len()
        invariant
            bv == book_views(book@),
            out@ == sheets_spec(bv.take(s as int)),
    {
        let sheet = &book[s];
        let ghost sv = bv[s as int];
        assert(sv == sheet@.map_values(|row: Vec<String>| row@.map_values(|c: String| c@)));
        let ghost start = out@;
        for r in 0..sheet.len()
            invariant
                sv == sheet@.map_values(|row: Vec<String>| row@.map_values(|c: String| c@)),
                out@ == start + rows_spec(sv.take(r as int)),
        {
            let row = &sheet[r];
            let ghost cv = sv[r as int];
            assert(cv == row@.map_values(|c: String| c@));
            let ghost row_start = out@;
            for i in 0..row.len()
                invariant
                    cv == row@.map_values(|c: String| c@),
                    i == 0 ==> out@ == row_start,
                    i > 0 ==> out@ + seq!['\n'] == row_start + row_line(cv.take(i as int)),
            {
                let ghost ob = out@;
                if i > 0 {
                    push_char(&mut out, '\t');
                }
                out.append(row[i].as_str());
                proof {
                    let t = cv.take(i + 1);
                    assert(t.drop_last() =~= cv.take(i as int));
                    assert(t.last() == cv[i as int]);
                    if i == 0 {
                        assert(t.len() == 1);
                        assert(out@ + seq!['\n'] =~= row_start + row_line(t));
                    } else {
                        lemma_row_line(cv.take(i as int));
                        let p = row_line(cv.take(i as int));
                        assert(ob + seq!['\n'] == row_start + p);
                        assert((ob + seq!['\n']).drop_last() =~= ob);
                        assert((row_start + p).drop_last() =~= row_start + p.drop_last());
                        assert(ob =~= row_start + p.drop_last());
                        assert(row_line(t) == p.drop_last() + seq!['\t'] + t.last() + seq!['\n']);
                        assert(out@ =~= ob + seq!['\t'] + t.last());
                        assert(out@ + seq!['\n'] =~= row_start + row_line(t));
                    }
                }
            }
            let ghost before_nl = out@;
            push_char(&mut out, '\n');
            proof {
                assert(cv.take(row.len() as int) =~= cv);
                if row.len() == 0 {
                    assert(out@ =~= row_start + row_line(cv));
                } else {
                    assert(before_nl + seq!['\n'] == row_start + row_line(cv));
                    assert(out@ =~= before_nl + seq!['\n']);
                }
                assert(sv.take(r + 1).drop_last() =~= sv.take(r as int));
                assert(out@ =~= start + rows_spec(sv.take(r + 1)));
            }
        }
        proof {
            assert(sv.take(sheet.len() as int) =~= sv);
            assert(bv.take(s + 1).drop_last() =~= bv.take(s as int));
        }
    }
    assert(bv.take(book.len() as int) =~= bv);
    out
}

/// Whether an extension is known plain text does not depend on its ASCII case.
pub proof fn law_known_text_ignores_case(a: Seq<char>, b: Seq<char>)
    requires
        lower(a) == lower(b),
    ensures
        is_known_text_spec(a) == is_known_text_spec(b),
{
}

} // verus!
