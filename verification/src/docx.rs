//! The text of a Word document body (`word/document.xml`), read with
//! `quick-xml`: the runs of text, one line per paragraph, line breaks and
//! tabs kept.
use vstd::prelude::*;
use crate::strings::{push_char, str_eq};

verus! {

#[verifier::external_type_specification]
#[verifier::external_body]
#[verifier::reject_recursive_types(R)]
pub struct ExXmlReader<R>(quick_xml::Reader<R>);

/// What the XML reader reports, as the text extraction needs it.
pub enum XmlEvent {
    /// An opening tag, by its qualified name.
    Start(String),
    /// A closing tag, by its qualified name.
    End(String),
    /// A self-closing tag, by its qualified name.
    Empty(String),
    /// Character data between tags, as it stands in the document.
    Text(String),
    /// The end of the document, or a read error: nothing more follows.
    Stop,
    /// Anything else (comments, declarations, references, ...).
    Other,
}

/// The kind codes of [`XmlEvent`] in its view.
pub open spec fn event_view(e: XmlEvent) -> (u8, Seq<char>) {
    match e {
        XmlEvent::Start(n) => (0, n@),
        XmlEvent::End(n) => (1, n@),
        XmlEvent::Empty(n) => (2, n@),
        XmlEvent::Text(t) => (3, t@),
        XmlEvent::Stop => (4, seq![]),
        XmlEvent::Other => (5, seq![]),
    }
}

/// The `k`-th event (from 0) that a `quick_xml::Reader` created by
/// `Reader::from_str(xml)` with its default settings reports, in the form of
/// [`event_view`].
pub uninterp spec fn xml_event(xml: Seq<char>, k: nat) -> (u8, Seq<char>);

/// A reader over a document, with the document and the number of events
/// read so far.
pub struct XmlReader<'a> {
    r: quick_xml::Reader<&'a [u8]>,
    source: Ghost<Seq<char>>,
    count: Ghost<nat>,
}

impl<'a> XmlReader<'a> {
    /// The document being read.
    pub closed spec fn source(&self) -> Seq<char> {
        self.source@
    }

    /// How many events have been read.
    pub closed spec fn count(&self) -> nat {
        self.count@
    }

    /// A reader at the start of `xml`.
    pub fn new(xml: &'a str) -> (r: XmlReader<'a>)
        ensures
            r.source() == xml@,
            r.count() == 0,
    {
        XmlReader { r: reader_from_str(xml), source: Ghost(xml@), count: Ghost(0) }
    }
}

/// `quick_xml::Reader::from_str`: a reader at the start of `xml`, with the
/// default settings. The reader is carried opaque.
#[verifier::external_body]
fn reader_from_str<'a>(xml: &'a str) -> quick_xml::Reader<&'a [u8]> {
    quick_xml::Reader::from_str(xml)
}

/// `quick_xml::Reader::read_event` on the reader that `r` holds: the next
/// event of the document, which is the `r.count()`-th one (see
/// [`xml_event`]). Tag names are taken as written; text as it stands in the
/// document (its `into_inner`); the end of the document and any error both
/// read as [`XmlEvent::Stop`].
#[verifier::external_body]
fn read_event(r: &mut XmlReader) -> (e: XmlEvent)
    ensures
        final(r).source() == old(r).source(),
        final(r).count() == old(r).count() + 1,
        event_view(e) == xml_event(old(r).source(), old(r).count()),
{
    match r.r.read_event() {
        Ok(quick_xml::events::Event::Start(s)) => XmlEvent::Start(s.name().as_ref().to_string()),
        Ok(quick_xml::events::Event::End(s)) => XmlEvent::End(s.name().as_ref().to_string()),
        Ok(quick_xml::events::Event::Empty(s)) => XmlEvent::Empty(s.name().as_ref().to_string()),
        Ok(quick_xml::events::Event::Text(t)) => XmlEvent::Text(t.into_inner().into_owned()),
        Ok(quick_xml::events::Event::Eof) | Err(_) => XmlEvent::Stop,
        Ok(_) => XmlEvent::Other,
    }
}

/// What the text extraction has gathered after some events.
pub ghost struct DocxState {
    /// Inside a `w:t` text run.
    pub in_text: bool,
    pub out: Seq<char>,
    /// The document ended (or could not be read further).
    pub stopped: bool,
}

/// One event's effect: `w:t` opens and closes text runs, whose text is kept;
/// a closing `w:p` ends a line; `w:br` and `w:cr` break the line and `w:tab`
/// is a tab; the end of the document stops the reading.
pub open spec fn docx_step(s: DocxState, e: (u8, Seq<char>)) -> DocxState {
    if e.0 == 0 {
        if e.1 == "w:t"@ { DocxState { in_text: true, ..s } } else { s }
    } else if e.0 == 1 {
        if e.1 == "w:t"@ {
            DocxState { in_text: false, ..s }
        } else if e.1 == "w:p"@ {
            DocxState { out: s.out.push('\n'), ..s }
        } else {
            s
        }
    } else if e.0 == 2 {
        if e.1 == "w:br"@ || e.1 == "w:cr"@ {
            DocxState { out: s.out.push('\n'), ..s }
        } else if e.1 == "w:tab"@ {
            DocxState { out: s.out.push('\t'), ..s }
        } else {
            s
        }
    } else if e.0 == 3 {
        if s.in_text { DocxState { out: s.out + e.1, ..s } } else { s }
    } else if e.0 == 4 {
        DocxState { stopped: true, ..s }
    } else {
        s
    }
}

/// The state after the first `n` events of `xml` (nothing changes once the
/// reading stopped).
pub open spec fn docx_fold(xml: Seq<char>, n: nat) -> DocxState
    decreases n,
{
    if n == 0 {
        DocxState { in_text: false, out: seq![], stopped: false }
    } else {
        let s = docx_fold(xml, (n - 1) as nat);
        if s.stopped { s } else { docx_step(s, xml_event(xml, (n - 1) as nat)) }
    }
}

/// Once stopped, the state stays as it is.
proof fn lemma_fold_stays(xml: Seq<char>, m: nat, n: nat)
    requires
        m <= n,
        docx_fold(xml, m).stopped,
    ensures
        docx_fold(xml, n) == docx_fold(xml, m),
    decreases n - m,
{
    if m < n {
        lemma_fold_stays(xml, m, (n - 1) as nat);
    }
}

/// The text of a document body: what [`docx_fold`] gathers over the
/// document's events (at most `usize::MAX` of them).
pub fn docx_xml_to_text(xml: &str) -> (r: String)
    ensures
        r@ == docx_fold(xml@, usize::MAX as nat).out,
{
    let mut reader = XmlReader::new(xml);
    let mut out = String::new();
    let mut in_text = false;
    let mut done = false;
    let mut n: usize = 0;
    while !done && n < usize::MAX
        invariant
            reader.source() == xml@,
            reader.count() == n,
            docx_fold(xml@, n as nat) == (DocxState { in_text: in_text, out: out@, stopped: done }),
        decreases usize::MAX - n + if done { 0int } else { 1int },
    {
        let ghost before = DocxState { in_text: in_text, out: out@, stopped: done };
        let e = read_event(&mut reader);
        match e {
            XmlEvent::Start(name) => {
                if str_eq(name.as_str(), "w:t") {
                    in_text = true;
                }
            },
            XmlEvent::End(name) => {
                if str_eq(name.as_str(), "w:t") {
                    in_text = false;
                } else if str_eq(name.as_str(), "w:p") {
                    push_char(&mut out, '\n');
                }
            },
            XmlEvent::Empty(name) => {
                if str_eq(name.as_str(), "w:br") || str_eq(name.as_str(), "w:cr") {
                    push_char(&mut out, '\n');
                } else if str_eq(name.as_str(), "w:tab") {
                    push_char(&mut out, '\t');
                }
            },
            XmlEvent::Text(t) => {
                if in_text {
                    out.append(t.as_str());
                }
            },
            XmlEvent::Stop => {
                done = true;
            },
            XmlEvent::Other => {},
        }
        n = n + 1;
        assert(docx_fold(xml@, n as nat) == docx_step(before, xml_event(xml@, (n - 1) as nat)));
        assert(docx_fold(xml@, n as nat) =~= (DocxState { in_text: in_text, out: out@, stopped: done }));
    }
    proof {
        if done {
            lemma_fold_stays(xml@, n as nat, usize::MAX as nat);
        }
    }
    out
}

} // verus!
