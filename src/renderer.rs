use vstd::prelude::*;

use crate::models::{CaseView, Document, DocumentView};
use crate::parser::find_char;
use crate::text::{chars_of, string_of, trim, trimmed};

verus! {

pub const HEADER_BEGIN_HTML5: &'static str =
    "<!DOCTYPE html>\n<html lang=\"en\">\n    <head>\n        <meta charset=\"UTF-8\">\n";

pub const HEADER_BEGIN_XHTML: &'static str = "<!DOCTYPE html PUBLIC \"-//W3C//DTD XHTML 1.0 Strict//EN\" \"http://www.w3.org/TR/xhtml1/DTD/xhtml1-strict.dtd\">\n<html xmlns=\"http://www.w3.org/1999/xhtml\" lang=\"en\" xml:lang=\"en\">\n    <head>\n        <meta http-equiv=\"Content-type\" content=\"application/xhtml+xml;charset=utf-8\"/>\n";

pub const TITLE_BEGIN: &'static str = "        <title>";

pub const TITLE_END: &'static str = "</title>\n";

pub const HEADER_END: &'static str = "    </head>\n";

pub const BODY_BEGIN: &'static str = "    <body>\n";

pub const BODY_END: &'static str = "    </body>\n</html>\n";

pub const CASE_BEGIN: &'static str = "        <div class=\"case\">\n";

pub const HEADING_BEGIN: &'static str = "            <h4 id=\"";

pub const HEADING_MIDDLE: &'static str = "\">";

pub const HEADING_END: &'static str = "</h4>\n";

pub const TEXT_BEGIN: &'static str = "            <div class=\"text-block\">\n";

pub const PARAGRAPH_BEGIN: &'static str = "                <p>";

pub const PARAGRAPH_END: &'static str = "</p>\n";

pub const TEXT_END: &'static str = "            </div>\n";

pub const CASE_END: &'static str = "        </div>\n";

/// The block of one text: a paragraph holding the text, trimmed.
pub open spec fn text_html(t: Seq<char>) -> Seq<char> {
    TEXT_BEGIN@ + PARAGRAPH_BEGIN@ + trim(t) + PARAGRAPH_END@ + TEXT_END@
}

/// One text block per text, in order.
pub open spec fn texts_html(ts: Seq<Seq<char>>) -> Seq<char>
    decreases ts.len(),
{
    if ts.len() == 0 {
        Seq::empty()
    } else {
        texts_html(ts.drop_last()) + text_html(ts.last())
    }
}

/// The block of one case: its name as identifier and heading, then its texts.
pub open spec fn case_html(c: CaseView) -> Seq<char> {
    CASE_BEGIN@ + HEADING_BEGIN@ + c.name + HEADING_MIDDLE@ + c.name + HEADING_END@ + texts_html(
        c.texts,
    ) + CASE_END@
}

/// One case block per case, in order.
pub open spec fn body_html(cs: Seq<CaseView>) -> Seq<char>
    decreases cs.len(),
{
    if cs.len() == 0 {
        Seq::empty()
    } else {
        body_html(cs.drop_last()) + case_html(cs.last())
    }
}

/// The dialect's doctype, root element and the start of the head.
pub open spec fn header_html(xhtml: bool) -> Seq<char> {
    if xhtml {
        HEADER_BEGIN_XHTML@
    } else {
        HEADER_BEGIN_HTML5@
    }
}

/// Everything of a full page after the dialect's header.
pub open spec fn page_rest(d: DocumentView) -> Seq<char> {
    TITLE_BEGIN@ + d.title + TITLE_END@ + HEADER_END@ + BODY_BEGIN@ + body_html(d.cases)
        + BODY_END@
}

/// The full page of `d` in the chosen dialect.
pub open spec fn page_html(d: DocumentView, xhtml: bool) -> Seq<char> {
    header_html(xhtml) + page_rest(d)
}

/// What `render` returns.
pub open spec fn rendered(d: DocumentView, xhtml: bool, body_only: bool) -> Seq<char> {
    if body_only {
        body_html(d.cases)
    } else {
        page_html(d, xhtml)
    }
}

/// The body fragment: one block per case, one paragraph per text.
pub fn build_body(doc: &Document) -> (r: String)
    ensures
        r@ == body_html(doc@.cases),
{
    let mut html = String::new();
    let cases = doc.content().cases();
    let mut i: usize = 0;
    while i < cases.len()
        invariant
            i <= cases.len(),
            cases@.map_values(|c: crate::models::Case| c@) == doc@.cases,
            html@ == body_html(doc@.cases.subrange(0, i as int)),
        decreases cases.len() - i,
    {
        let case = &cases[i];
        let ghost start = html@;
        html.append(CASE_BEGIN);
        html.append(HEADING_BEGIN);
        html.append(case.name());
        html.append(HEADING_MIDDLE);
        html.append(case.name());
        html.append(HEADING_END);
        let texts = case.texts();
        let ghost head = html@;
        let mut k: usize = 0;
        while k < texts.len()
            invariant
                k <= texts.len(),
                texts@.map_values(|t: String| t@) == case@.texts,
                html@ == head + texts_html(case@.texts.subrange(0, k as int)),
            decreases texts.len() - k,
        {
            let ghost before = html@;
            html.append(TEXT_BEGIN);
            html.append(PARAGRAPH_BEGIN);
            html.append(trimmed(texts[k].as_str()));
            html.append(PARAGRAPH_END);
            html.append(TEXT_END);
            assert(case@.texts.subrange(0, k + 1).drop_last() =~= case@.texts.subrange(0, k as int));
            assert(html@ =~= before + text_html(texts@[k as int]@));
            k += 1;
        }
        html.append(CASE_END);
        assert(case@.texts.subrange(0, texts.len() as int) =~= case@.texts);
        assert(doc@.cases.subrange(0, i + 1).drop_last() =~= doc@.cases.subrange(0, i as int));
        assert(html@ =~= start + case_html(case@));
        i += 1;
    }
    assert(doc@.cases.subrange(0, cases.len() as int) =~= doc@.cases);
    html
}

/// The full page: the dialect's header, the title, and the body fragment
/// inside the body element.
pub fn build_file(doc: &Document, xhtml: bool) -> (r: String)
    ensures
        r@ == page_html(doc@, xhtml),
{
    let mut html = String::new();
    if xhtml {
        html.append(HEADER_BEGIN_XHTML);
    } else {
        html.append(HEADER_BEGIN_HTML5);
    }
    html.append(TITLE_BEGIN);
    html.append(doc.title());
    html.append(TITLE_END);
    html.append(HEADER_END);
    html.append(BODY_BEGIN);
    let body = build_body(doc);
    html.append(body.as_str());
    html.append(BODY_END);
    assert(html@ =~= page_html(doc@, xhtml));
    html
}

/// Renders `doc`: the body fragment alone when `body_only` is set, else the
/// full page in XHTML 1.0 Strict when `xhtml` is set, or in HTML5.
pub fn render(doc: &Document, xhtml: bool, body_only: bool) -> (r: String)
    ensures
        r@ == rendered(doc@, xhtml, body_only),
{
    if body_only {
        build_body(doc)
    } else {
        build_file(doc, xhtml)
    }
}

/// The extension of the output file in each dialect.
pub open spec fn extension(xhtml: bool) -> Seq<char> {
    if xhtml {
        ".xhtml"@
    } else {
        ".html"@
    }
}

/// The name of the output file: `base` and the dialect's extension.
pub fn output_file_name(base: &str, xhtml: bool) -> (r: String)
    ensures
        r@ == base@ + extension(xhtml),
{
    let mut name = base.to_owned();
    if xhtml {
        name.append(".xhtml");
    } else {
        name.append(".html");
    }
    name
}

/// The part of a file name before its first `.`.
pub open spec fn base_of(name: Seq<char>) -> Seq<char> {
    match find_char(name, 0, '.') {
        Some(e) => name.subrange(0, e),
        None => name,
    }
}

/// The file name without everything from its first `.` on.
pub fn base_name(file_name: &str) -> (r: String)
    ensures
        r@ == base_of(file_name@),
{
    let v = chars_of(file_name);
    let mut j: usize = 0;
    while j < v.len() && v[j] != '.'
        invariant
            j <= v.len(),
            find_char(v@, 0, '.') == find_char(v@, j as int, '.'),
            forall|k: int| 0 <= k < j ==> v@[k] != '.',
        decreases v.len() - j,
    {
        j += 1;
    }
    if j == v.len() {
        assert(v@.subrange(0, j as int) =~= v@);
    }
    string_of(&v, 0, j)
}

/// In body-only mode the result is the body fragment alone, whatever the
/// dialect: no doctype, header, root or closing tags.
pub proof fn lemma_body_only_is_fragment(d: DocumentView, xhtml: bool)
    ensures
        rendered(d, xhtml, true) == body_html(d.cases),
{
}

/// Full pages in the two dialects differ only in the header: what follows it,
/// the body included, is the same.
pub proof fn lemma_dialects_differ_in_header(d: DocumentView)
    ensures
        rendered(d, false, false) == HEADER_BEGIN_HTML5@ + page_rest(d),
        rendered(d, true, false) == HEADER_BEGIN_XHTML@ + page_rest(d),
        rendered(d, false, false).subrange(
            HEADER_BEGIN_HTML5@.len() as int,
            rendered(d, false, false).len() as int,
        ) == rendered(d, true, false).subrange(
            HEADER_BEGIN_XHTML@.len() as int,
            rendered(d, true, false).len() as int,
        ),
{
    let h = HEADER_BEGIN_HTML5@;
    let x = HEADER_BEGIN_XHTML@;
    assert((h + page_rest(d)).subrange(h.len() as int, (h + page_rest(d)).len() as int)
        =~= page_rest(d));
    assert((x + page_rest(d)).subrange(x.len() as int, (x + page_rest(d)).len() as int)
        =~= page_rest(d));
}

} // verus!
