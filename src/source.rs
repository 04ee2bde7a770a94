use vstd::prelude::*;

use crate::models::{CaseView, DocumentView};
use crate::parser::{
    case_block, case_blocks, char_at, content_block, document_parse, is_space, kw_case,
    kw_content, kw_text, kw_title, lemma_find_char_to, lemma_line_end_to,
    lemma_skip_space_bounds, lemma_skip_space_stops, lemma_skip_space_to,
    lemma_skip_space_within, skip_space, starts_at, text_block, text_blocks, title_line, Rule,
};
use crate::renderer::{body_html, case_html, texts_html};
use crate::text::{is_white_space, trim, trim_start};

verus! {

/// The white space around one text block: before `text`, and between `text`
/// and its `{`.
pub struct TextLayout {
    pub before: Seq<char>,
    pub after_keyword: Seq<char>,
}

/// The white space around one case: before `case`, between `)` and `{`, the
/// text blocks' own, and before the closing `}`.
pub struct CaseLayout {
    pub before: Seq<char>,
    pub after_name: Seq<char>,
    pub texts: Seq<TextLayout>,
    pub before_close: Seq<char>,
}

/// How a document is laid out in source: the title's line ending, the white
/// space between the tokens, and any input after the closing brace.
pub struct Layout {
    pub line_ending: Seq<char>,
    pub before_content: Seq<char>,
    pub after_keyword: Seq<char>,
    pub cases: Seq<CaseLayout>,
    pub before_close: Seq<char>,
    pub trailing: Seq<char>,
}

pub open spec fn all_space(w: Seq<char>) -> bool {
    forall|k: int| 0 <= k < w.len() ==> is_space(#[trigger] w[k])
}

pub open spec fn lacks(w: Seq<char>, c: char) -> bool {
    forall|k: int| 0 <= k < w.len() ==> #[trigger] w[k] != c
}

/// `t` written as a text block.
pub open spec fn text_source(t: Seq<char>, l: TextLayout) -> Seq<char> {
    l.before + kw_text() + l.after_keyword + seq!['{'] + t + seq!['}']
}

pub open spec fn texts_source(ts: Seq<Seq<char>>, ls: Seq<TextLayout>) -> Seq<char>
    decreases ts.len(),
{
    if ts.len() == 0 || ls.len() == 0 {
        Seq::empty()
    } else {
        text_source(ts[0], ls[0]) + texts_source(ts.drop_first(), ls.drop_first())
    }
}

/// `c` written as a case block.
pub open spec fn case_source(c: CaseView, l: CaseLayout) -> Seq<char> {
    l.before + kw_case() + seq!['('] + c.name + seq![')'] + l.after_name + seq!['{']
        + texts_source(c.texts, l.texts) + l.before_close + seq!['}']
}

pub open spec fn cases_source(cs: Seq<CaseView>, ls: Seq<CaseLayout>) -> Seq<char>
    decreases cs.len(),
{
    if cs.len() == 0 || ls.len() == 0 {
        Seq::empty()
    } else {
        case_source(cs[0], ls[0]) + cases_source(cs.drop_first(), ls.drop_first())
    }
}

/// The content block of a document with cases `cs`, written with layout `l`.
pub open spec fn content_source(cs: Seq<CaseView>, l: Layout) -> Seq<char> {
    l.before_content + kw_content() + l.after_keyword + seq!['{'] + cases_source(cs, l.cases)
        + l.before_close + seq!['}']
}

/// `d` written as source text with layout `l`.
pub open spec fn document_source(d: DocumentView, l: Layout) -> Seq<char> {
    seq!['\t'] + kw_title() + d.title + l.line_ending + content_source(d.cases, l) + l.trailing
}

pub open spec fn text_fits(t: Seq<char>, l: TextLayout) -> bool {
    all_space(l.before) && all_space(l.after_keyword) && lacks(t, '}')
}

pub open spec fn case_fits(c: CaseView, l: CaseLayout) -> bool {
    &&& all_space(l.before)
    &&& all_space(l.after_name)
    &&& all_space(l.before_close)
    &&& lacks(c.name, ')')
    &&& l.texts.len() == c.texts.len()
    &&& forall|i: int| 0 <= i < c.texts.len() ==> text_fits(#[trigger] c.texts[i], l.texts[i])
}

/// The layout only adds white space between tokens, and the document's
/// strings hold none of the delimiters that end them.
pub open spec fn document_fits(d: DocumentView, l: Layout) -> bool {
    &&& lacks(d.title, '\r')
    &&& lacks(d.title, '\n')
    &&& (l.line_ending == seq!['\n'] || l.line_ending == seq!['\r', '\n'])
    &&& all_space(l.before_content)
    &&& all_space(l.after_keyword)
    &&& all_space(l.before_close)
    &&& l.cases.len() == d.cases.len()
    &&& forall|i: int| 0 <= i < d.cases.len() ==> case_fits(#[trigger] d.cases[i], l.cases[i])
}

/// `t` without its leading spaces, as the grammar reads a text block.
pub open spec fn strip_spaces(t: Seq<char>) -> Seq<char> {
    t.subrange(skip_space(t, 0), t.len() as int)
}

pub open spec fn strip_case(c: CaseView) -> CaseView {
    CaseView { name: c.name, texts: c.texts.map_values(|t: Seq<char>| strip_spaces(t)) }
}

/// `d` as the parser reads it back from its source.
pub open spec fn stripped(d: DocumentView) -> DocumentView {
    DocumentView { title: d.title, cases: d.cases.map_values(|c: CaseView| strip_case(c)) }
}

proof fn lemma_split(s: Seq<char>, p: int, x: Seq<char>, y: Seq<char>)
    requires
        starts_at(s, p, x + y),
    ensures
        starts_at(s, p, x),
        starts_at(s, p + x.len(), y),
{
    let whole = s.subrange(p, p + x.len() + y.len());
    assert(s.subrange(p, p + x.len()) =~= whole.subrange(0, x.len() as int));
    assert(whole.subrange(0, x.len() as int) =~= x);
    assert(s.subrange(p + x.len(), p + x.len() + y.len()) =~= whole.subrange(
        x.len() as int,
        whole.len() as int,
    ));
    assert(whole.subrange(x.len() as int, whole.len() as int) =~= y);
}

proof fn lemma_chars(s: Seq<char>, p: int, x: Seq<char>)
    requires
        starts_at(s, p, x),
    ensures
        forall|k: int| p <= k < p + x.len() ==> #[trigger] s[k] == x[k - p],
{
    assert forall|k: int| p <= k < p + x.len() implies #[trigger] s[k] == x[k - p] by {
        assert(s.subrange(p, p + x.len())[k - p] == s[k]);
    }
}

proof fn lemma_text_parse(s: Seq<char>, p: int, t: Seq<char>, l: TextLayout)
    requires
        text_fits(t, l),
        starts_at(s, p, text_source(t, l)),
    ensures
        text_block(s, p) == Some((strip_spaces(t), p + text_source(t, l).len())),
{
    let x1 = l.before;
    let x2 = x1 + kw_text();
    let x3 = x2 + l.after_keyword;
    let x4 = x3 + seq!['{'];
    let x5 = x4 + t;
    lemma_split(s, p, x5, seq!['}']);
    lemma_split(s, p, x4, t);
    lemma_split(s, p, x3, seq!['{']);
    lemma_split(s, p, x2, l.after_keyword);
    lemma_split(s, p, x1, kw_text());
    let p1 = p + x1.len();
    let p2 = p1 + 4;
    let p3 = p2 + l.after_keyword.len();
    let p4 = p3 + 1;
    let p5 = p4 + t.len();
    lemma_chars(s, p, x1);
    lemma_chars(s, p1, kw_text());
    lemma_chars(s, p2, l.after_keyword);
    lemma_chars(s, p3, seq!['{']);
    lemma_chars(s, p4, t);
    lemma_chars(s, p5, seq!['}']);
    assert(s[p1] == 't');
    lemma_skip_space_to(s, p, p1);
    assert(s[p3] == '{');
    lemma_skip_space_to(s, p2, p3);
    assert(s[p5] == '}');
    lemma_skip_space_within(s, p4, t, 0);
    lemma_skip_space_bounds(t, 0);
    let c = p4 + skip_space(t, 0);
    lemma_find_char_to(s, c, p5, '}');
    assert(s.subrange(c, p5) =~= strip_spaces(t));
}

proof fn lemma_no_keyword_at_brace(s: Seq<char>, i: int, kw: Seq<char>)
    requires
        char_at(s, i, '}'),
        kw.len() > 0,
        kw[0] != '}',
    ensures
        !starts_at(s, i, kw),
{
    if starts_at(s, i, kw) {
        assert(s.subrange(i, i + kw.len())[0] == s[i]);
    }
}

proof fn lemma_texts_parse(s: Seq<char>, p: int, ts: Seq<Seq<char>>, ls: Seq<TextLayout>)
    requires
        ls.len() == ts.len(),
        forall|i: int| 0 <= i < ts.len() ==> text_fits(#[trigger] ts[i], ls[i]),
        starts_at(s, p, texts_source(ts, ls)),
        char_at(s, skip_space(s, p + texts_source(ts, ls).len()), '}'),
    ensures
        text_blocks(s, p) == (
            ts.map_values(|t: Seq<char>| strip_spaces(t)),
            p + texts_source(ts, ls).len(),
        ),
    decreases ts.len(),
{
    if ts.len() == 0 {
        lemma_no_keyword_at_brace(s, skip_space(s, p), kw_text());
        assert(ts.map_values(|t: Seq<char>| strip_spaces(t)) =~= Seq::<Seq<char>>::empty());
    } else {
        let first = text_source(ts[0], ls[0]);
        let rest = texts_source(ts.drop_first(), ls.drop_first());
        lemma_split(s, p, first, rest);
        assert(text_fits(ts[0], ls[0]));
        lemma_text_parse(s, p, ts[0], ls[0]);
        assert forall|i: int| 0 <= i < ts.drop_first().len() implies text_fits(
            #[trigger] ts.drop_first()[i],
            ls.drop_first()[i],
        ) by {
            assert(text_fits(ts[i + 1], ls[i + 1]));
        }
        lemma_texts_parse(s, p + first.len(), ts.drop_first(), ls.drop_first());
        assert(seq![strip_spaces(ts[0])] + ts.drop_first().map_values(
            |t: Seq<char>| strip_spaces(t),
        ) =~= ts.map_values(|t: Seq<char>| strip_spaces(t)));
    }
}

proof fn lemma_case_parse(s: Seq<char>, p: int, c: CaseView, l: CaseLayout)
    requires
        case_fits(c, l),
        starts_at(s, p, case_source(c, l)),
    ensures
        case_block(s, p) == Some((strip_case(c), p + case_source(c, l).len())),
{
    let body = texts_source(c.texts, l.texts);
    let x1 = l.before;
    let x2 = x1 + kw_case();
    let x3 = x2 + seq!['('];
    let x4 = x3 + c.name;
    let x5 = x4 + seq![')'];
    let x6 = x5 + l.after_name;
    let x7 = x6 + seq!['{'];
    let x8 = x7 + body;
    let x9 = x8 + l.before_close;
    lemma_split(s, p, x9, seq!['}']);
    lemma_split(s, p, x8, l.before_close);
    lemma_split(s, p, x7, body);
    lemma_split(s, p, x6, seq!['{']);
    lemma_split(s, p, x5, l.after_name);
    lemma_split(s, p, x4, seq![')']);
    lemma_split(s, p, x3, c.name);
    lemma_split(s, p, x2, seq!['(']);
    lemma_split(s, p, x1, kw_case());
    let p1 = p + x1.len();
    let p2 = p1 + 4;
    let p3 = p2 + 1;
    let p4 = p3 + c.name.len();
    let p5 = p4 + 1;
    let p6 = p5 + l.after_name.len();
    let p7 = p6 + 1;
    let p8 = p7 + body.len();
    let p9 = p8 + l.before_close.len();
    lemma_chars(s, p, x1);
    lemma_chars(s, p1, kw_case());
    lemma_chars(s, p2, seq!['(']);
    lemma_chars(s, p3, c.name);
    lemma_chars(s, p4, seq![')']);
    lemma_chars(s, p5, l.after_name);
    lemma_chars(s, p6, seq!['{']);
    lemma_chars(s, p8, l.before_close);
    lemma_chars(s, p9, seq!['}']);
    assert(s[p1] == 'c');
    lemma_skip_space_to(s, p, p1);
    assert(s[p2] == '(');
    assert(s[p4] == ')');
    lemma_find_char_to(s, p3, p4, ')');
    assert(s[p6] == '{');
    lemma_skip_space_to(s, p5, p6);
    assert(s[p9] == '}');
    lemma_skip_space_to(s, p8, p9);
    lemma_texts_parse(s, p7, c.texts, l.texts);
    assert(s.subrange(p3, p4) =~= c.name);
}

proof fn lemma_cases_parse(s: Seq<char>, p: int, cs: Seq<CaseView>, ls: Seq<CaseLayout>)
    requires
        ls.len() == cs.len(),
        forall|i: int| 0 <= i < cs.len() ==> case_fits(#[trigger] cs[i], ls[i]),
        starts_at(s, p, cases_source(cs, ls)),
        char_at(s, skip_space(s, p + cases_source(cs, ls).len()), '}'),
    ensures
        case_blocks(s, p) == (
            cs.map_values(|c: CaseView| strip_case(c)),
            p + cases_source(cs, ls).len(),
        ),
    decreases cs.len(),
{
    if cs.len() == 0 {
        lemma_no_keyword_at_brace(s, skip_space(s, p), kw_case());
        assert(cs.map_values(|c: CaseView| strip_case(c)) =~= Seq::<CaseView>::empty());
    } else {
        let first = case_source(cs[0], ls[0]);
        let rest = cases_source(cs.drop_first(), ls.drop_first());
        lemma_split(s, p, first, rest);
        assert(case_fits(cs[0], ls[0]));
        lemma_case_parse(s, p, cs[0], ls[0]);
        assert forall|i: int| 0 <= i < cs.drop_first().len() implies case_fits(
            #[trigger] cs.drop_first()[i],
            ls.drop_first()[i],
        ) by {
            assert(case_fits(cs[i + 1], ls[i + 1]));
        }
        lemma_cases_parse(s, p + first.len(), cs.drop_first(), ls.drop_first());
        assert(seq![strip_case(cs[0])] + cs.drop_first().map_values(|c: CaseView| strip_case(c))
            =~= cs.map_values(|c: CaseView| strip_case(c)));
    }
}

proof fn lemma_case_blocks_after_spaces(s: Seq<char>, i: int)
    requires
        0 <= i,
    ensures
        case_blocks(s, skip_space(s, i)).0 == case_blocks(s, i).0,
        skip_space(s, case_blocks(s, skip_space(s, i)).1) == skip_space(s, case_blocks(s, i).1),
{
    lemma_skip_space_bounds(s, i);
    lemma_skip_space_stops(s, i);
    assert(case_block(s, skip_space(s, i)) == case_block(s, i));
}

proof fn lemma_title_round_trip(s: Seq<char>, title: Seq<char>, ending: Seq<char>)
    requires
        lacks(title, '\r'),
        lacks(title, '\n'),
        ending == seq!['\n'] || ending == seq!['\r', '\n'],
        starts_at(s, 0, seq!['\t'] + kw_title() + title + ending),
    ensures
        title_line(s) == Ok::<(Seq<char>, int), (Rule, int)>((title, 8 + title.len() as int + ending.len())),
{
    let y1 = seq!['\t'];
    let y2 = y1 + kw_title();
    let y3 = y2 + title;
    lemma_split(s, 0, y3, ending);
    lemma_split(s, 0, y2, title);
    lemma_split(s, 0, y1, kw_title());
    let q1 = 8 + title.len() as int;
    lemma_chars(s, 0, y1);
    lemma_chars(s, 8, title);
    lemma_chars(s, q1, ending);
    assert(s[q1] == ending[0]);
    lemma_line_end_to(s, 8, q1);
    assert(s.subrange(8, q1) =~= title);
    if ending == seq!['\r', '\n'] {
        assert(s[q1 + 1] == '\n');
    }
}

proof fn lemma_content_round_trip(s: Seq<char>, p: int, cs: Seq<CaseView>, l: Layout)
    requires
        all_space(l.before_content),
        all_space(l.after_keyword),
        all_space(l.before_close),
        l.cases.len() == cs.len(),
        forall|i: int| 0 <= i < cs.len() ==> case_fits(#[trigger] cs[i], l.cases[i]),
        starts_at(s, p, content_source(cs, l)),
    ensures
        content_block(s, p) == Ok::<(Seq<CaseView>, int), (Rule, int)>(
            (cs.map_values(|c: CaseView| strip_case(c)), p + content_source(cs, l).len()),
        ),
{
    let cases = cases_source(cs, l.cases);
    let y1 = l.before_content;
    let y2 = y1 + kw_content();
    let y3 = y2 + l.after_keyword;
    let y4 = y3 + seq!['{'];
    let y5 = y4 + cases;
    let y6 = y5 + l.before_close;
    lemma_split(s, p, y6, seq!['}']);
    lemma_split(s, p, y5, l.before_close);
    lemma_split(s, p, y4, cases);
    lemma_split(s, p, y3, seq!['{']);
    lemma_split(s, p, y2, l.after_keyword);
    lemma_split(s, p, y1, kw_content());
    let q3 = p + y1.len();
    let q4 = q3 + 7;
    let q5 = q4 + l.after_keyword.len();
    let q6 = q5 + 1;
    let q7 = q6 + cases.len();
    let q8 = q7 + l.before_close.len();
    lemma_chars(s, p, y1);
    lemma_chars(s, q3, kw_content());
    lemma_chars(s, q4, l.after_keyword);
    lemma_chars(s, q5, seq!['{']);
    lemma_chars(s, q7, l.before_close);
    lemma_chars(s, q8, seq!['}']);
    assert(s[q3] == 'c');
    lemma_skip_space_to(s, p, q3);
    assert(s[q5] == '{');
    lemma_skip_space_to(s, q4, q5);
    assert(s[q8] == '}');
    lemma_skip_space_to(s, q7, q8);
    lemma_cases_parse(s, q6, cs, l.cases);
    lemma_case_blocks_after_spaces(s, q6);
}

/// Writing a document out with any layout that fits it, then parsing that
/// text, gives the document back (each text without its leading spaces), and
/// parsing stops right after the content block, before the trailing input.
pub proof fn lemma_round_trip(d: DocumentView, l: Layout)
    requires
        document_fits(d, l),
    ensures
        document_parse(document_source(d, l)) == Ok::<(DocumentView, int), (Rule, int)>(
            (stripped(d), document_source(d, l).len() - l.trailing.len()),
        ),
{
    let s = document_source(d, l);
    let head = seq!['\t'] + kw_title() + d.title + l.line_ending;
    let content = content_source(d.cases, l);
    assert(s.subrange(0, s.len() as int) =~= s);
    lemma_split(s, 0, head + content, l.trailing);
    lemma_split(s, 0, head, content);
    lemma_title_round_trip(s, d.title, l.line_ending);
    lemma_content_round_trip(s, head.len() as int, d.cases, l);
    assert(head.len() == 8 + d.title.len() + l.line_ending.len());
    let cases = d.cases.map_values(|c: CaseView| strip_case(c));
    let end = head.len() + content.len() as int;
    assert(title_line(s) == Ok::<(Seq<char>, int), (Rule, int)>((d.title, head.len() as int)));
    assert(content_block(s, head.len() as int) == Ok::<(Seq<CaseView>, int), (Rule, int)>(
        (cases, end),
    ));
}

/// White space between tokens does not matter: a document written out with
/// two layouts that fit it parses to the same document from both.
pub proof fn lemma_layout_is_insignificant(d: DocumentView, l1: Layout, l2: Layout)
    requires
        document_fits(d, l1),
        document_fits(d, l2),
    ensures
        document_parse(document_source(d, l1)) is Ok,
        document_parse(document_source(d, l2)) is Ok,
        document_parse(document_source(d, l1))->Ok_0.0 == document_parse(
            document_source(d, l2),
        )->Ok_0.0,
{
    lemma_round_trip(d, l1);
    lemma_round_trip(d, l2);
}

/// A text block ends at the first `}` after its `{`: braces are neither
/// escaped nor nested, and whatever follows that first `}` (`rest`) is left to
/// the rules after the text block.
pub proof fn lemma_text_ends_at_first_brace(a: Seq<char>, l: TextLayout, rest: Seq<char>)
    requires
        text_fits(a, l),
    ensures
        text_block(text_source(a, l) + rest, 0) == Some(
            (strip_spaces(a), text_source(a, l).len() as int),
        ),
{
    let s = text_source(a, l) + rest;
    assert(s.subrange(0, s.len() as int) =~= s);
    lemma_split(s, 0, text_source(a, l), rest);
    lemma_text_parse(s, 0, a, l);
}

proof fn lemma_trim_start_strip(t: Seq<char>)
    ensures
        trim_start(strip_spaces(t)) == trim_start(t),
    decreases t.len(),
{
    if t.len() > 0 && is_space(t[0]) {
        let u = t.drop_first();
        assert(t.subrange(1, t.len() as int) =~= u);
        lemma_skip_space_within(t, 1, u, 0);
        lemma_skip_space_bounds(u, 0);
        assert(strip_spaces(t) =~= strip_spaces(u));
        assert(is_white_space(t[0]));
        lemma_trim_start_strip(u);
    } else {
        assert(strip_spaces(t) =~= t);
    }
}

proof fn lemma_texts_html_strip(ts: Seq<Seq<char>>)
    ensures
        texts_html(ts.map_values(|t: Seq<char>| strip_spaces(t))) == texts_html(ts),
    decreases ts.len(),
{
    if ts.len() > 0 {
        assert(ts.map_values(|t: Seq<char>| strip_spaces(t)).drop_last() =~= ts.drop_last().map_values(
            |t: Seq<char>| strip_spaces(t),
        ));
        lemma_texts_html_strip(ts.drop_last());
        lemma_trim_start_strip(ts.last());
        assert(trim(strip_spaces(ts.last())) == trim(ts.last()));
    }
}

/// Parsing a document written with any layout that fits it, then rendering
/// it, gives one case block per case in source order, each with one heading
/// for the case's name and one paragraph per text in source order, the text
/// trimmed: the same body as rendering the document itself.
pub proof fn lemma_render_after_parse(d: DocumentView, l: Layout)
    requires
        document_fits(d, l),
    ensures
        document_parse(document_source(d, l)) is Ok,
        ({
            let p = document_parse(document_source(d, l))->Ok_0.0;
            &&& p.cases.len() == d.cases.len()
            &&& forall|i: int|
                0 <= i < d.cases.len() ==> #[trigger] case_html(p.cases[i]) == case_html(
                    d.cases[i],
                )
            &&& body_html(p.cases) == body_html(d.cases)
        }),
{
    lemma_round_trip(d, l);
    let cs = d.cases;
    let p = cs.map_values(|c: CaseView| strip_case(c));
    assert forall|i: int| 0 <= i < cs.len() implies #[trigger] case_html(p[i]) == case_html(
        cs[i],
    ) by {
        lemma_texts_html_strip(cs[i].texts);
    }
    lemma_body_html_pointwise(p, cs);
}

proof fn lemma_body_html_pointwise(a: Seq<CaseView>, b: Seq<CaseView>)
    requires
        a.len() == b.len(),
        forall|i: int| 0 <= i < a.len() ==> #[trigger] case_html(a[i]) == case_html(b[i]),
    ensures
        body_html(a) == body_html(b),
    decreases a.len(),
{
    if a.len() > 0 {
        assert(case_html(a[a.len() - 1]) == case_html(b[b.len() - 1]));
        lemma_body_html_pointwise(a.drop_last(), b.drop_last());
    }
}

} // verus!
