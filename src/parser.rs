use vstd::prelude::*;

use crate::models::{Case, CaseView, Content, Document, DocumentView};
use crate::text::{chars_of, string_of};

verus! {

/// The grammar rule at which a parse stopped.
#[derive(Clone, Copy, Debug, PartialEq, Eq, Structural)]
pub enum Rule {
    /// The first character is not a tab.
    TitleTab,
    /// `title: ` does not follow the tab.
    TitleMarker,
    /// The title line holds a carriage return that no line feed follows.
    TitleLine,
    /// The title line is not ended by `\n` or `\r\n`.
    LineEnding,
    /// The keyword `content` is missing.
    ContentKeyword,
    /// The `{` after `content` is missing.
    ContentOpen,
    /// The `}` that closes the content block is missing.
    ContentClose,
}

/// A parse failure: the rule that did not match, and where.
pub struct ParseError<'a> {
    pub rule: Rule,
    /// Offset in characters of the input at which `rule` was tried.
    pub position: usize,
    /// The input from `position` on.
    pub remaining: &'a str,
}

/// Space, tab, carriage return and line feed: the white space between tokens.
pub open spec fn is_space(c: char) -> bool {
    c == ' ' || c == '\t' || c == '\r' || c == '\n'
}

/// `s` holds `c` at `i`.
pub open spec fn char_at(s: Seq<char>, i: int, c: char) -> bool {
    0 <= i < s.len() && s[i] == c
}

/// `lit` stands in `s` from `i` on.
pub open spec fn starts_at(s: Seq<char>, i: int, lit: Seq<char>) -> bool {
    0 <= i && i + lit.len() <= s.len() && s.subrange(i, i + lit.len()) == lit
}

/// The first position from `i` on that holds no space (or the end).
pub open spec fn skip_space(s: Seq<char>, i: int) -> int
    decreases s.len() - i,
{
    if 0 <= i < s.len() && is_space(s[i]) {
        skip_space(s, i + 1)
    } else {
        i
    }
}

/// The first position from `i` on that holds `c`.
pub open spec fn find_char(s: Seq<char>, i: int, c: char) -> Option<int>
    decreases s.len() - i,
{
    if i < 0 || i >= s.len() {
        None
    } else if s[i] == c {
        Some(i)
    } else {
        find_char(s, i + 1, c)
    }
}

/// The first position from `i` on that holds a line terminator (or the end).
pub open spec fn line_end(s: Seq<char>, i: int) -> int
    decreases s.len() - i,
{
    if 0 <= i < s.len() && s[i] != '\r' && s[i] != '\n' {
        line_end(s, i + 1)
    } else {
        i
    }
}

/// The marker after the title line's tab.
pub open spec fn kw_title() -> Seq<char> {
    seq!['t', 'i', 't', 'l', 'e', ':', ' ']
}

pub open spec fn kw_content() -> Seq<char> {
    seq!['c', 'o', 'n', 't', 'e', 'n', 't']
}

pub open spec fn kw_case() -> Seq<char> {
    seq!['c', 'a', 's', 'e']
}

pub open spec fn kw_text() -> Seq<char> {
    seq!['t', 'e', 'x', 't']
}

/// Scanning spaces moves forward and stays in the input.
pub proof fn lemma_skip_space_bounds(s: Seq<char>, i: int)
    requires
        0 <= i,
    ensures
        i <= skip_space(s, i),
        i <= s.len() ==> skip_space(s, i) <= s.len(),
    decreases s.len() - i,
{
    if 0 <= i < s.len() && is_space(s[i]) {
        lemma_skip_space_bounds(s, i + 1);
    }
}

/// A search that succeeds finds `c`, from `i` on.
pub proof fn lemma_find_char_bounds(s: Seq<char>, i: int, c: char)
    ensures
        find_char(s, i, c) matches Some(e) ==> i <= e < s.len() && s[e] == c,
    decreases s.len() - i,
{
    if !(i < 0 || i >= s.len()) && s[i] != c {
        lemma_find_char_bounds(s, i + 1, c);
    }
}

/// `text { ... }` from `i` on: the inner text up to the first `}`, its
/// leading spaces left out and its trailing ones kept, and the position after
/// that brace.
pub open spec fn text_block(s: Seq<char>, i: int) -> Option<(Seq<char>, int)> {
    let a = skip_space(s, i);
    if !starts_at(s, a, kw_text()) {
        None
    } else {
        let b = skip_space(s, a + 4);
        if !char_at(s, b, '{') {
            None
        } else {
            let c = skip_space(s, b + 1);
            match find_char(s, c, '}') {
                Some(e) => Some((s.subrange(c, e), e + 1)),
                None => None,
            }
        }
    }
}

/// A text block that matches is not empty.
pub proof fn lemma_text_block_advances(s: Seq<char>, i: int)
    requires
        0 <= i,
    ensures
        text_block(s, i) matches Some((t, j)) ==> i < j <= s.len(),
{
    lemma_skip_space_bounds(s, i);
    let a = skip_space(s, i);
    lemma_skip_space_bounds(s, a + 4);
    let b = skip_space(s, a + 4);
    lemma_skip_space_bounds(s, b + 1);
    lemma_find_char_bounds(s, skip_space(s, b + 1), '}');
}

/// As many text blocks as follow `i`, and the position after the last.
pub open spec fn text_blocks(s: Seq<char>, i: int) -> (Seq<Seq<char>>, int)
    decreases s.len() - i,
    when 0 <= i
{
    match text_block(s, i) {
        Some((t, j)) => {
            proof {
                lemma_text_block_advances(s, i);
            }
            let (rest, k) = text_blocks(s, j);
            (seq![t] + rest, k)
        },
        None => (seq![], i),
    }
}

/// `case(name) { text-block* }` from `i` on, and the position after it.
pub open spec fn case_block(s: Seq<char>, i: int) -> Option<(CaseView, int)> {
    let a = skip_space(s, i);
    if !starts_at(s, a, kw_case()) || !char_at(s, a + 4, '(') {
        None
    } else {
        match find_char(s, a + 5, ')') {
            None => None,
            Some(e) => {
                let b = skip_space(s, e + 1);
                if !char_at(s, b, '{') {
                    None
                } else {
                    let (texts, c) = text_blocks(s, b + 1);
                    let d = skip_space(s, c);
                    if !char_at(s, d, '}') {
                        None
                    } else {
                        Some((CaseView { name: s.subrange(a + 5, e), texts }, d + 1))
                    }
                }
            },
        }
    }
}

/// The text blocks end between where they start and the end of the input.
pub proof fn lemma_text_blocks_bounds(s: Seq<char>, i: int)
    requires
        0 <= i <= s.len(),
    ensures
        i <= text_blocks(s, i).1 <= s.len(),
    decreases s.len() - i,
{
    lemma_text_block_advances(s, i);
    if let Some((t, j)) = text_block(s, i) {
        lemma_text_blocks_bounds(s, j);
    }
}

/// A case block that matches is not empty.
pub proof fn lemma_case_block_advances(s: Seq<char>, i: int)
    requires
        0 <= i,
    ensures
        case_block(s, i) matches Some((c, j)) ==> i < j <= s.len(),
{
    lemma_skip_space_bounds(s, i);
    let a = skip_space(s, i);
    lemma_find_char_bounds(s, a + 5, ')');
    if let Some(e) = find_char(s, a + 5, ')') {
        lemma_skip_space_bounds(s, e + 1);
        let b = skip_space(s, e + 1);
        if char_at(s, b, '{') {
            lemma_text_blocks_bounds(s, b + 1);
            lemma_skip_space_bounds(s, text_blocks(s, b + 1).1);
        }
    }
}

/// As many cases as follow `i`, and the position after the last. A case that
/// does not match anywhere inside ends the list where it begins, so its
/// failure shows as a missing `}` of the content block.
pub open spec fn case_blocks(s: Seq<char>, i: int) -> (Seq<CaseView>, int)
    decreases s.len() - i,
    when 0 <= i
{
    match case_block(s, i) {
        Some((c, j)) => {
            proof {
                lemma_case_block_advances(s, i);
            }
            let (rest, k) = case_blocks(s, j);
            (seq![c] + rest, k)
        },
        None => (seq![], i),
    }
}

/// `content { case* }` from `i` on: the cases and the position after the
/// closing brace, or the rule that failed and where.
pub open spec fn content_block(s: Seq<char>, i: int) -> Result<(Seq<CaseView>, int), (Rule, int)> {
    let a = skip_space(s, i);
    if !starts_at(s, a, kw_content()) {
        Err((Rule::ContentKeyword, a))
    } else {
        let b = skip_space(s, a + 7);
        if !char_at(s, b, '{') {
            Err((Rule::ContentOpen, b))
        } else {
            let (cases, c) = case_blocks(s, skip_space(s, b + 1));
            let d = skip_space(s, c);
            if !char_at(s, d, '}') {
                Err((Rule::ContentClose, d))
            } else {
                Ok((cases, d + 1))
            }
        }
    }
}

/// The title line: the title and the position after its line ending, or the
/// rule that failed and where.
pub open spec fn title_line(s: Seq<char>) -> Result<(Seq<char>, int), (Rule, int)> {
    if !char_at(s, 0, '\t') {
        Err((Rule::TitleTab, 0))
    } else if !starts_at(s, 1, kw_title()) {
        Err((Rule::TitleMarker, 1))
    } else {
        let e = line_end(s, 8);
        if char_at(s, e, '\n') {
            Ok((s.subrange(8, e), e + 1))
        } else if char_at(s, e, '\r') && char_at(s, e + 1, '\n') {
            Ok((s.subrange(8, e), e + 2))
        } else if char_at(s, e, '\r') {
            Err((Rule::TitleLine, 8))
        } else {
            Err((Rule::LineEnding, e))
        }
    }
}

/// A whole document: its value and the position where parsing stopped (the
/// rest of the input is ignored), or the rule that failed and where.
pub open spec fn document_parse(s: Seq<char>) -> Result<(DocumentView, int), (Rule, int)> {
    match title_line(s) {
        Err(e) => Err(e),
        Ok((title, i)) => match content_block(s, i) {
            Err(e) => Err(e),
            Ok((cases, j)) => Ok((DocumentView { title, cases }, j)),
        },
    }
}

fn skip_spaces(v: &Vec<char>, i: usize) -> (r: usize)
    requires
        i <= v.len(),
    ensures
        r == skip_space(v@, i as int),
        i <= r <= v.len(),
{
    let mut j = i;
    while j < v.len() && (v[j] == ' ' || v[j] == '\t' || v[j] == '\r' || v[j] == '\n')
        invariant
            i <= j <= v.len(),
            skip_space(v@, i as int) == skip_space(v@, j as int),
        decreases v.len() - j,
    {
        j += 1;
    }
    j
}

fn find(v: &Vec<char>, i: usize, c: char) -> (r: Option<usize>)
    requires
        i <= v.len(),
    ensures
        r matches Some(e) ==> find_char(v@, i as int, c) == Some(e as int),
        r is None ==> find_char(v@, i as int, c) is None,
{
    let mut j = i;
    while j < v.len()
        invariant
            i <= j <= v.len(),
            find_char(v@, i as int, c) == find_char(v@, j as int, c),
        decreases v.len() - j,
    {
        if v[j] == c {
            return Some(j);
        }
        j += 1;
    }
    None
}

fn find_line_end(v: &Vec<char>, i: usize) -> (r: usize)
    requires
        i <= v.len(),
    ensures
        r == line_end(v@, i as int),
        i <= r <= v.len(),
{
    let mut j = i;
    while j < v.len() && v[j] != '\r' && v[j] != '\n'
        invariant
            i <= j <= v.len(),
            line_end(v@, i as int) == line_end(v@, j as int),
        decreases v.len() - j,
    {
        j += 1;
    }
    j
}

fn has_char(v: &Vec<char>, i: usize, c: char) -> (r: bool)
    ensures
        r == char_at(v@, i as int, c),
{
    i < v.len() && v[i] == c
}

fn has_word(v: &Vec<char>, i: usize, lit: &Vec<char>) -> (r: bool)
    requires
        i <= v.len(),
    ensures
        r == starts_at(v@, i as int, lit@),
{
    if lit.len() > v.len() - i {
        return false;
    }
    let mut k: usize = 0;
    while k < lit.len()
        invariant
            k <= lit.len(),
            i + lit.len() <= v.len(),
            forall|j: int| 0 <= j < k ==> v@[i + j] == lit@[j],
        decreases lit.len() - k,
    {
        if v[i + k] != lit[k] {
            assert(v@.subrange(i as int, i + lit.len())[k as int] != lit@[k as int]);
            return false;
        }
        k += 1;
    }
    assert(v@.subrange(i as int, i + lit.len()) =~= lit@);
    true
}

fn parse_text_block(v: &Vec<char>, i: usize) -> (r: Option<(String, usize)>)
    requires
        i <= v.len(),
    ensures
        r is Some <==> text_block(v@, i as int) is Some,
        r matches Some((t, j)) ==> text_block(v@, i as int) == Some((t@, j as int)),
        r matches Some((t, j)) ==> i < j <= v.len(),
{
    proof {
        lemma_text_block_advances(v@, i as int);
    }
    let a = skip_spaces(v, i);
    let kw = vec!['t', 'e', 'x', 't'];
    assert(kw@ == kw_text());
    if !has_word(v, a, &kw) {
        return None;
    }
    let b = skip_spaces(v, a + 4);
    if !has_char(v, b, '{') {
        return None;
    }
    let c = skip_spaces(v, b + 1);
    match find(v, c, '}') {
        Some(e) => {
            proof {
                lemma_find_char_bounds(v@, c as int, '}');
            }
            Some((string_of(v, c, e), e + 1))
        },
        None => None,
    }
}

fn parse_text_blocks(v: &Vec<char>, i: usize) -> (r: (Vec<String>, usize))
    requires
        i <= v.len(),
    ensures
        r.0@.map_values(|t: String| t@) == text_blocks(v@, i as int).0,
        r.1 == text_blocks(v@, i as int).1,
        i <= r.1 <= v.len(),
{
    let mut texts: Vec<String> = Vec::new();
    let mut j = i;
    loop
        invariant
            i <= j <= v.len(),
            text_blocks(v@, i as int).0 == texts@.map_values(|t: String| t@) + text_blocks(
                v@,
                j as int,
            ).0,
            text_blocks(v@, i as int).1 == text_blocks(v@, j as int).1,
        decreases v.len() - j,
    {
        match parse_text_block(v, j) {
            Some((t, k)) => {
                let ghost before = texts@.map_values(|t: String| t@);
                let ghost view = t@;
                texts.push(t);
                assert(texts@.map_values(|t: String| t@) =~= before.push(view));
                assert(before.push(view) + text_blocks(v@, k as int).0 =~= before + (seq![view]
                    + text_blocks(v@, k as int).0));
                j = k;
            },
            None => {
                assert(text_blocks(v@, j as int).0 =~= Seq::<Seq<char>>::empty());
                assert(texts@.map_values(|t: String| t@) + Seq::<Seq<char>>::empty()
                    =~= texts@.map_values(|t: String| t@));
                return (texts, j);
            },
        }
    }
}

fn parse_case(v: &Vec<char>, i: usize) -> (r: Option<(Case, usize)>)
    requires
        i <= v.len(),
    ensures
        r is Some <==> case_block(v@, i as int) is Some,
        r matches Some((c, j)) ==> case_block(v@, i as int) == Some((c@, j as int)),
        r matches Some((c, j)) ==> i < j <= v.len(),
{
    proof {
        lemma_case_block_advances(v@, i as int);
    }
    let a = skip_spaces(v, i);
    let kw = vec!['c', 'a', 's', 'e'];
    assert(kw@ == kw_case());
    if !has_word(v, a, &kw) || !has_char(v, a + 4, '(') {
        return None;
    }
    match find(v, a + 5, ')') {
        None => None,
        Some(e) => {
            proof {
                lemma_find_char_bounds(v@, a + 5, ')');
            }
            let b = skip_spaces(v, e + 1);
            if !has_char(v, b, '{') {
                return None;
            }
            let (texts, c) = parse_text_blocks(v, b + 1);
            let d = skip_spaces(v, c);
            if !has_char(v, d, '}') {
                return None;
            }
            let name = string_of(v, a + 5, e);
            Some((Case::new(name, texts), d + 1))
        },
    }
}

fn parse_cases(v: &Vec<char>, i: usize) -> (r: (Vec<Case>, usize))
    requires
        i <= v.len(),
    ensures
        r.0@.map_values(|c: Case| c@) == case_blocks(v@, i as int).0,
        r.1 == case_blocks(v@, i as int).1,
        i <= r.1 <= v.len(),
{
    let mut cases: Vec<Case> = Vec::new();
    let mut j = i;
    loop
        invariant
            i <= j <= v.len(),
            case_blocks(v@, i as int).0 == cases@.map_values(|c: Case| c@) + case_blocks(
                v@,
                j as int,
            ).0,
            case_blocks(v@, i as int).1 == case_blocks(v@, j as int).1,
        decreases v.len() - j,
    {
        match parse_case(v, j) {
            Some((c, k)) => {
                let ghost before = cases@.map_values(|c: Case| c@);
                let ghost view = c@;
                cases.push(c);
                assert(cases@.map_values(|c: Case| c@) =~= before.push(view));
                assert(before.push(view) + case_blocks(v@, k as int).0 =~= before + (seq![view]
                    + case_blocks(v@, k as int).0));
                j = k;
            },
            None => {
                assert(case_blocks(v@, j as int).0 =~= Seq::<CaseView>::empty());
                assert(cases@.map_values(|c: Case| c@) + Seq::<CaseView>::empty()
                    =~= cases@.map_values(|c: Case| c@));
                return (cases, j);
            },
        }
    }
}

fn parse_content(v: &Vec<char>, i: usize) -> (r: Result<(Content, usize), (Rule, usize)>)
    requires
        i <= v.len(),
    ensures
        r matches Ok((c, j)) ==> content_block(v@, i as int) == Ok::<_, (Rule, int)>((c@, j as int)),
        r matches Err((rule, p)) ==> content_block(v@, i as int) == Err::<(Seq<CaseView>, int), _>((rule, p as int)),
        r matches Ok((c, j)) ==> j <= v.len(),
        r matches Err((rule, p)) ==> p <= v.len(),
{
    let a = skip_spaces(v, i);
    let kw = vec!['c', 'o', 'n', 't', 'e', 'n', 't'];
    assert(kw@ == kw_content());
    if !has_word(v, a, &kw) {
        return Err((Rule::ContentKeyword, a));
    }
    let b = skip_spaces(v, a + 7);
    if !has_char(v, b, '{') {
        return Err((Rule::ContentOpen, b));
    }
    let start = skip_spaces(v, b + 1);
    let (cases, c) = parse_cases(v, start);
    let d = skip_spaces(v, c);
    if !has_char(v, d, '}') {
        return Err((Rule::ContentClose, d));
    }
    Ok((Content::new(cases), d + 1))
}

fn parse_title(v: &Vec<char>) -> (r: Result<(String, usize), (Rule, usize)>)
    ensures
        r matches Ok((t, j)) ==> title_line(v@) == Ok::<_, (Rule, int)>((t@, j as int)),
        r matches Err((rule, p)) ==> title_line(v@) == Err::<(Seq<char>, int), _>((rule, p as int)),
        r matches Ok((t, j)) ==> j <= v.len(),
        r matches Err((rule, p)) ==> p <= v.len(),
{
    if !has_char(v, 0, '\t') {
        return Err((Rule::TitleTab, 0));
    }
    let kw = vec!['t', 'i', 't', 'l', 'e', ':', ' '];
    assert(kw@ == kw_title());
    if !has_word(v, 1, &kw) {
        return Err((Rule::TitleMarker, 1));
    }
    let e = find_line_end(v, 8);
    if has_char(v, e, '\n') {
        Ok((string_of(v, 8, e), e + 1))
    } else if has_char(v, e, '\r') && has_char(v, e + 1, '\n') {
        Ok((string_of(v, 8, e), e + 2))
    } else if has_char(v, e, '\r') {
        Err((Rule::TitleLine, 8))
    } else {
        Err((Rule::LineEnding, e))
    }
}

/// Parses a whole document. On success it returns the input that follows the
/// closing brace of the content block, which is ignored, and the document.
pub fn parse_document<'a>(input: &'a str) -> (r: Result<(&'a str, Document), ParseError<'a>>)
    ensures
        document_parse(input@) is Ok <==> r is Ok,
        r matches Ok((rest, doc)) ==> document_parse(input@) == Ok::<_, (Rule, int)>((doc@, input@.len() - rest@.len()))
            && rest@ == input@.subrange(input@.len() - rest@.len(), input@.len() as int),
        r matches Err(e) ==> document_parse(input@) == Err::<(DocumentView, int), _>((e.rule, e.position as int))
            && e.remaining@ == input@.subrange(e.position as int, input@.len() as int),
{
    let v = chars_of(input);
    let n = v.len();
    match parse_title(&v) {
        Err((rule, p)) => Err(ParseError { rule, position: p, remaining: input.substring_char(p, n) }),
        Ok((title, i)) => match parse_content(&v, i) {
            Err((rule, p)) => Err(ParseError { rule, position: p, remaining: input.substring_char(p, n) }),
            Ok((content, j)) => Ok((input.substring_char(j, n), Document::new(title, content))),
        },
    }
}

/// An input that does not begin with a tab fails on the title's tab, at the
/// start of the input.
pub proof fn lemma_missing_tab_fails_at_start(s: Seq<char>)
    requires
        s.len() == 0 || s[0] != '\t',
    ensures
        document_parse(s) == Err::<(DocumentView, int), (Rule, int)>((Rule::TitleTab, 0)),
{
}

/// Scanning spaces stops at the first position that holds no space.
pub proof fn lemma_skip_space_stops(s: Seq<char>, i: int)
    requires
        0 <= i,
    ensures
        !(0 <= skip_space(s, i) < s.len() && is_space(s[skip_space(s, i)])),
        skip_space(s, skip_space(s, i)) == skip_space(s, i),
    decreases s.len() - i,
{
    if 0 <= i < s.len() && is_space(s[i]) {
        lemma_skip_space_stops(s, i + 1);
    }
}

/// Spaces from `i` up to `j`, and none at `j`: scanning from `i` stops at `j`.
pub proof fn lemma_skip_space_to(s: Seq<char>, i: int, j: int)
    requires
        0 <= i <= j,
        forall|k: int| i <= k < j ==> is_space(#[trigger] s[k]),
        !(j < s.len() && is_space(s[j])),
        j <= s.len(),
    ensures
        skip_space(s, i) == j,
    decreases j - i,
{
    if i < j {
        lemma_skip_space_to(s, i + 1, j);
    }
}

/// No `c` from `i` up to `j`, and `c` at `j`: the search from `i` finds `j`.
pub proof fn lemma_find_char_to(s: Seq<char>, i: int, j: int, c: char)
    requires
        0 <= i <= j < s.len(),
        forall|k: int| i <= k < j ==> #[trigger] s[k] != c,
        s[j] == c,
    ensures
        find_char(s, i, c) == Some(j),
    decreases j - i,
{
    if i < j {
        lemma_find_char_to(s, i + 1, j, c);
    }
}

/// No line terminator from `i` up to `j`, and one at `j`: the title line ends at `j`.
pub proof fn lemma_line_end_to(s: Seq<char>, i: int, j: int)
    requires
        0 <= i <= j < s.len(),
        forall|k: int| i <= k < j ==> #[trigger] s[k] != '\r' && s[k] != '\n',
        s[j] == '\r' || s[j] == '\n',
    ensures
        line_end(s, i) == j,
    decreases j - i,
{
    if i < j {
        lemma_line_end_to(s, i + 1, j);
    }
}

/// Scanning spaces inside `a`, where `a` stands in `s` at `off` and no space
/// follows it there, is scanning `a` itself.
pub proof fn lemma_skip_space_within(s: Seq<char>, off: int, a: Seq<char>, k: int)
    requires
        starts_at(s, off, a),
        off + a.len() == s.len() || !is_space(s[off + a.len()]),
        0 <= k <= a.len(),
    ensures
        skip_space(s, off + k) == off + skip_space(a, k),
    decreases a.len() - k,
{
    if k < a.len() {
        assert(s.subrange(off, off + a.len())[k] == s[off + k]);
        if is_space(a[k]) {
            lemma_skip_space_within(s, off, a, k + 1);
        }
    }
}

} // verus!
