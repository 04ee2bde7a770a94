use nanami::models::{Case, Content, Document};
use nanami::parser::{parse_document, Rule};
use nanami::renderer::{base_name, build_body, build_file, output_file_name, render};

const SAMPLE: &str = "\ttitle: Sample\ncontent {\n    case(intro) {\n        text { Hello world }\n    }\n}\n";

const SAMPLE_BODY: &str = "        <div class=\"case\">\n            <h4 id=\"intro\">intro</h4>\n            <div class=\"text-block\">\n                <p>Hello world</p>\n            </div>\n        </div>\n";

const HTML5_HEAD: &str = "<!DOCTYPE html>\n<html lang=\"en\">\n    <head>\n        <meta charset=\"UTF-8\">\n";

const XHTML_HEAD: &str = "<!DOCTYPE html PUBLIC \"-//W3C//DTD XHTML 1.0 Strict//EN\" \"http://www.w3.org/TR/xhtml1/DTD/xhtml1-strict.dtd\">\n<html xmlns=\"http://www.w3.org/1999/xhtml\" lang=\"en\" xml:lang=\"en\">\n    <head>\n        <meta http-equiv=\"Content-type\" content=\"application/xhtml+xml;charset=utf-8\"/>\n";

fn parse_ok(input: &str) -> Document {
    match parse_document(input) {
        Ok((_rest, doc)) => doc,
        Err(e) => panic!("parsing error: {:?} at {}", e.rule, e.position),
    }
}

fn shape(doc: &Document) -> (String, Vec<(String, Vec<String>)>) {
    let cases = doc
        .content()
        .cases()
        .iter()
        .map(|c| (c.name().to_string(), c.texts().clone()))
        .collect();
    (doc.title().to_string(), cases)
}

#[test]
fn sample_parses_to_expected_document() {
    let doc = parse_ok(SAMPLE);
    assert_eq!(doc.title(), "Sample");
    let cases = doc.content().cases();
    assert_eq!(cases.len(), 1);
    assert_eq!(cases[0].name(), "intro");
    // Leading spaces of a text are skipped by the grammar, trailing ones stay
    // until rendering.
    assert_eq!(cases[0].texts(), &vec!["Hello world ".to_string()]);
}

#[test]
fn sample_renders_html5_page() {
    let doc = parse_ok(SAMPLE);
    let page = render(&doc, false, false);
    let expected = format!(
        "{}        <title>Sample</title>\n    </head>\n    <body>\n{}    </body>\n</html>\n",
        HTML5_HEAD, SAMPLE_BODY
    );
    assert_eq!(page, expected);
    assert_eq!(build_file(&doc, false), expected);
}

#[test]
fn sample_renders_xhtml_page() {
    let doc = parse_ok(SAMPLE);
    let page = render(&doc, true, false);
    let expected = format!(
        "{}        <title>Sample</title>\n    </head>\n    <body>\n{}    </body>\n</html>\n",
        XHTML_HEAD, SAMPLE_BODY
    );
    assert_eq!(page, expected);
}

#[test]
fn dialects_differ_only_in_header() {
    let doc = parse_ok(SAMPLE);
    let html = render(&doc, false, false);
    let xhtml = render(&doc, true, false);
    assert_ne!(html, xhtml);
    assert_eq!(&html[HTML5_HEAD.len()..], &xhtml[XHTML_HEAD.len()..]);
}

#[test]
fn body_only_emits_fragment() {
    let doc = parse_ok(SAMPLE);
    assert_eq!(render(&doc, false, true), SAMPLE_BODY);
    assert_eq!(render(&doc, true, true), SAMPLE_BODY);
    assert_eq!(build_body(&doc), SAMPLE_BODY);
}

#[test]
fn missing_tab_fails_at_start() {
    let input = "title: Sample\ncontent {\n}\n";
    match parse_document(input) {
        Ok(_) => panic!("parsed without the leading tab"),
        Err(e) => {
            assert_eq!(e.rule, Rule::TitleTab);
            assert_eq!(e.position, 0);
            assert_eq!(e.remaining, input);
        }
    }
}

#[test]
fn spaces_instead_of_tab_fail_at_start() {
    let err = parse_document("    title: Sample\ncontent {}\n").err().unwrap();
    assert_eq!(err.rule, Rule::TitleTab);
    assert_eq!(err.position, 0);
}

#[test]
fn wrong_title_marker_fails_after_tab() {
    let err = parse_document("\ttitle:Sample\ncontent {}\n").err().unwrap();
    assert_eq!(err.rule, Rule::TitleMarker);
    assert_eq!(err.position, 1);
    assert_eq!(err.remaining, "title:Sample\ncontent {}\n");
}

#[test]
fn title_as_last_line_fails() {
    let err = parse_document("\ttitle: Alone").err().unwrap();
    assert_eq!(err.rule, Rule::LineEnding);
    assert_eq!(err.position, 13);
    assert_eq!(err.remaining, "");
}

#[test]
fn lone_carriage_return_in_title_fails() {
    let err = parse_document("\ttitle: A\rB\ncontent {}").err().unwrap();
    assert_eq!(err.rule, Rule::TitleLine);
    assert_eq!(err.position, 8);
}

#[test]
fn crlf_title_line_is_accepted() {
    let doc = parse_ok("\ttitle: Windows\r\ncontent {}");
    assert_eq!(doc.title(), "Windows");
    assert!(doc.content().cases().is_empty());
}

#[test]
fn missing_content_keyword_fails() {
    let err = parse_document("\ttitle: T\n  body {}").err().unwrap();
    assert_eq!(err.rule, Rule::ContentKeyword);
    assert_eq!(err.position, 12);
    assert_eq!(err.remaining, "body {}");
}

#[test]
fn missing_content_brace_fails() {
    let err = parse_document("\ttitle: T\ncontent\n  case(a) {}").err().unwrap();
    assert_eq!(err.rule, Rule::ContentOpen);
    assert_eq!(err.position, 20);
}

#[test]
fn unclosed_case_surfaces_at_content_close() {
    let input = "\ttitle: T\ncontent {\n  case(a) {\n    text { x }\n";
    let err = parse_document(input).err().unwrap();
    assert_eq!(err.rule, Rule::ContentClose);
    assert_eq!(err.position, 22);
    assert!(err.remaining.starts_with("case(a)"));
}

#[test]
fn trailing_input_is_ignored() {
    match parse_document("\ttitle: T\ncontent { } trailing words") {
        Ok((rest, doc)) => {
            assert_eq!(rest, " trailing words");
            assert_eq!(doc.title(), "T");
        }
        Err(_) => panic!("trailing input rejected"),
    }
}

#[test]
fn empty_content_and_empty_case() {
    let doc = parse_ok("\ttitle: Empty\ncontent {\n  case(none) {}\n}");
    assert_eq!(doc.content().cases().len(), 1);
    assert!(doc.content().cases()[0].texts().is_empty());
    assert_eq!(
        render(&doc, false, true),
        "        <div class=\"case\">\n            <h4 id=\"none\">none</h4>\n        </div>\n"
    );
    let bare = parse_ok("\ttitle: Empty\ncontent {}");
    assert_eq!(render(&bare, false, true), "");
}

#[test]
fn text_ends_at_first_closing_brace() {
    // The text stops at the first `}`; the next `}` then closes the case, and
    // what follows is not a case, so the content block cannot be closed.
    let input = "\ttitle: T\ncontent {\n  case(a) {\n    text { a } b }\n  }\n}\n";
    let err = parse_document(input).err().unwrap();
    assert_eq!(err.rule, Rule::ContentClose);

    let doc = parse_ok("\ttitle: T\ncontent {\n  case(a) {\n    text { a } }\n}\n");
    assert_eq!(doc.content().cases()[0].texts(), &vec!["a ".to_string()]);
}

#[test]
fn case_name_ends_at_first_paren() {
    let doc = parse_ok("\ttitle: T\ncontent { case(a(b) { } }");
    assert_eq!(doc.content().cases()[0].name(), "a(b");
}

#[test]
fn whitespace_between_tokens_does_not_matter() {
    let tight = parse_ok("\ttitle: T\ncontent{case(x){text{one}text{two}}case(y){}}");
    let loose = parse_ok(
        "\ttitle: T\n\n  content \n {\n\n case(x)  \n{ text\t{ \n one}\r\n   text {two}\n }\n case(y) { }\n\n}",
    );
    assert_eq!(shape(&tight), shape(&loose));
    assert_eq!(tight, loose);
}

#[test]
fn texts_are_trimmed_when_rendered() {
    let doc = Document::new(
        "T".to_string(),
        Content::new(vec![Case::new(
            "c".to_string(),
            vec!["\u{a0} inner  space \t\n".to_string(), "plain".to_string()],
        )]),
    );
    let body = render(&doc, false, true);
    assert_eq!(
        body,
        "        <div class=\"case\">\n            <h4 id=\"c\">c</h4>\n            <div class=\"text-block\">\n                <p>inner  space</p>\n            </div>\n            <div class=\"text-block\">\n                <p>plain</p>\n            </div>\n        </div>\n"
    );
}

#[test]
fn several_cases_keep_their_order() {
    let doc = parse_ok("\ttitle: Order\ncontent {\n case(b) { text {1} }\n case(a) { text {2} text {3} }\n}");
    let names: Vec<&str> = doc.content().cases().iter().map(|c| c.name()).collect();
    assert_eq!(names, vec!["b", "a"]);
    let body = render(&doc, false, true);
    assert_eq!(body.matches("<h4").count(), 2);
    assert_eq!(body.matches("<p>").count(), 3);
    assert!(body.find("<p>1</p>").unwrap() < body.find("<p>2</p>").unwrap());
    assert!(body.find("<p>2</p>").unwrap() < body.find("<p>3</p>").unwrap());
}

#[test]
fn title_is_emitted_verbatim() {
    let doc = parse_ok("\ttitle: A <b>&</b> title\ncontent {}");
    let page = render(&doc, false, false);
    assert!(page.contains("        <title>A <b>&</b> title</title>\n"));
}

#[test]
fn output_names_follow_dialect() {
    assert_eq!(output_file_name("notes", false), "notes.html");
    assert_eq!(output_file_name("notes", true), "notes.xhtml");
}

#[test]
fn base_name_stops_at_first_dot() {
    assert_eq!(base_name("sample1.nama"), "sample1");
    assert_eq!(base_name("a.b.nama"), "a");
    assert_eq!(base_name("plain"), "plain");
}

#[test]
fn documents_compare_by_their_fields() {
    let make = |title: &str, name: &str, texts: &[&str]| {
        Document::new(
            title.to_string(),
            Content::new(vec![Case::new(
                name.to_string(),
                texts.iter().map(|t| t.to_string()).collect(),
            )]),
        )
    };
    assert_eq!(make("T", "a", &["x", "y"]), make("T", "a", &["x", "y"]));
    assert_ne!(make("T", "a", &["x", "y"]), make("U", "a", &["x", "y"]));
    assert_ne!(make("T", "a", &["x", "y"]), make("T", "b", &["x", "y"]));
    assert_ne!(make("T", "a", &["x", "y"]), make("T", "a", &["x", "z"]));
    assert_ne!(make("T", "a", &["x", "y"]), make("T", "a", &["x"]));
    assert_ne!(
        make("T", "a", &[]),
        Document::new("T".to_string(), Content::new(vec![]))
    );
}

#[test]
fn parsed_sample_equals_built_document() {
    let built = Document::new(
        "Sample".to_string(),
        Content::new(vec![Case::new("intro".to_string(), vec!["Hello world ".to_string()])]),
    );
    assert_eq!(parse_ok(SAMPLE), built);
}
