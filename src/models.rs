use vstd::prelude::*;

verus! {

/// Abstract value of a `Case`: its name and its text blocks, in source order.
pub struct CaseView {
    pub name: Seq<char>,
    pub texts: Seq<Seq<char>>,
}

/// Abstract value of a `Document`: its title and its cases, in source order.
pub struct DocumentView {
    pub title: Seq<char>,
    pub cases: Seq<CaseView>,
}

/// One compiled unit: a title and the content block that follows it.
#[derive(Debug)]
pub struct Document {
    pub title: String,
    pub content: Content,
}

/// The cases of a document, in source order.
#[derive(Debug)]
pub struct Content {
    pub cases: Vec<Case>,
}

/// A named group of text blocks.
#[derive(Debug)]
pub struct Case {
    pub name: String,
    pub texts: Vec<String>,
}

impl View for Case {
    type V = CaseView;

    open spec fn view(&self) -> CaseView {
        CaseView { name: self.name@, texts: self.texts@.map_values(|t: String| t@) }
    }
}

impl View for Content {
    type V = Seq<CaseView>;

    open spec fn view(&self) -> Seq<CaseView> {
        self.cases@.map_values(|c: Case| c@)
    }
}

impl View for Document {
    type V = DocumentView;

    open spec fn view(&self) -> DocumentView {
        DocumentView { title: self.title@, cases: self.content@ }
    }
}

impl Document {
    pub fn new(title: String, content: Content) -> (r: Document)
        ensures
            r@ == (DocumentView { title: title@, cases: content@ }),
    {
        Document { title, content }
    }

    pub fn title(&self) -> (r: &str)
        ensures
            r@ == self@.title,
    {
        self.title.as_str()
    }

    pub fn content(&self) -> (r: &Content)
        ensures
            r@ == self@.cases,
    {
        &self.content
    }
}

impl Content {
    pub fn new(cases: Vec<Case>) -> (r: Content)
        ensures
            r@ == cases@.map_values(|c: Case| c@),
    {
        Content { cases }
    }

    pub fn cases(&self) -> (r: &Vec<Case>)
        ensures
            r@.map_values(|c: Case| c@) == self@,
    {
        &self.cases
    }
}

impl Case {
    pub fn new(name: String, texts: Vec<String>) -> (r: Case)
        ensures
            r@ == (CaseView { name: name@, texts: texts@.map_values(|t: String| t@) }),
    {
        Case { name, texts }
    }

    pub fn name(&self) -> (r: &str)
        ensures
            r@ == self@.name,
    {
        self.name.as_str()
    }

    pub fn texts(&self) -> (r: &Vec<String>)
        ensures
            r@.map_values(|t: String| t@) == self@.texts,
    {
        &self.texts
    }
}

/// Two cases are equal when their names and their texts are.
impl PartialEq for Case {
    fn eq(&self, other: &Case) -> (r: bool) {
        if !self.name.eq(&other.name) || self.texts.len() != other.texts.len() {
            assert(self@.texts.len() != other@.texts.len() || self@.name != other@.name);
            return false;
        }
        let mut i: usize = 0;
        while i < self.texts.len()
            invariant
                i <= self.texts.len() == other.texts.len(),
                self@.name == other@.name,
                forall|j: int| 0 <= j < i ==> self.texts@[j]@ == other.texts@[j]@,
            decreases self.texts.len() - i,
        {
            if !self.texts[i].eq(&other.texts[i]) {
                assert(self@.texts[i as int] != other@.texts[i as int]);
                return false;
            }
            i += 1;
        }
        assert(self@.texts =~= other@.texts);
        true
    }
}

impl vstd::std_specs::cmp::PartialEqSpecImpl for Case {
    open spec fn obeys_eq_spec() -> bool {
        true
    }

    open spec fn eq_spec(&self, other: &Case) -> bool {
        self@ == other@
    }
}

/// Two contents are equal when they hold equal cases in the same order.
impl PartialEq for Content {
    fn eq(&self, other: &Content) -> (r: bool) {
        if self.cases.len() != other.cases.len() {
            assert(self@.len() != other@.len());
            return false;
        }
        let mut i: usize = 0;
        while i < self.cases.len()
            invariant
                i <= self.cases.len() == other.cases.len(),
                forall|j: int| 0 <= j < i ==> self.cases@[j]@ == other.cases@[j]@,
            decreases self.cases.len() - i,
        {
            if !self.cases[i].eq(&other.cases[i]) {
                assert(self@[i as int] != other@[i as int]);
                return false;
            }
            i += 1;
        }
        assert(self@ =~= other@);
        true
    }
}

impl vstd::std_specs::cmp::PartialEqSpecImpl for Content {
    open spec fn obeys_eq_spec() -> bool {
        true
    }

    open spec fn eq_spec(&self, other: &Content) -> bool {
        self@ == other@
    }
}

/// Two documents are equal when their titles and their contents are.
impl PartialEq for Document {
    fn eq(&self, other: &Document) -> (r: bool) {
        self.title.eq(&other.title) && self.content.eq(&other.content)
    }
}

impl vstd::std_specs::cmp::PartialEqSpecImpl for Document {
    open spec fn obeys_eq_spec() -> bool {
        true
    }

    open spec fn eq_spec(&self, other: &Document) -> bool {
        self@ == other@
    }
}

} // verus!
