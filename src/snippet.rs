use vstd::prelude::*;

verus! {

/// What a snippet is, as a mathematical value.
pub struct SnippetView {
    pub id: u32,
    pub code: Seq<char>,
    pub lang: Seq<char>,
    pub tags: Seq<Seq<char>>,
}

/// One stored piece of code, with its language label and its tags.
pub struct Snippet {
    pub id: u32,
    pub code: String,
    pub lang: String,
    pub tags: Vec<String>,
}

impl View for Snippet {
    type V = SnippetView;

    open spec fn view(&self) -> SnippetView {
        SnippetView { id: self.id, code: self.code@, lang: self.lang@, tags: self.tags.deep_view() }
    }
}

impl Snippet {
    /// A snippet with the given fields, stored verbatim.
    pub fn new(id: u32, code: String, lang: String, tags: Vec<String>) -> (r: Snippet)
        ensures
            r@ == (SnippetView { id, code: code@, lang: lang@, tags: tags.deep_view() }),
    {
        Snippet { id, code, lang, tags }
    }

    /// A copy of this snippet.
    pub fn duplicate(&self) -> (r: Snippet)
        ensures
            r@ == self@,
    {
        let tags = self.tags.clone();
        proof {
            assert(tags.deep_view() =~= self.tags.deep_view());
        }
        Snippet { id: self.id, code: self.code.clone(), lang: self.lang.clone(), tags }
    }
}

} // verus!
