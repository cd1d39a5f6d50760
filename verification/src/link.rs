use vstd::prelude::*;

verus! {

/// One matched URL occurrence: the raw URL text, the whitelist domain it
/// matched (lowercase), the file it was found in, and its 1-based line number.
pub struct Link {
    pub url: String,
    pub domain: String,
    pub filepath: String,
    pub line_number: usize,
}

/// The mathematical value of a [`Link`]: its four fields as sequences and an
/// integer.
pub ghost struct LinkModel {
    pub url: Seq<char>,
    pub domain: Seq<char>,
    pub filepath: Seq<char>,
    pub line_number: int,
}

impl View for Link {
    type V = LinkModel;

    open spec fn view(&self) -> LinkModel {
        LinkModel {
            url: self.url@,
            domain: self.domain@,
            filepath: self.filepath@,
            line_number: self.line_number as int,
        }
    }
}

impl DeepView for Link {
    type V = LinkModel;

    open spec fn deep_view(&self) -> LinkModel {
        self@
    }
}

impl Link {
    pub fn new(url: String, domain: String, filepath: String, line_number: usize) -> (r: Link)
        ensures
            r@ == (LinkModel {
                url: url@,
                domain: domain@,
                filepath: filepath@,
                line_number: line_number as int,
            }),
    {
        Link { url, domain, filepath, line_number }
    }

    /// A fresh record with the same four fields.
    pub fn duplicate(&self) -> (r: Link)
        ensures
            r@ == self@,
    {
        Link {
            url: self.url.clone(),
            domain: self.domain.clone(),
            filepath: self.filepath.clone(),
            line_number: self.line_number,
        }
    }
}

} // verus!
