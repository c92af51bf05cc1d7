//! The description of a target language that the code emitter fills in.
use vstd::prelude::*;

verus! {

/// Text to put before and after something.
#[derive(Debug)]
pub struct Wrapper {
    pub prefix: String,
    pub suffix: String,
}

/// The helper functions every generated parser starts with, line by line.
#[derive(Debug)]
pub struct ReqFunctions {
    pub constructor: Vec<String>,
    pub error_func: Vec<String>,
    pub match_func: Vec<String>,
    pub current_func: Vec<String>,
}

/// A target language: the pieces of text the emitted parser is made of.
#[derive(Debug)]
pub struct Language {
    pub imports: String,
    pub parse_error: String,
    pub class_def: String,
    pub class_body_wrapper: Wrapper,
    pub required_functions: ReqFunctions,
    pub func_call: Wrapper,
    pub match_call: Wrapper,
    pub error_call: Wrapper,
    pub condition: Wrapper,
    pub if_clause: Wrapper,
    pub elseif_clause: Wrapper,
    pub else_clause: String,
    pub public_func_def: Wrapper,
    pub private_func_def: Wrapper,
    pub func_body: Wrapper,
    pub empty_production_body: String,
}

pub open spec fn wrapped(w: Wrapper, content: Seq<char>) -> Seq<char> {
    w.prefix@ + content + w.suffix@
}

impl Wrapper {
    /// `content` between the prefix and the suffix.
    pub fn wrap(&self, content: &str) -> (r: String)
        ensures
            r@ == wrapped(*self, content@),
    {
        let mut result = self.prefix.clone();
        result.append(content);
        result.append(self.suffix.as_str());
        result
    }
}

} // verus!
