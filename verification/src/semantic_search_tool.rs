//! The semantic search tool: its input, its texts and the shape of its
//! results.

use vstd::prelude::*;
use vstd::string::StringExecFns;

verus! {

/// The number of results that a search returns where its input names none.
pub const DEFAULT_LIMIT: usize = 5;

/// The input of a search.
#[derive(Debug, PartialEq, Eq)]
pub struct SemanticSearchToolInput {
    /// The search query to find relevant documents.
    pub query: String,
    /// Maximum number of results to return.
    pub limit: Option<usize>,
}

/// The limit of an input that was written without one.
pub fn default_limit() -> (limit: Option<usize>)
    ensures
        limit == Some(DEFAULT_LIMIT),
{
    Some(DEFAULT_LIMIT)
}

impl SemanticSearchToolInput {
    /// The number of results to return for this input: its limit, or
    /// [`DEFAULT_LIMIT`] where it has none.
    pub fn effective_limit(&self) -> (limit: usize)
        ensures
            limit == match self.limit {
                Some(n) => n,
                None => DEFAULT_LIMIT,
            },
    {
        match self.limit {
            Some(n) => n,
            None => DEFAULT_LIMIT,
        }
    }
}

impl Clone for SemanticSearchToolInput {
    fn clone(&self) -> (copy: Self)
        ensures
            copy == *self,
    {
        SemanticSearchToolInput { query: self.query.clone(), limit: self.limit }
    }
}

/// The tool that searches the indexed documents of a project.
#[derive(Clone, Copy, Debug)]
pub struct SemanticSearchTool;

impl SemanticSearchTool {
    pub fn name(&self) -> (name: String)
        ensures
            name@ == "semantic_search"@,
    {
        String::from_str("semantic_search")
    }

    pub fn description(&self) -> (text: String)
        ensures
            text@
                == "Search through all indexed documents in the project using semantic similarity. Use this when you need to find relevant information that might be scattered across multiple documents."@,
    {
        String::from_str(
            "Search through all indexed documents in the project using semantic similarity. Use this when you need to find relevant information that might be scattered across multiple documents.",
        )
    }

    /// A search changes nothing, so it is never confirmed first.
    pub fn needs_confirmation(&self) -> (needed: bool)
        ensures
            !needed,
    {
        false
    }

    /// The line that tells the user what is searched for: the query in
    /// double quotes behind a fixed text, or the fixed text alone where the
    /// input could not be read.
    pub fn ui_text(&self, input: Option<&SemanticSearchToolInput>) -> (text: String)
        ensures
            text@ == match input {
                Some(input) => "Search documents for: \""@ + input.query@ + "\""@,
                None => "Search documents"@,
            },
    {
        match input {
            Some(input) => {
                let mut text = String::from_str("Search documents for: \"");
                text.append(input.query.as_str());
                text.append("\"");
                text
            },
            None => String::from_str("Search documents"),
        }
    }
}

/// One result of a search: an excerpt of a file and the lines it spans.
#[derive(Debug, PartialEq, Eq)]
pub struct SearchResult {
    pub file_path: String,
    pub excerpt: String,
    pub line_start: u32,
    pub line_end: u32,
}

} // verus!
