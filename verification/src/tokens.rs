//! Counting the tokens of a text.

use vstd::prelude::*;

verus! {

/// `anyhow::Error`, the error that the tokenizer returns; nothing is known
/// of what it holds.
#[verifier::external_type_specification]
#[verifier::external_body]
pub struct ExAnyhowError(anyhow::Error);

/// The number of tokens that the `cl100k_base` encoding makes of `text`,
/// special tokens read as ordinary text; `None` where the tokenizer cannot
/// be set up or gives up on the text.
pub uninterp spec fn token_count(text: Seq<char>) -> Option<nat>;

/// `tiktoken_rs::cl100k_base` followed by `CoreBPE::count` with no special
/// token allowed. The encoding is compiled into the outside crate, so the
/// count, and whether there is one, depends on the text alone.
#[verifier::external_body]
fn count_cl100k(text: &str) -> (counted: Result<usize, anyhow::Error>)
    ensures
        match counted {
            Ok(n) => token_count(text@) == Some(n as nat),
            Err(_) => token_count(text@) is None,
        },
{
    tiktoken_rs::cl100k_base()?.count(text, &std::collections::HashSet::new())
}

/// `to_string` on an `anyhow::Error`: the outside error in words. Nothing
/// is claimed of the words.
#[verifier::external_body]
fn failure_text(failure: &anyhow::Error) -> String {
    failure.to_string()
}

/// The tokenizer could not count the tokens of a text.
#[derive(Clone, Debug, PartialEq, Eq)]
pub struct TokenizerError {
    /// What the tokenizer said.
    pub message: String,
}

/// What `count_tokens` returns for what the tokenizer returned.
pub fn counted_or_error(counted: Result<usize, anyhow::Error>) -> (r: Result<usize, TokenizerError>)
    ensures
        match counted {
            Ok(n) => r == Ok::<usize, TokenizerError>(n),
            Err(_) => r is Err,
        },
{
    match counted {
        Ok(n) => Ok(n),
        Err(failure) => Err(TokenizerError { message: failure_text(&failure) }),
    }
}

/// Counts the tokens of `text` in the `cl100k_base` encoding.
pub fn count_tokens(text: &str) -> (r: Result<usize, TokenizerError>)
    ensures
        match r {
            Ok(n) => token_count(text@) == Some(n as nat),
            Err(_) => token_count(text@) is None,
        },
{
    counted_or_error(count_cl100k(text))
}

} // verus!
