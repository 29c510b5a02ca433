//! Where the embedding service is, and what is read from its answer.
use vstd::prelude::*;
use crate::vault::concat;

verus! {

/// The embedding service: its base URL and the model it runs.
#[derive(Debug)]
pub struct EmbeddingClient {
    base_url: String,
    model: String,
}

/// The view of an `EmbeddingClient`: its base URL and its model.
pub struct EmbeddingClientView {
    pub base_url: Seq<char>,
    pub model: Seq<char>,
}

impl View for EmbeddingClient {
    type V = EmbeddingClientView;

    closed spec fn view(&self) -> EmbeddingClientView {
        EmbeddingClientView { base_url: self.base_url@, model: self.model@ }
    }
}

impl EmbeddingClient {
    /// A client of the service at `base_url` that runs `model`.
    pub fn new(base_url: &str, model: &str) -> (r: Self)
        ensures
            r@.base_url == base_url@,
            r@.model == model@,
    {
        EmbeddingClient { base_url: base_url.to_owned(), model: model.to_owned() }
    }

    /// The local Ollama service with the `nomic-embed-text` model.
    pub fn default() -> (r: Self)
        ensures
            r@.base_url == "http://localhost:11434"@,
            r@.model == "nomic-embed-text"@,
    {
        Self::new("http://localhost:11434", "nomic-embed-text")
    }

    /// The base URL.
    pub fn base_url(&self) -> (r: &String)
        ensures
            r@ == self@.base_url,
    {
        &self.base_url
    }

    /// The model.
    pub fn model(&self) -> (r: &String)
        ensures
            r@ == self@.model,
    {
        &self.model
    }

    /// The URL that embedding requests are posted to.
    pub fn embed_url(&self) -> (r: String)
        ensures
            r@ == self@.base_url + "/api/embed"@,
    {
        concat(self.base_url.as_str(), "/api/embed")
    }
}

/// The embedding of a single text from the service's answer: the last
/// embedding it returned, or the message that there was none.
pub fn single_embedding<T>(results: Vec<T>) -> (r: Result<T, String>)
    ensures
        results@.len() > 0 ==> r == Ok::<T, String>(results@.last()),
        results@.len() == 0 ==> (r matches Err(e) && e@ == "No embedding returned"@),
{
    let mut results = results;
    match results.pop() {
        Some(x) => Ok(x),
        None => Err("No embedding returned".to_owned()),
    }
}

} // verus!
