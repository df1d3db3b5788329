//! An order-k character-level Markov chain text model.
//!
//! A [`markov::MarkovModel`] learns symbol-transition frequencies from
//! training text and generates new text by a weighted random walk over
//! those frequencies.

pub mod laws;
pub mod markov;
pub mod table;
pub mod text;

use vstd::prelude::*;

verus! {

/// A request for text generation, carrying the seed prompt.
pub struct Query {
    pub prompt: String,
}

/// A request to acquire a training corpus on a topic.
pub struct TrainQuery {
    pub topic: String,
}

/// The text handed back for a request.
pub struct Response {
    pub result: String,
}

} // verus!
