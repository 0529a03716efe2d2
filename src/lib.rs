//! An order-N Markov chain over arbitrary tokens, with a verified
//! transition table and weighted sequence synthesis.

pub mod chain;
pub mod laws;
pub mod model;
pub mod producers;
pub mod sampling;
pub mod text;
pub mod token;

pub use chain::ArcChain;
pub use producers::{InfiniteChainIterator, SizedChainIterator};
pub use sampling::{select, total_weight};
pub use text::{InfiniteChainStringIterator, SizedChainStringIterator};
pub use token::Chainable;
