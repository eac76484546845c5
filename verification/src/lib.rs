//! A Bayesian token-frequency spam classifier with exact arithmetic.
//!
//! A message is cut into normalized tokens. A classifier counts, token by
//! token, how often each one occurred in spam and in ham messages, and rates
//! a new message by combining the spam odds of its tokens. A message whose
//! probability of being spam is more than 0.8 is identified as spam.
//!
//! All ratings and scores are exact: a probability `p` is kept as odds of
//! two natural numbers, `spam` to `ham`, with `p = spam / (spam + ham)`.
//! So no rounding stands between a model and a decision, and no score is
//! undefined.
//!
//! A model is handed out and taken in as a table of tokens with their
//! counters; reading and writing files is left to the caller.

pub mod tokenizer;
pub mod model;
pub mod rating;
pub mod extremes;
pub mod bignat;
pub mod score;
pub mod classifier;
