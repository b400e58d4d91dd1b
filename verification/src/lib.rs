//! Attribution of short chat messages to their authors.
//!
//! From an exported chat history the library learns, for every author who has posted
//! enough, a first-order transition model over the tokens of the author's messages and
//! a profile of the author's activity over the minutes of the day. A message of unknown
//! origin is then held against every model.
//!
//! The steps, in the order in which they are taken:
//!
//! - [`normalize`] brings a message into its normal form and tells which author names
//!   are left out;
//! - [`markup`] reads the exported history as a run of events;
//! - [`extract`] scans the events and keeps the corpus, the authors and their
//!   activity, by the admission rules of [`roster`];
//! - [`temporal`] smooths the activity around the clock;
//! - [`split`] sets a share of the corpus aside for evaluation;
//! - [`markov`] counts the transitions of each author's documents;
//! - [`score`] looks up what a document is worth under each model, ranks the authors
//!   by their scores, and tallies an evaluation.
//!
//! Every count and weight is a whole number: a probability is a count over a total, a
//! density a weight over a total. Turning them into floating-point likelihoods is left
//! to the caller.

pub mod clock;
pub mod extract;
pub mod markov;
pub mod markup;
pub mod normalize;
pub mod roster;
pub mod score;
pub mod split;
pub mod temporal;
pub mod text;
