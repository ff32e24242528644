//! A verified variable-order Markov text model ("a Brain") and the small
//! verified pieces of the chat bot that it serves: the chain engine itself,
//! a binary persistence codec with a proved round trip, the message protocol
//! of the per-brain worker, and the text utilities the bot's commands use.

pub mod args;
pub mod brain;
pub mod clock;
pub mod codec;
pub mod commands;
pub mod config;
pub mod crates_info;
pub mod errors;
pub mod filter;
pub mod format;
pub mod help;
pub mod irc;
pub mod link;
pub mod messaging;
pub mod pack;
pub mod queue;
pub mod request;
pub mod respond;
pub mod response;
pub mod rng;
pub mod set;
pub mod text;
pub mod token;
pub mod twitch;
pub mod util;

pub use brain::Brain;
pub use link::Link;
pub use messaging::{handle_message, Effect, Registry, Request, Response, ServeError};
pub use set::EdgeSet;
pub use text::split_words;
pub use token::Token;
