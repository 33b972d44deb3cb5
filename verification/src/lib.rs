//! Core logic for a telephone-pictionary game: an ordered sequence of
//! entries alternating between text phrases and drawings, the state machine
//! that decides which input the player must supply next, a read-only review
//! mode over the whole sequence, an indexed lookup that serves drawing bytes
//! to a rendering surface, and a byte-level persistence format for saving and
//! loading a whole game.

pub mod codec;
pub mod game;
pub mod persist;
pub mod review;
pub mod serve;

pub use game::Entry;
pub use game::EntryModel;
pub use game::GameError;
pub use game::GameState;
pub use game::InputKind;
pub use game::PictionaryEntry;
