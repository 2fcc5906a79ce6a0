//! A tree of study material: sets that group decks and other sets, decks that hold
//! flashcards, paths that address a node by child indices, a flattened menu of the
//! visible nodes, and the edits that change the tree.
pub mod util;
pub mod date;
pub mod card;
pub mod node;
pub mod navigator;
pub mod removal;
pub mod editor;
