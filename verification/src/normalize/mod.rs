//! A language-neutral normalized form for comparing program behavior.
//!
//! Two functions that do the same thing should reduce to the same form even
//! when they are written differently. Each language supplies its own normalizer
//! targeting this form. The form itself names no language, library, or API.

pub mod adapting;
pub mod alpha;
pub mod display;
pub mod form;
pub mod indexing;
pub mod instance;
pub mod kept;
pub mod laws;
pub mod lift;
pub mod matching;
pub mod meaning;
pub mod measure;
pub mod names;
pub mod neighbours;
pub mod order;
pub mod renaming;
pub mod roles;
pub mod scope;
pub mod search;
pub mod select;
pub mod settling;
pub mod shaped;
pub mod simplify;
pub mod telling;
pub mod totality;
pub mod unfolding;
pub mod unifying;
pub mod values;
