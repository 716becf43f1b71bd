//! Guillotine cutting of rectangular pieces out of a rectangular sheet.
//!
//! The sheet is cut with cuts from edge to edge. `search` looks for a layout with a beam of
//! promising moves, `exhaustive` tries every piece in the corner of every part. `gaps`,
//! `packing`, `swap` and `forced` find places for pieces that a search leaves over. What all of
//! this comes to, in terms of pieces and the sheet alone, stands in the modules whose names end in
//! `laws`.

pub mod candidates;
pub mod candidates_laws;
pub mod control;
pub mod dice;
pub mod exhaustive;
pub mod exhaustive_laws;
pub mod exhaustive_memo;
pub mod finish;
pub mod forced;
pub mod free_space;
pub mod free_space_laws;
pub mod gaps;
pub mod kinds;
pub mod kinds_laws;
pub mod layout;
pub mod limits;
pub mod memo;
pub mod mixing;
pub mod optimize;
pub mod optimize_laws;
pub mod order;
pub mod packing;
pub mod packing_laws;
pub mod parallel;
pub mod pieces;
pub mod readings;
pub mod score;
pub mod score_laws;
pub mod search;
pub mod search_laws;
pub mod swap;
pub mod swap_laws;
pub mod tally;
pub mod task;
