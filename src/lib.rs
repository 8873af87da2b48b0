//! Minimum press counts for typing codes on a numeric keypad through a chain of
//! directional keypads, each operated by a robot that is itself steered from the
//! keypad one level up.
//!
//! - `keypad`: the two layouts, each a grid with one gap cell.
//! - `moves`: the tied-shortest moves between every two keys of a layout.
//! - `paths`: the cells a move passes over; no candidate move crosses the gap.
//! - `expand`: every button sequence that types a key sequence, cut into runs.
//! - `estimate`: the memoized cost of a sequence down a chain of keypads.
//! - `code`: codes and their numeric values.
//! - `chain`: chain lengths and weighted totals over lists of codes.
//!
//! Beside it stand three smaller solvers of the same collection:
//!
//! - `robots`: robots moving on a wrapping grid, counted per quadrant.
//! - `towels`: the ways to make a design from towel patterns, with a trie.
//! - `locks`: lock and key schematics, and the pairs that fit.
pub mod keypad;
pub mod moves;
pub mod paths;
pub mod expand;
pub mod estimate;
pub mod code;
pub mod chain;
pub mod robots;
pub mod towels;
pub mod locks;
