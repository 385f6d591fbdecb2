//! Node.js compatibility testing for JavaScript runtimes: the decisions of a
//! harness that runs Node's own test suite against a runtime binary and
//! publishes the pass rate per module, with every failure named.
//!
//! - `outcome`: what one test run gave, a whole run as an expectations file,
//!   and the ratchet that compares a run against the committed one.
//! - `report`: grouping tests by module, tallying them, and the published table.
//! - `tally_laws`: the tally of joined runs, and its independence of order.
//! - `rate`: pass rates as the table prints them, stated over integers.
//! - `runner`: deciding what to do while one test runs, and classifying it.
//! - `suite`: which files are tests, their `// Flags:` directives, the suite version.
//! - `harness`: the runtime's label, the progress stream, the account of a change.
//! - `sort`: putting tests and results in name order.
//! - `sorted_map`: a string-keyed map that walks its keys in ascending order.
//! - `text`: the character-level text operations the rest is written in.

pub mod text;
pub mod sorted_map;
pub mod outcome;
pub mod rate;
pub mod report;
pub mod tally_laws;
pub mod runner;
pub mod suite;
pub mod sort;
pub mod harness;
