//! Interpreter for `sed`-style substitution commands sent as chat messages.
//!
//! A command `s/pattern/replacement/` (or `/s/pattern/replacement/`) is split
//! into its unescaped parts ([`command`]). The caller runs a regular expression
//! engine on the pattern and reports, search by search, the byte ranges of each
//! match's groups; [`scan`] decides where each search starts and keeps the
//! matches, and [`engine`] splices the replacement, with its `\N` group
//! references filled in, into the target text. [`history`] keeps a chat's recent
//! messages and picks the one a command without an explicit target applies to.

pub mod command;
pub mod engine;
pub mod error;
pub mod history;
pub mod scan;
