//! Statistics over a shell's interactive-command history.
//!
//! The decoder turns the raw lines of a history file into the logical
//! commands the user typed; the classifier tokenizes each command and
//! aggregates three frequency tables (commands, manual-page lookups,
//! version-control subcommands); the ranking orders a table for reporting.
//! Locating and reading the history file, and printing the reports, are the
//! caller's business: the library works on plain byte lines and hands back
//! counted and ranked keys.

mod bytes;
mod classify;
mod decode;
mod rank;
mod table;
mod tokens;
mod utf8;

pub use classify::State;
pub use classify::add_word_bytes;
pub use classify::bumped;
pub use classify::cmd_key;
pub use classify::cmd_key_fn;
pub use classify::commit_bytes;
pub use classify::g_bytes;
pub use classify::ga_bytes;
pub use classify::gau_bytes;
pub use classify::gc_bytes;
pub use classify::gca_bytes;
pub use classify::git_bytes;
pub use classify::git_key;
pub use classify::git_key_fn;
pub use classify::hit_count;
pub use classify::hits;
pub use classify::lemma_alias_commit;
pub use classify::lemma_cmd_key_some;
pub use classify::lemma_man_section_with_page;
pub use classify::lemma_man_section_without_page;
pub use classify::man_bytes;
pub use classify::man_key;
pub use classify::man_key_fn;
pub use classify::process_command_history;

pub use decode::ZshHistory;
pub use decode::after_first_semi;
pub use decode::decode;
pub use decode::decode_record;
pub use decode::has_semi;
pub use decode::is_meta;
pub use decode::lemma_continuation_appended;
pub use decode::lemma_malformed_meta_dropped;
pub use decode::line_views;

pub use rank::bytes_le;
pub use rank::pair_le;
pub use rank::pair_views;
pub use rank::ranked;
pub use rank::sorted_desc;
pub use rank::table_pairs;

pub use table::FreqTable;
pub use table::assoc_count;
pub use table::assoc_total;

pub use tokens::all_digits;
pub use tokens::arg_at;
pub use tokens::has_eq;
pub use tokens::lemma_env_prefix_skipped;
pub use tokens::lemma_resolved_ix_bounds;
pub use tokens::opt_view;
pub use tokens::resolve_command;
pub use tokens::resolved_cmd;
pub use tokens::resolved_ix;
pub use tokens::split_tokens;
pub use tokens::tokens;

pub use utf8::utf8_ok;
