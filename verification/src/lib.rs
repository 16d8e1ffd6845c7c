//! Turns pot files and plain wordlists into a deduplicated, optionally frequency-sorted password
//! dictionary, with every phase able to spill to disk.
//!
//! * Reading: [`line`], [`chunk`], [`count`], with the counts in [`fast_map`] or [`arena`].
//! * Collecting counts within a memory budget: [`index`], [`spill`], [`layout`].
//! * Runs on disk: [`record`], [`codec`].
//! * Merging runs: [`heap`], [`merge`], [`dedup`], [`premerge`].
//! * Sorting and writing: [`sort`], [`external`], [`output`].
//! * What all of it comes to: [`tally`], [`history`], [`counted_merge`], [`sorted_merge`],
//!   [`dictionary`], [`session`].
//! * Decisions around it: [`options`], [`threads`], [`disk`].

pub mod arena;
pub mod bytes;
pub mod chunk;
pub mod codec;
pub mod count;
pub mod counted_merge;
pub mod dedup;
pub mod dictionary;
pub mod disk;
pub mod external;
pub mod fast_map;
pub mod heap;
pub mod history;
pub mod index;
pub mod layout;
pub mod line;
pub mod merge;
pub mod options;
pub mod output;
pub mod premerge;
pub mod record;
pub mod session;
pub mod sort;
pub mod sorted_merge;
pub mod spill;
pub mod tally;
pub mod threads;
