//! A small git-like object store: object framing, trees, commits, the index,
//! configuration, reference resolution and checkout.
pub mod checkout;
pub mod clock;
pub mod codec;
pub mod commit;
pub mod config;
pub mod convert;
pub mod number;
pub mod ignore_rules;
pub mod index;
pub mod object;
pub mod order;
pub mod path;
pub mod refs;
pub mod report;
pub mod repo;
pub mod encoding;
pub mod error;
pub mod status;
pub mod text;
pub mod tree;
pub mod worktree;
pub mod writetree;
