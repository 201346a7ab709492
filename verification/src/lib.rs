//! Text classification by normalized compression distance (NCD).
//!
//! A corpus of labeled records is indexed by the compressed size of each
//! record's text; a test record is classified by the majority class of its
//! `k` nearest train records, where nearness is the normalized compression
//! distance computed from three compressed sizes (test alone, train alone,
//! concatenation). Distances are kept as exact rationals, so every
//! comparison, and with it the whole classification, is deterministic.

pub mod error;

pub mod compress;

pub mod record;

pub mod distance;

pub mod corpus;

pub mod classify;
