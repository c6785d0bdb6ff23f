//! Privacy-preserving exposure check for secrets against a public breach
//! corpus: secrets are hashed locally, partitioned by a short Digest Prefix,
//! one lookup per distinct Prefix is answered by an external service, and
//! per-secret occurrence counts are reassembled in input order.

mod check;
mod digest;
mod entry;
mod laws;
mod order;
mod page;
mod partition;

pub use check::{
    all_ok, check_post, count_for, first_bad, outcome_ok, outcome_records, CheckError,
    LookupOutcome, Partition,
};
pub use digest::{digest, digest_of, hex_of, sha1_of};
pub use entry::{common_cut, common_prefix, designators, remove_common_prefix, Entry};
pub use laws::{
    counted_in_group, error_view, lemma_check_coverage, lemma_check_idempotent,
    lemma_digest_deterministic, lemma_empty_input, lemma_failure_propagates, lemma_no_matches,
};
pub use order::{lex_leq, lex_lt};
pub use page::{parse_page, pwned_suffixes};
pub use partition::{
    groups_well_formed, gview, hashed_passwords, in_groups, lemma_partition_coverage,
    lemma_partition_slots, lemma_partition_wf, partition_of, prefix5, sorted_pairs, spec_pairs,
    suffix5, views_of,
};
