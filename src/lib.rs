//! Request routing for a reverse-proxy gateway: picks the upstream cluster for
//! a request path by prefix, strips that prefix, and decides whether the
//! request is forwarded or answered at once with a terminal status.
mod path;
mod table;

pub use path::{
    ctx_after, forward_or_reject, is_request_target, lemma_consumed_path_is_root,
    lemma_first_match_forwards, lemma_invalid_rest_rejected, lemma_no_match_rejects, resolve,
    resolve_spec, rewrite_outcome, select_cluster, Decision, RouterCtx, RoutingOutcome,
    BAD_REQUEST, NOT_FOUND,
};
pub use table::{
    first_match, is_first_match, lemma_first_match_is, lemma_first_match_unique, matches_entry,
    RoutingTable,
};
