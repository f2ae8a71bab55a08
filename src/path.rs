use vstd::prelude::*;

use crate::table::{first_match, is_first_match, lemma_first_match_is, matches_entry, RoutingTable};

verus! {

/// Status of the terminal response when no rule matches the path.
pub const NOT_FOUND: u16 = 404;

/// Status of the terminal response when the rewritten path is not a valid
/// request target.
pub const BAD_REQUEST: u16 = 400;

/// A routing decision as a mathematical value.
pub enum Decision {
    Forward { cluster_id: usize, path: Seq<char> },
    Reject { status_code: u16 },
}

/// What the host proxy is told to do with a request: forward it to a cluster
/// with a new target path, or answer it at once with a status code.
pub enum RoutingOutcome {
    Forward { cluster_id: usize, rewritten_path: String },
    Reject { status_code: u16 },
}

impl View for RoutingOutcome {
    type V = Decision;

    open spec fn view(&self) -> Decision {
        match self {
            RoutingOutcome::Forward { cluster_id, rewritten_path } => Decision::Forward {
                cluster_id: *cluster_id,
                path: rewritten_path@,
            },
            RoutingOutcome::Reject { status_code } => Decision::Reject {
                status_code: *status_code,
            },
        }
    }
}

/// Per-request state that the host proxy owns; resolution records the chosen
/// cluster in it.
pub struct RouterCtx {
    pub selected_cluster: usize,
}

/// Whether `s` parses as a request URI under the http crate's rules.
pub uninterp spec fn is_request_target(s: Seq<char>) -> bool;

/// Relies on http's `FromStr` for `Uri`: whether the text parses as a URI
/// that can be set as a request's target. Its result depends on the text alone.
#[verifier::external_body]
fn parses_as_request_target(s: &str) -> (r: bool)
    ensures
        r == is_request_target(s@),
{
    s.parse::<http::Uri>().is_ok()
}

/// The decision once the rule with cluster `cluster_id` matched and `rest` is
/// what is left of the path after its prefix; `valid` tells whether `rest`
/// parses as a request target. An empty rest stands for the root path `/`.
pub open spec fn rewrite_outcome(cluster_id: usize, rest: Seq<char>, valid: bool) -> Decision {
    if rest.len() == 0 {
        Decision::Forward { cluster_id, path: seq!['/'] }
    } else if valid {
        Decision::Forward { cluster_id, path: rest }
    } else {
        Decision::Reject { status_code: BAD_REQUEST }
    }
}

/// The decision for path `p` under table `t`: the first matching rule in
/// table order picks the cluster, and its prefix is stripped once from the
/// front of the path.
pub open spec fn resolve_spec(t: Seq<(Seq<char>, usize)>, p: Seq<char>) -> Decision {
    match first_match(t, p) {
        None => Decision::Reject { status_code: NOT_FOUND },
        Some(i) => {
            let rest = p.skip(t[i].0.len() as int);
            rewrite_outcome(t[i].1, rest, is_request_target(rest))
        },
    }
}

/// The context after resolving `p` under `t`: the chosen cluster is recorded
/// on a forward, and a rejection leaves the context as it was.
pub open spec fn ctx_after(c: RouterCtx, t: Seq<(Seq<char>, usize)>, p: Seq<char>) -> RouterCtx {
    match resolve_spec(t, p) {
        Decision::Forward { cluster_id, .. } => RouterCtx { selected_cluster: cluster_id },
        Decision::Reject { .. } => c,
    }
}

/// Builds the outcome for a matched rule from the rest of the path and
/// whether that rest parses as a request target.
pub fn forward_or_reject(cluster_id: usize, rest: String, valid: bool) -> (r: RoutingOutcome)
    ensures
        r@ == rewrite_outcome(cluster_id, rest@, valid),
{
    if rest.as_str().is_empty() {
        let root = "/".to_owned();
        proof {
            reveal_strlit("/");
        }
        assert(root@ =~= seq!['/']);
        RoutingOutcome::Forward { cluster_id, rewritten_path: root }
    } else if valid {
        RoutingOutcome::Forward { cluster_id, rewritten_path: rest }
    } else {
        RoutingOutcome::Reject { status_code: BAD_REQUEST }
    }
}

/// Decides where a request for `path` goes under `table`.
pub fn resolve(table: &RoutingTable, path: &str) -> (r: RoutingOutcome)
    ensures
        r@ == resolve_spec(table@, path@),
{
    match table.find_first_match(path) {
        None => RoutingOutcome::Reject { status_code: NOT_FOUND },
        Some(i) => {
            let (prefix, cluster_id) = table.entry(i);
            let plen = prefix.unicode_len();
            let n = path.unicode_len();
            let rest = path.substring_char(plen, n);
            assert(rest@ =~= path@.skip(plen as int));
            let valid = if rest.unicode_len() == 0 {
                true
            } else {
                parses_as_request_target(rest)
            };
            forward_or_reject(cluster_id, rest.to_owned(), valid)
        },
    }
}

/// Resolves `original_uri` under `prefix_map`, and records the chosen cluster
/// in `ctx` when the request is forwarded.
pub fn select_cluster(prefix_map: &RoutingTable, original_uri: &str, ctx: &mut RouterCtx) -> (r:
    RoutingOutcome)
    ensures
        r@ == resolve_spec(prefix_map@, original_uri@),
        *final(ctx) == ctx_after(*old(ctx), prefix_map@, original_uri@),
{
    let r = resolve(prefix_map, original_uri);
    match &r {
        RoutingOutcome::Forward { cluster_id, .. } => {
            ctx.selected_cluster = *cluster_id;
        },
        RoutingOutcome::Reject { .. } => {},
    }
    r
}

/// When rule `i` is the first rule of `t` that matches `p`, and what is left
/// of `p` after its prefix is empty or a valid request target, the request is
/// forwarded to that rule's cluster with the prefix stripped once from the
/// front of the path, or with `/` where nothing is left.
pub proof fn lemma_first_match_forwards(t: Seq<(Seq<char>, usize)>, p: Seq<char>, i: int)
    requires
        is_first_match(t, p, i),
        p.skip(t[i].0.len() as int).len() == 0 || is_request_target(
            p.skip(t[i].0.len() as int),
        ),
    ensures
        resolve_spec(t, p) == (Decision::Forward {
            cluster_id: t[i].1,
            path: if p.len() == t[i].0.len() {
                seq!['/']
            } else {
                p.skip(t[i].0.len() as int)
            },
        }),
{
    lemma_first_match_is(t, p, i);
}

/// When rule `i` is the first rule of `t` that matches `p` and what is left
/// of `p` after its prefix is not a valid request target, the request is
/// rejected as a bad request.
pub proof fn lemma_invalid_rest_rejected(t: Seq<(Seq<char>, usize)>, p: Seq<char>, i: int)
    requires
        is_first_match(t, p, i),
        p.len() > t[i].0.len(),
        !is_request_target(p.skip(t[i].0.len() as int)),
    ensures
        resolve_spec(t, p) == (Decision::Reject { status_code: BAD_REQUEST }),
{
    lemma_first_match_is(t, p, i);
}

/// When no rule of `t` matches `p`, the request is rejected as not found and
/// the context is left as it was.
pub proof fn lemma_no_match_rejects(t: Seq<(Seq<char>, usize)>, p: Seq<char>, c: RouterCtx)
    requires
        forall|i: int| 0 <= i < t.len() ==> !matches_entry(t, p, i),
    ensures
        resolve_spec(t, p) == (Decision::Reject { status_code: NOT_FOUND }),
        ctx_after(c, t, p) == c,
{
}

/// When the first matching prefix consumes the whole path, the request is
/// forwarded with the root path `/` as final target: no rule of the table is
/// consulted again for `/`, and its validity is not asked.
pub proof fn lemma_consumed_path_is_root(t: Seq<(Seq<char>, usize)>, p: Seq<char>, i: int)
    requires
        is_first_match(t, p, i),
        p.len() == t[i].0.len(),
    ensures
        resolve_spec(t, p) == (Decision::Forward { cluster_id: t[i].1, path: seq!['/'] }),
{
    lemma_first_match_is(t, p, i);
}

} // verus!
