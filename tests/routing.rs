use route_resolver::{
    forward_or_reject, resolve, select_cluster, RouterCtx, RoutingOutcome, RoutingTable,
    BAD_REQUEST, NOT_FOUND,
};

fn table_of(rules: &[(&str, usize)]) -> RoutingTable {
    let mut t = RoutingTable::new();
    for (prefix, id) in rules {
        t.insert(prefix.to_string(), *id);
    }
    t
}

fn forward(id: usize, path: &str) -> RoutingOutcome {
    RoutingOutcome::Forward { cluster_id: id, rewritten_path: path.to_string() }
}

fn reject(code: u16) -> RoutingOutcome {
    RoutingOutcome::Reject { status_code: code }
}

fn two_clusters() -> RoutingTable {
    table_of(&[("/cluster1", 0), ("/cluster2", 1)])
}

fn same(a: &RoutingOutcome, b: &RoutingOutcome) -> bool {
    match (a, b) {
        (
            RoutingOutcome::Forward { cluster_id: x, rewritten_path: p },
            RoutingOutcome::Forward { cluster_id: y, rewritten_path: q },
        ) => x == y && p == q,
        (RoutingOutcome::Reject { status_code: x }, RoutingOutcome::Reject { status_code: y }) => {
            x == y
        }
        _ => false,
    }
}

#[test]
fn path_test() {
    let t = two_clusters();
    let original_uri = "/cluster1s/api";
    let found = t.find_first_match(original_uri);
    assert_eq!(found, Some(0));
    assert_eq!(t.entry(0).1, 0);
}

#[test]
fn forwards_with_prefix_stripped() {
    let r = resolve(&two_clusters(), "/cluster1/api");
    assert!(same(&r, &forward(0, "/api")));
    let r = resolve(&two_clusters(), "/cluster2/v1/items?x=1");
    assert!(same(&r, &forward(1, "/v1/items?x=1")));
}

#[test]
fn whole_path_prefix_becomes_root() {
    let r = resolve(&two_clusters(), "/cluster1");
    assert!(same(&r, &forward(0, "/")));
}

#[test]
fn unknown_prefix_is_not_found() {
    let r = resolve(&two_clusters(), "/unknown/api");
    assert!(same(&r, &reject(NOT_FOUND)));
    assert_eq!(NOT_FOUND, 404);
}

#[test]
fn control_char_after_strip_is_bad_request() {
    let t = table_of(&[("/bad", 0)]);
    let r = resolve(&t, "/bad\u{1}");
    assert!(same(&r, &reject(BAD_REQUEST)));
    assert_eq!(BAD_REQUEST, 400);
    let r = resolve(&t, "/bad/ok\u{7f}");
    assert!(same(&r, &reject(BAD_REQUEST)));
}

#[test]
fn prefix_stripped_only_once() {
    let t = table_of(&[("/cluster1", 0)]);
    let r = resolve(&t, "/cluster1/cluster1/api");
    assert!(same(&r, &forward(0, "/cluster1/api")));
}

#[test]
fn overlapping_prefixes_follow_table_order() {
    let t = table_of(&[("/cluster1", 0), ("/cluster1s", 1)]);
    assert!(t.is_ambiguous());
    // "/cluster1" comes first and leaves "s/api", which is no request target.
    let first = resolve(&t, "/cluster1s/api");
    assert!(same(&first, &reject(BAD_REQUEST)));
    let again = resolve(&t, "/cluster1s/api");
    assert!(same(&first, &again));

    let t = table_of(&[("/cluster1s", 1), ("/cluster1", 0)]);
    assert!(t.is_ambiguous());
    assert!(same(&resolve(&t, "/cluster1s/api"), &forward(1, "/api")));
    assert!(same(&resolve(&t, "/cluster1/api"), &forward(0, "/api")));
}

#[test]
fn disjoint_prefixes_are_not_ambiguous() {
    assert!(!two_clusters().is_ambiguous());
    assert!(!RoutingTable::new().is_ambiguous());
}

#[test]
fn empty_table_rejects_everything() {
    let t = RoutingTable::new();
    assert_eq!(t.len(), 0);
    assert!(same(&resolve(&t, "/"), &reject(NOT_FOUND)));
    assert!(same(&resolve(&t, ""), &reject(NOT_FOUND)));
}

#[test]
fn insert_replaces_existing_prefix_in_place() {
    let mut t = RoutingTable::new();
    assert_eq!(t.insert("/a".to_string(), 1), None);
    assert_eq!(t.insert("/b".to_string(), 2), None);
    assert_eq!(t.insert("/a".to_string(), 7), Some(1));
    assert_eq!(t.len(), 2);
    assert_eq!(t.entry(0), ("/a", 7));
    assert_eq!(t.entry(1), ("/b", 2));
}

#[test]
fn select_cluster_records_cluster_on_forward() {
    let mut ctx = RouterCtx { selected_cluster: 9 };
    let r = select_cluster(&two_clusters(), "/cluster2/x", &mut ctx);
    assert!(same(&r, &forward(1, "/x")));
    assert_eq!(ctx.selected_cluster, 1);
}

#[test]
fn select_cluster_leaves_ctx_on_reject() {
    let mut ctx = RouterCtx { selected_cluster: 9 };
    let r = select_cluster(&two_clusters(), "/nope", &mut ctx);
    assert!(same(&r, &reject(NOT_FOUND)));
    assert_eq!(ctx.selected_cluster, 9);

    let t = table_of(&[("/bad", 3)]);
    let r = select_cluster(&t, "/bad\u{1}", &mut ctx);
    assert!(same(&r, &reject(BAD_REQUEST)));
    assert_eq!(ctx.selected_cluster, 9);
}

#[test]
fn forward_or_reject_branches() {
    assert!(same(&forward_or_reject(4, String::new(), false), &forward(4, "/")));
    assert!(same(&forward_or_reject(4, "/p".to_string(), true), &forward(4, "/p")));
    assert!(same(&forward_or_reject(4, "/p".to_string(), false), &reject(BAD_REQUEST)));
}

#[test]
fn unicode_prefix_strips_by_characters() {
    let t = table_of(&[("/caf\u{e9}", 5)]);
    assert!(same(&resolve(&t, "/caf\u{e9}/menu"), &forward(5, "/menu")));
}

