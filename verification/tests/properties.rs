use automaton_router::router::method::Method;
use automaton_router::router::{Builder, MatchOutcome, Route, Router};

const METHODS: [Method; 9] = [
    Method::Get,
    Method::Post,
    Method::Put,
    Method::Delete,
    Method::Head,
    Method::Options,
    Method::Connect,
    Method::Patch,
    Method::Trace,
];

fn table() -> Vec<(Route, u32)> {
    vec![
        (Route::get("/api/v1/roles"), 1),
        (Route::get("/api/v1/roles/<id>"), 2),
        (Route::post("/api/v1/roles"), 3),
        (Route::put("/api/v1/roles/<id>"), 4),
        (Route::delete("/api/v1/roles/<id>"), 5),
        (Route::post("/api/v1/users"), 6),
    ]
}

fn build(routes: Vec<(Route, u32)>) -> Router<u32> {
    let mut builder = Builder::new();
    for (route, handler) in routes {
        builder = builder.register(route, handler);
    }
    builder.build().unwrap()
}

fn outcome(
    router: &Router<u32>,
    method: Method,
    path: &str,
) -> Option<(u32, Vec<(String, String)>)> {
    match router.route(&method, path) {
        MatchOutcome::Matched { handler, params } => {
            let mut found = params.into_pairs();
            found.sort();
            Some((*handler, found))
        }
        MatchOutcome::NotFound => None,
    }
}

const PATHS: [&str; 12] = [
    "",
    "/",
    "/api/v1/roles",
    "/api/v1/roles/",
    "/api/v1/roles/12",
    "/api/v1/roles/12/",
    "/api/v1/roles//",
    "/api/v1/roles/12/3/",
    "/api/v1/users",
    "/api/v1/users/",
    "/api/v2/roles",
    "/api/v1/role",
];

#[test]
fn every_route_matches_the_path_that_fills_its_template() {
    let router = build(table());
    assert_eq!(outcome(&router, Method::Get, "/api/v1/roles"), Some((1, vec![])));
    assert_eq!(
        outcome(&router, Method::Get, "/api/v1/roles/12/"),
        Some((2, vec![("id".to_string(), "12".to_string())]))
    );
    assert_eq!(outcome(&router, Method::Post, "/api/v1/roles"), Some((3, vec![])));
    assert_eq!(
        outcome(&router, Method::Put, "/api/v1/roles/abc/"),
        Some((4, vec![("id".to_string(), "abc".to_string())]))
    );
    assert_eq!(
        outcome(&router, Method::Delete, "/api/v1/roles/-1/"),
        Some((5, vec![("id".to_string(), "-1".to_string())]))
    );
    assert_eq!(outcome(&router, Method::Post, "/api/v1/users"), Some((6, vec![])));
}

#[test]
fn a_request_matched_by_the_table_is_matched_by_one_route_alone() {
    let router = build(table());
    for method in METHODS {
        for path in PATHS {
            let whole = outcome(&router, method, path);
            let alone: Vec<_> = table()
                .into_iter()
                .filter(|(route, _)| route.method() == method)
                .map(|entry| outcome(&build(vec![entry]), method, path))
                .filter(|found| found.is_some())
                .collect();
            match whole {
                Some(_) => assert!(alone.contains(&whole), "{:?} {}", method, path),
                None => assert!(alone.is_empty(), "{:?} {}", method, path),
            }
        }
    }
}

#[test]
fn unregistered_method_is_not_found() {
    let router = build(table());
    for method in [Method::Head, Method::Options, Method::Connect, Method::Patch, Method::Trace] {
        for path in PATHS {
            assert_eq!(outcome(&router, method, path), None);
        }
    }
}

#[test]
fn compiling_twice_gives_the_same_outcomes() {
    let first = build(table());
    let second = build(table());
    assert_eq!(first.node_count(), second.node_count());
    for method in METHODS {
        for path in PATHS {
            assert_eq!(outcome(&first, method, path), outcome(&second, method, path));
        }
    }
}

#[test]
fn routes_with_a_common_start_share_nodes() {
    let roles = build(vec![(Route::get("/roles"), 1)]);
    assert_eq!(roles.node_count(), 1 + 7);
    let by_id = build(vec![(Route::get("/roles/<id>"), 2)]);
    assert_eq!(by_id.node_count(), 1 + 9);
    let both = build(vec![(Route::get("/roles"), 1), (Route::get("/roles/<id>"), 2)]);
    assert_eq!(both.node_count(), 1 + 7 + 3);
    assert!(both.node_count() + 6 <= 1 + 7 + 9);
}

#[test]
fn a_route_registered_twice_adds_no_node() {
    let once = build(vec![(Route::get("/roles/<id>"), 2)]);
    let twice = build(vec![(Route::get("/roles/<id>"), 2), (Route::get("/roles/<id>"), 3)]);
    assert_eq!(once.node_count(), twice.node_count());
}

#[test]
fn node_count_of_the_whole_table() {
    let router = build(table());
    // start; "/api/v1/roles" and GET; "/"; "/" and GET; POST; PUT; DELETE; "users" and POST
    assert_eq!(router.node_count(), 1 + 14 + 1 + 2 + 1 + 1 + 1 + 6);
}

#[test]
fn registering_every_route_twice_changes_no_outcome() {
    let once = build(table());
    let mut doubled = table();
    doubled.extend(table());
    let twice = build(doubled);
    assert_eq!(once.node_count(), twice.node_count());
    for method in METHODS {
        for path in PATHS {
            assert_eq!(outcome(&once, method, path), outcome(&twice, method, path));
        }
    }
}

#[test]
fn a_later_route_with_the_same_tokens_takes_the_handler() {
    // "/roles/<id>" and "/roles//" have the same tokens: the second "/" is the
    // delimiter of the first and a literal of the second.
    let router = build(vec![(Route::get("/roles/<id>"), 1), (Route::get("/roles//"), 2)]);
    assert_eq!(
        outcome(&router, Method::Get, "/roles/7/"),
        Some((2, vec![("id".to_string(), "7".to_string())]))
    );
    assert_eq!(outcome(&router, Method::Get, "/roles//"), Some((2, vec![])));
}

#[test]
fn a_capture_on_the_way_of_a_literal_route_is_shared() {
    // The second route passes the place where the first captures.
    let router = build(vec![(Route::get("/a/<x>"), 1), (Route::get("/a//b"), 2)]);
    assert_eq!(
        outcome(&router, Method::Get, "/a/zz/b"),
        Some((2, vec![("x".to_string(), "zz".to_string())]))
    );
    assert_eq!(outcome(&build(vec![(Route::get("/a//b"), 2)]), Method::Get, "/a/zz/b"), None);
}
