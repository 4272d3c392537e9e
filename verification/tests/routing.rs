use automaton_router::router::error::RouterBuilderError;
use automaton_router::router::method::Method;
use automaton_router::router::{compile, match_request, Builder, MatchOutcome, Route, Router};

fn roles_router() -> Router<&'static str> {
    Builder::new()
        .register(Route::get("/roles"), "H1")
        .register(Route::get("/roles/<id>"), "H2")
        .register(Route::post("/roles"), "H3")
        .build()
        .unwrap()
}

fn matched<'a>(
    router: &'a Router<&'static str>,
    method: Method,
    path: &str,
) -> Option<(&'static str, Vec<(String, String)>)> {
    match router.route(&method, path) {
        MatchOutcome::Matched { handler, params } => {
            let mut found = params.into_pairs();
            found.sort();
            Some((*handler, found))
        }
        MatchOutcome::NotFound => None,
    }
}

fn pairs(items: &[(&str, &str)]) -> Vec<(String, String)> {
    items.iter().map(|(name, value)| (name.to_string(), value.to_string())).collect()
}

#[test]
fn get_roles_matches_first_handler() {
    let router = roles_router();
    assert_eq!(matched(&router, Method::Get, "/roles"), Some(("H1", pairs(&[]))));
}

#[test]
fn get_role_by_id_captures_until_delimiter() {
    let router = roles_router();
    assert_eq!(matched(&router, Method::Get, "/roles/7/"), Some(("H2", pairs(&[("id", "7")]))));
}

#[test]
fn get_role_by_id_without_delimiter_is_not_found() {
    let router = roles_router();
    assert_eq!(matched(&router, Method::Get, "/roles/7"), None);
}

#[test]
fn post_roles_matches_third_handler() {
    let router = roles_router();
    assert_eq!(matched(&router, Method::Post, "/roles"), Some(("H3", pairs(&[]))));
}

#[test]
fn delete_roles_is_not_found() {
    let router = roles_router();
    assert_eq!(matched(&router, Method::Delete, "/roles"), None);
}

#[test]
fn unknown_path_is_not_found() {
    let router = roles_router();
    assert_eq!(matched(&router, Method::Get, "/users"), None);
    assert_eq!(matched(&router, Method::Get, "/role"), None);
    assert_eq!(matched(&router, Method::Get, "/roles/"), None);
    assert_eq!(matched(&router, Method::Get, ""), None);
}

#[test]
fn capture_ends_at_delimiter() {
    let router = Builder::new().register(Route::get("/roles/<id>"), "H").build().unwrap();
    assert_eq!(matched(&router, Method::Get, "/roles/42/"), Some(("H", pairs(&[("id", "42")]))));
    assert_eq!(matched(&router, Method::Get, "/roles/42"), None);
    assert_eq!(matched(&router, Method::Get, "/roles/42/extra"), None);
    assert_eq!(matched(&router, Method::Get, "/roles/42/extra/"), None);
}

#[test]
fn put_without_capture_and_delimiter_is_not_found() {
    let router = Builder::new().register(Route::put("/roles/<id>"), "H4").build().unwrap();
    assert_eq!(matched(&router, Method::Put, "/roles/"), None);
}

#[test]
fn empty_capture_leaves_no_parameter() {
    let router = Builder::new().register(Route::put("/roles/<id>"), "H4").build().unwrap();
    assert_eq!(matched(&router, Method::Put, "/roles//"), Some(("H4", pairs(&[]))));
}

#[test]
fn last_registered_route_wins() {
    let router = Builder::new()
        .register(Route::get("/x"), "H5")
        .register(Route::get("/x"), "H6")
        .build()
        .unwrap();
    assert_eq!(matched(&router, Method::Get, "/x"), Some(("H6", pairs(&[]))));
}

#[test]
fn routes_differ_by_method_only() {
    let router = Builder::new()
        .register(Route::get("/roles/<id>"), "get")
        .register(Route::put("/roles/<id>"), "put")
        .register(Route::delete("/roles/<id>"), "delete")
        .build()
        .unwrap();
    assert_eq!(matched(&router, Method::Get, "/roles/1/"), Some(("get", pairs(&[("id", "1")]))));
    assert_eq!(matched(&router, Method::Put, "/roles/1/"), Some(("put", pairs(&[("id", "1")]))));
    assert_eq!(
        matched(&router, Method::Delete, "/roles/1/"),
        Some(("delete", pairs(&[("id", "1")])))
    );
    assert_eq!(matched(&router, Method::Post, "/roles/1/"), None);
    assert_eq!(matched(&router, Method::Patch, "/roles/1/"), None);
}

#[test]
fn two_parameters_are_captured_under_their_names() {
    let router = Builder::new()
        .register(Route::from(Method::Patch, "/users/<user>roles/<role>"), 9u32)
        .build()
        .unwrap();
    match router.route(&Method::Patch, "/users/ann/roles/admin/") {
        MatchOutcome::Matched { handler, params } => {
            assert_eq!(*handler, 9);
            assert_eq!(params.len(), 2);
            assert_eq!(params.get("user").map(|s| s.as_str()), Some("ann"));
            assert_eq!(params.get("role").map(|s| s.as_str()), Some("admin"));
            assert_eq!(params.get("id"), None);
        }
        MatchOutcome::NotFound => panic!("not found"),
    }
}

#[test]
fn delimiter_after_parameter_in_template_is_a_second_delimiter() {
    let router = Builder::new().register(Route::get("/a/<x>/b"), 1u8).build().unwrap();
    assert!(matches!(router.route(&Method::Get, "/a/5/b"), MatchOutcome::NotFound));
    match router.route(&Method::Get, "/a/5//b") {
        MatchOutcome::Matched { handler, params } => {
            assert_eq!(*handler, 1);
            assert_eq!(params.into_pairs(), pairs(&[("x", "5")]));
        }
        MatchOutcome::NotFound => panic!("not found"),
    }
}

#[test]
fn literal_edge_is_taken_before_the_capture() {
    let router = Builder::new()
        .register(Route::get("/roles/<id>"), "by id")
        .register(Route::get("/roles/new"), "new")
        .build()
        .unwrap();
    assert_eq!(matched(&router, Method::Get, "/roles/new"), Some(("new", pairs(&[]))));
    assert_eq!(matched(&router, Method::Get, "/roles/7/"), Some(("by id", pairs(&[("id", "7")]))));
    assert_eq!(matched(&router, Method::Get, "/roles/next/"), None);
    assert_eq!(matched(&router, Method::Get, "/roles/xnew"), Some(("new", pairs(&[("id", "x")]))));
}

#[test]
fn parameter_at_the_start_of_the_template() {
    let router = Builder::new().register(Route::get("<all>"), 'h').build().unwrap();
    match router.route(&Method::Get, "anything/") {
        MatchOutcome::Matched { handler, params } => {
            assert_eq!(*handler, 'h');
            assert_eq!(params.into_pairs(), pairs(&[("all", "anything")]));
        }
        MatchOutcome::NotFound => panic!("not found"),
    }
}

#[test]
fn empty_template_matches_the_empty_path() {
    let router = Builder::new().register(Route::get(""), 0i32).build().unwrap();
    assert!(matches!(router.route(&Method::Get, ""), MatchOutcome::Matched { handler: &0, .. }));
    assert!(matches!(router.route(&Method::Get, "/"), MatchOutcome::NotFound));
    assert!(matches!(router.route(&Method::Head, ""), MatchOutcome::NotFound));
}

#[test]
fn empty_table_finds_nothing() {
    let router: Router<u8> = Builder::new().build().unwrap();
    assert!(matches!(router.route(&Method::Get, ""), MatchOutcome::NotFound));
    assert!(matches!(router.route(&Method::Get, "/"), MatchOutcome::NotFound));
    assert_eq!(router.node_count(), 1);
}

#[test]
fn characters_beyond_ascii_are_single_tokens() {
    let router = Builder::new().register(Route::get("/rôles/<nom>"), 3u8).build().unwrap();
    match router.route(&Method::Get, "/rôles/zoë/") {
        MatchOutcome::Matched { handler, params } => {
            assert_eq!(*handler, 3);
            assert_eq!(params.get("nom").map(|s| s.as_str()), Some("zoë"));
        }
        MatchOutcome::NotFound => panic!("not found"),
    }
    assert!(matches!(router.route(&Method::Get, "/roles/zoë/"), MatchOutcome::NotFound));
}

#[test]
fn free_functions_compile_and_match() {
    let routes = vec![(Route::get("/a"), 1u8), (Route::post("/a"), 2u8)];
    let router = compile(routes).unwrap();
    assert!(matches!(
        match_request(&router, Method::Get, "/a"),
        MatchOutcome::Matched { handler: &1, .. }
    ));
    assert!(matches!(
        match_request(&router, Method::Post, "/a"),
        MatchOutcome::Matched { handler: &2, .. }
    ));
    assert!(matches!(match_request(&router, Method::Put, "/a"), MatchOutcome::NotFound));
}

#[test]
fn malformed_templates_are_refused() {
    for template in ["/a/<id", "/a/id>", "/a/<<id>", "/a/<i<d>", ">", "<", "/a/<id>>", "<a><"] {
        let result = Builder::new().register(Route::get(template), 0u8).build();
        assert_eq!(result.err(), Some(RouterBuilderError::InvalidPath), "{}", template);
    }
}

#[test]
fn duplicate_parameter_is_refused() {
    let result = Builder::new().register(Route::get("/<id>a/<id>"), 0u8).build();
    assert_eq!(result.err(), Some(RouterBuilderError::DuplicateParameter));
}

#[test]
fn conflicting_parameter_is_refused() {
    let result = Builder::new()
        .register(Route::get("/a/<x>b"), 0u8)
        .register(Route::get("/a/<y>c"), 1u8)
        .build();
    assert_eq!(result.err(), Some(RouterBuilderError::ConflictingParameter));
}

#[test]
fn same_parameter_at_the_same_place_is_shared() {
    let router = Builder::new()
        .register(Route::get("/a/<x>b"), 0u8)
        .register(Route::get("/a/<x>c"), 1u8)
        .build()
        .unwrap();
    assert!(matches!(
        router.route(&Method::Get, "/a/1/b"),
        MatchOutcome::Matched { handler: &0, .. }
    ));
    assert!(matches!(
        router.route(&Method::Get, "/a/1/c"),
        MatchOutcome::Matched { handler: &1, .. }
    ));
}

#[test]
fn first_fault_in_registration_order_is_reported() {
    let result = Builder::new()
        .register(Route::get("/ok"), 0u8)
        .register(Route::get("/<a><a>"), 1u8)
        .register(Route::get("/<"), 2u8)
        .build();
    assert_eq!(result.err(), Some(RouterBuilderError::DuplicateParameter));
    let result = Builder::new()
        .register(Route::get("/<"), 2u8)
        .register(Route::get("/<a><a>"), 1u8)
        .build();
    assert_eq!(result.err(), Some(RouterBuilderError::InvalidPath));
}

#[test]
fn malformed_template_is_reported_before_duplicate_names() {
    let result = Builder::new().register(Route::get("/<a><a>>"), 1u8).build();
    assert_eq!(result.err(), Some(RouterBuilderError::InvalidPath));
}

#[test]
fn error_messages() {
    assert_eq!(RouterBuilderError::InvalidPath.message(), "invalid path");
    assert_eq!(RouterBuilderError::DuplicateParameter.message(), "duplicate parameter");
    assert_eq!(RouterBuilderError::ConflictingParameter.message(), "conflicting parameter");
}

#[test]
fn route_constructors_keep_method_and_path() {
    assert_eq!(Route::get("/a").method(), Method::Get);
    assert_eq!(Route::post("/a").method(), Method::Post);
    assert_eq!(Route::put("/a").method(), Method::Put);
    assert_eq!(Route::delete("/a").method(), Method::Delete);
    assert_eq!(Route::from(Method::Options, "/a").method(), Method::Options);
    assert_eq!(Route::from(Method::Options, "/a/<b>").path(), "/a/<b>");
}
