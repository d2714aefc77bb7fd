use rooibos::router::{Route, RouteAction, RouteContext, RouteError, Router, route_transition};

fn app_router() -> Router<&'static str> {
    Router::new()
        .routes(vec![
            Route::new("/".to_string(), "home"),
            Route::new("/users/{id}".to_string(), "user"),
            Route::new("/about".to_string(), "about"),
        ])
        .initial("/".to_string())
}

#[test]
fn router_defaults_to_the_root_path() {
    let r: Router<()> = Router::default();
    let (routes, initial) = r.into_parts();
    assert!(routes.is_empty());
    assert_eq!(initial, "/");
}

#[test]
fn router_component_keeps_its_parts() {
    let r = rooibos::router::Router(vec![Route::new("/x".to_string(), 1u8)], "/x".to_string());
    let (routes, initial) = r.into_parts();
    assert_eq!(routes.len(), 1);
    assert_eq!(routes[0].path(), "/x");
    assert_eq!(*routes[0].children(), 1u8);
    assert_eq!(initial, "/x");
}

#[test]
fn context_starts_at_the_initial_route() {
    let ctx = RouteContext::new(&app_router()).unwrap();
    let cur = ctx.current_route();
    assert!(cur.href.starts_with("app:"));
    assert_eq!(cur.path, "/");
    assert_eq!(ctx.current_index(), Some(0));
}

#[test]
fn push_visits_and_matches_routes() {
    let mut ctx = RouteContext::new(&app_router()).unwrap();
    ctx.push("/users/42?tab=posts&tab=likes");
    assert_eq!(ctx.current_route().path, "/users/42");
    assert_eq!(ctx.current_index(), Some(1));
    assert_eq!(ctx.try_use_param("id"), Some("42".to_string()));
    assert_eq!(ctx.try_use_param("name"), None);
    assert_eq!(ctx.try_use_query("tab"), Some("posts".to_string()));
    assert_eq!(ctx.try_use_query("missing"), None);
}

#[test]
fn pushing_the_current_route_again_adds_nothing() {
    let mut ctx = RouteContext::new(&app_router()).unwrap();
    ctx.push("/about");
    ctx.push("/about");
    ctx.pop();
    assert_eq!(ctx.current_route().path, "/");
}

#[test]
fn pop_undoes_push_and_keeps_the_first_route() {
    let mut ctx = RouteContext::new(&app_router()).unwrap();
    ctx.push("/about");
    assert_eq!(ctx.current_index(), Some(2));
    ctx.pop();
    assert_eq!(ctx.current_route().path, "/");
    ctx.pop();
    ctx.pop();
    assert_eq!(ctx.current_route().path, "/");
}

#[test]
fn unknown_path_matches_no_route() {
    let mut ctx = RouteContext::new(&app_router()).unwrap();
    ctx.push("/nowhere");
    assert_eq!(ctx.current_index(), None);
}

#[test]
fn try_push_refuses_what_does_not_parse() {
    let mut ctx = RouteContext::new(&app_router()).unwrap();
    assert!(ctx.try_push("/about"));
    assert!(!ctx.try_push("http://[::1"));
    assert_eq!(ctx.current_route().path, "/about");
}

#[test]
fn conflicting_patterns_are_refused() {
    let r = Router::new().routes(vec![Route::new("/a".to_string(), ()), Route::new("/a".to_string(), ())]);
    assert!(matches!(RouteContext::new(&r), Err(RouteError::Pattern(1))));
}

#[test]
fn an_initial_route_that_does_not_parse_is_refused() {
    let r: Router<()> = Router::new().initial("http://[::1".to_string());
    assert!(matches!(RouteContext::new(&r), Err(RouteError::Initial)));
}

#[test]
fn route_transitions() {
    assert_eq!(route_transition(None, 3), RouteAction::Build(3));
    assert_eq!(route_transition(Some(3), 3), RouteAction::Keep(3));
    assert_eq!(route_transition(Some(1), 3), RouteAction::Replace(3));
}

#[test]
fn route_param_tells_an_unmatched_path_apart() {
    let mut ctx = RouteContext::new(&app_router()).unwrap();
    ctx.push("/users/9");
    assert_eq!(ctx.route_param("id"), Some(Some("9".to_string())));
    assert_eq!(ctx.route_param("name"), Some(None));
    ctx.push("/nowhere");
    assert_eq!(ctx.current_index(), None);
    assert_eq!(ctx.route_param("id"), None);
}
