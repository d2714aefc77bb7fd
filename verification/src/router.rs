use vstd::prelude::*;

use matchit::Router as PathRouter;
use url::Url;

verus! {

#[verifier::external_type_specification]
#[verifier::external_body]
#[verifier::reject_recursive_types(T)]
pub struct ExPathRouter<T>(PathRouter<T>);

/// A route of the application, parsed against the base `app://`: the whole URL, its
/// path, and the pairs of its query string in order.
#[derive(Debug)]
pub struct RouteUrl {
    pub href: String,
    pub path: String,
    pub query: Vec<(String, String)>,
}

/// The text of a route: URL, path and query pairs.
pub type RouteUrlView = (Seq<char>, Seq<char>, Seq<(Seq<char>, Seq<char>)>);

impl View for RouteUrl {
    type V = RouteUrlView;

    open spec fn view(&self) -> RouteUrlView {
        (self.href@, self.path@, self.query@.map_values(|q: (String, String)| (q.0@, q.1@)))
    }
}

/// What the `url` crate makes of `route` when it parses it against the base URL `base`
/// (`None` when it refuses either).
pub uninterp spec fn parsed_route(base: Seq<char>, route: Seq<char>) -> Option<RouteUrlView>;

/// The base URL that routes are parsed against.
pub const ROUTE_BASE: &'static str = "app://";

/// The route `route` parsed against [`ROUTE_BASE`].
pub open spec fn parsed(route: Seq<char>) -> Option<RouteUrlView> {
    parsed_route(ROUTE_BASE@, route)
}

/// `Url::parse` of `base`, then `Url::options().base_url(..).parse` of `route` against
/// it: hands back the URL (`Url::as_str`), its path (`Url::path`) and its query pairs
/// (`Url::query_pairs`), or nothing when either does not parse.
#[verifier::external_body]
fn parse_route(base: &str, route: &str) -> (r: Option<RouteUrl>)
    ensures
        match r {
            Some(u) => parsed_route(base@, route@) == Some(u@),
            None => parsed_route(base@, route@) is None,
        },
{
    let base = Url::parse(base).ok()?;
    let url = Url::options().base_url(Some(&base)).parse(route).ok()?;
    let query = url.query_pairs().map(|(k, v)| (k.into_owned(), v.into_owned())).collect();
    Some(RouteUrl { href: url.as_str().to_owned(), path: url.path().to_owned(), query })
}

/// The route patterns a `matchit` router holds, each with the value stored for it.
pub uninterp spec fn route_patterns(r: PathRouter<usize>) -> Map<Seq<char>, usize>;

/// The value of the route that a `matchit` router holding `patterns` finds for `path`.
pub uninterp spec fn matched_route(patterns: Map<Seq<char>, usize>, path: Seq<char>) -> Option<usize>;

/// The value of the parameter `name` that the route matching `path` captures, in a
/// `matchit` router holding `patterns`.
pub uninterp spec fn matched_param(patterns: Map<Seq<char>, usize>, path: Seq<char>, name: Seq<char>) -> Option<Seq<char>>;

/// `matchit::Router::new`: a router with no routes.
#[verifier::external_body]
fn table_new() -> (r: PathRouter<usize>)
    ensures
        route_patterns(r).dom() == Set::<Seq<char>>::empty(),
{
    PathRouter::new()
}

/// Whether a `matchit` router holding `patterns` takes the pattern `route` (it refuses a
/// malformed pattern or one that conflicts with those it holds).
pub uninterp spec fn route_accepted(patterns: Map<Seq<char>, usize>, route: Seq<char>) -> bool;

/// `matchit::Router::insert`: adds the pattern `route` with `value`; `true` when the
/// router took it, which depends on the patterns it holds and `route` alone. When it
/// refuses, nothing is stated of the router afterwards.
#[verifier::external_body]
fn table_insert(r: &mut PathRouter<usize>, route: &str, value: usize) -> (ok: bool)
    ensures
        ok == route_accepted(route_patterns(*old(r)), route@),
        ok ==> route_patterns(*final(r)) == route_patterns(*old(r)).insert(route@, value),
{
    r.insert(route, value).is_ok()
}

/// `matchit::Router::at`: the value of the route that matches `path`; it is the value
/// of one of the routes the router holds.
#[verifier::external_body]
fn table_at(r: &PathRouter<usize>, path: &str) -> (v: Option<usize>)
    ensures
        v == matched_route(route_patterns(*r), path@),
        v matches Some(i) ==> exists|p: Seq<char>| #[trigger] route_patterns(*r).contains_key(p) && route_patterns(*r)[p] == i,
{
    match r.at(path) {
        Ok(m) => Some(*m.value),
        Err(_) => None,
    }
}

/// `matchit::Params::get` on the match of `path`: the value captured for `name`, or
/// nothing when no route matches or the route has no such parameter.
#[verifier::external_body]
fn table_param(r: &PathRouter<usize>, path: &str, name: &str) -> (v: Option<String>)
    ensures
        match v {
            Some(s) => matched_param(route_patterns(*r), path@, name@) == Some(s@),
            None => matched_param(route_patterns(*r), path@, name@) is None,
        },
{
    match r.at(path) {
        Ok(m) => m.params.get(name).map(|s| s.to_owned()),
        Err(_) => None,
    }
}

/// A route of the application: a path pattern and what to show for it.
pub struct Route<C> {
    path: String,
    children: C,
}

impl<C> Route<C> {
    /// The route with the pattern `path` that shows `children`.
    pub fn new(path: String, children: C) -> (r: Route<C>)
        ensures
            r.spec_path() == path@,
            r.spec_children() == children,
    {
        Route { path, children }
    }

    /// The path pattern of the route.
    pub closed spec fn spec_path(&self) -> Seq<char> {
        self.path@
    }

    /// What the route shows.
    pub closed spec fn spec_children(&self) -> C {
        self.children
    }

    /// The path pattern of the route.
    pub fn path(&self) -> (r: &String)
        ensures
            r@ == self.spec_path(),
    {
        &self.path
    }

    /// What the route shows.
    pub fn children(&self) -> (r: &C)
        ensures
            *r == self.spec_children(),
    {
        &self.children
    }
}

/// The routes of the application and the route it starts at.
pub struct Router<C> {
    routes: Vec<Route<C>>,
    initial: String,
}

impl<C> Router<C> {
    /// No routes, starting at `/`.
    pub fn new() -> (r: Router<C>)
        ensures
            r.spec_routes().len() == 0,
            r.spec_initial() == "/"@,
    {
        Router { routes: Vec::new(), initial: "/".to_owned() }
    }

    /// The routes.
    pub closed spec fn spec_routes(&self) -> Seq<Route<C>> {
        self.routes@
    }

    /// The route the application starts at.
    pub closed spec fn spec_initial(&self) -> Seq<char> {
        self.initial@
    }

    /// The same router with the routes `routes`.
    pub fn routes(self, routes: Vec<Route<C>>) -> (r: Router<C>)
        ensures
            r.spec_routes() == routes@,
            r.spec_initial() == self.spec_initial(),
    {
        Router { routes, initial: self.initial }
    }

    /// The same router starting at `initial`.
    pub fn initial(self, initial: String) -> (r: Router<C>)
        ensures
            r.spec_routes() == self.spec_routes(),
            r.spec_initial() == initial@,
    {
        Router { routes: self.routes, initial }
    }

    /// The routes, to take apart.
    pub fn into_parts(self) -> (r: (Vec<Route<C>>, String))
        ensures
            r.0@ == self.spec_routes(),
            r.1@ == self.spec_initial(),
    {
        (self.routes, self.initial)
    }
}

impl<C> Default for Router<C> {
    fn default() -> (r: Router<C>)
        ensures
            r.spec_routes().len() == 0,
            r.spec_initial() == "/"@,
    {
        Router::new()
    }
}

/// The router with `routes`, starting at `initial`.
#[allow(non_snake_case)]
pub fn Router<C>(routes: Vec<Route<C>>, initial: String) -> (r: Router<C>)
    ensures
        r.spec_routes() == routes@,
        r.spec_initial() == initial@,
{
    Router { routes, initial }
}

/// The routes visited, oldest first; the last one is the current route.
pub struct RouteHistory {
    entries: Vec<RouteUrl>,
}

impl View for RouteHistory {
    type V = Seq<RouteUrlView>;

    closed spec fn view(&self) -> Seq<RouteUrlView> {
        self.entries@.map_values(|u: RouteUrl| u@)
    }
}

/// The history after visiting `url`: unchanged when `url` is the current route.
pub open spec fn pushed(h: Seq<RouteUrlView>, url: RouteUrlView) -> Seq<RouteUrlView> {
    if h.len() > 0 && h.last().0 == url.0 {
        h
    } else {
        h.push(url)
    }
}

/// The history after going back: the current route is dropped unless it is the only one.
pub open spec fn popped(h: Seq<RouteUrlView>) -> Seq<RouteUrlView> {
    if h.len() > 1 {
        h.drop_last()
    } else {
        h
    }
}

impl RouteHistory {
    /// A history holding just `initial`.
    pub fn new(initial: RouteUrl) -> (r: RouteHistory)
        ensures
            r@ == seq![initial@],
    {
        let mut entries = Vec::new();
        entries.push(initial);
        let r = RouteHistory { entries };
        proof {
            assert(r@ =~= seq![initial@]);
        }
        r
    }

    /// Visits `url`, unless it already is the current route.
    pub fn push_url(&mut self, url: RouteUrl)
        ensures
            final(self)@ == pushed(old(self)@, url@),
    {
        let n = self.entries.len();
        if n > 0 && self.entries[n - 1].href == url.href {
            return;
        }
        self.entries.push(url);
        proof {
            assert(self@ =~= old(self)@.push(url@));
        }
    }

    /// Goes back one route, keeping the first one.
    pub fn pop(&mut self)
        ensures
            final(self)@ == popped(old(self)@),
    {
        if self.entries.len() > 1 {
            self.entries.pop();
            proof {
                assert(self@ =~= old(self)@.drop_last());
            }
        }
    }

    /// How many routes the history holds.
    pub fn len(&self) -> (r: usize)
        ensures
            r == self@.len(),
    {
        self.entries.len()
    }

    /// The current route.
    pub fn current(&self) -> (r: &RouteUrl)
        requires
            self@.len() > 0,
        ensures
            r@ == self@.last(),
    {
        &self.entries[self.entries.len() - 1]
    }
}

/// Why the routes of an application could not be set up.
#[derive(Debug, Clone, Copy, PartialEq, Eq, Structural)]
pub enum RouteError {
    /// The router refused the pattern of the route at this index.
    Pattern(usize),
    /// The route to start at does not parse as a URL.
    Initial,
}

/// The route table and the history of an application.
pub struct RouteContext {
    history: RouteHistory,
    table: PathRouter<usize>,
}

/// The patterns of `routes`, each with its index.
pub open spec fn indexed_patterns<C>(routes: Seq<Route<C>>) -> Map<Seq<char>, usize>
    decreases routes.len(),
{
    if routes.len() == 0 {
        Map::empty()
    } else {
        indexed_patterns(routes.drop_last()).insert(routes.last().spec_path(), (routes.len() - 1) as usize)
    }
}

/// Each of the first `n` patterns of `routes` is taken by a router that holds the
/// patterns before it.
pub open spec fn all_accepted<C>(routes: Seq<Route<C>>, n: int) -> bool {
    forall|j: int| 0 <= j < n ==> #[trigger] route_accepted(indexed_patterns(routes.take(j)), routes[j].spec_path())
}

impl RouteContext {
    /// The patterns of the route table.
    pub closed spec fn patterns(&self) -> Map<Seq<char>, usize> {
        route_patterns(self.table)
    }

    /// The history.
    pub closed spec fn spec_history(&self) -> Seq<RouteUrlView> {
        self.history@
    }

    /// Sets up the routes of `router`, each pattern with its index, and a history that
    /// holds the route to start at.
    pub fn new<C>(router: &Router<C>) -> (r: Result<RouteContext, RouteError>)
        ensures
            match r {
                Ok(ctx) => {
                    &&& ctx.patterns() == indexed_patterns(router.spec_routes())
                    &&& parsed(router.spec_initial()) matches Some(u) && ctx.spec_history() == seq![u]
                    &&& all_accepted(router.spec_routes(), router.spec_routes().len() as int)
                },
                Err(RouteError::Initial) => parsed(router.spec_initial()) is None,
                Err(RouteError::Pattern(i)) => {
                    &&& parsed(router.spec_initial()) is Some
                    &&& i < router.spec_routes().len()
                    &&& all_accepted(router.spec_routes(), i as int)
                    &&& !route_accepted(indexed_patterns(router.spec_routes().take(i as int)), router.spec_routes()[i as int].spec_path())
                },
            },
            parsed(router.spec_initial()) is Some && all_accepted(router.spec_routes(), router.spec_routes().len() as int) ==> r is Ok,
    {
        let initial = match parse_route(ROUTE_BASE, router.initial.as_str()) {
            Some(u) => u,
            None => {
                return Err(RouteError::Initial);
            },
        };
        let mut table = table_new();
        let mut i: usize = 0;
        while i < router.routes.len()
            invariant
                i <= router.routes@.len(),
                route_patterns(table) == indexed_patterns(router.routes@.take(i as int)),
                parsed(router.spec_initial()) is Some,
                all_accepted(router.routes@, i as int),
            decreases router.routes@.len() - i,
        {
            let ok = table_insert(&mut table, router.routes[i].path.as_str(), i);
            if !ok {
                return Err(RouteError::Pattern(i));
            }
            proof {
                let rs = router.routes@;
                assert(rs.take(i as int + 1).drop_last() =~= rs.take(i as int));
            }
            i = i + 1;
        }
        proof {
            assert(router.routes@.take(i as int) =~= router.routes@);
        }
        Ok(RouteContext { history: RouteHistory::new(initial), table })
    }

    /// Visits `route`, which must parse, unless it already is the current route.
    pub fn push(&mut self, route: &str)
        requires
            parsed(route@) is Some,
        ensures
            final(self).patterns() == old(self).patterns(),
            final(self).spec_history() == pushed(old(self).spec_history(), parsed(route@).unwrap()),
    {
        match parse_route(ROUTE_BASE, route) {
            Some(u) => self.history.push_url(u),
            None => {},
        }
    }

    /// Visits `route` when it parses; says whether it did.
    pub fn try_push(&mut self, route: &str) -> (r: bool)
        ensures
            r == parsed(route@) is Some,
            final(self).patterns() == old(self).patterns(),
            final(self).spec_history() == if r {
                pushed(old(self).spec_history(), parsed(route@).unwrap())
            } else {
                old(self).spec_history()
            },
    {
        match parse_route(ROUTE_BASE, route) {
            Some(u) => {
                self.history.push_url(u);
                true
            },
            None => false,
        }
    }

    /// Goes back one route, keeping the first one.
    pub fn pop(&mut self)
        ensures
            final(self).patterns() == old(self).patterns(),
            final(self).spec_history() == popped(old(self).spec_history()),
    {
        self.history.pop()
    }

    /// The current route.
    pub fn current_route(&self) -> (r: &RouteUrl)
        requires
            self.spec_history().len() > 0,
        ensures
            r@ == self.spec_history().last(),
    {
        self.history.current()
    }

    /// The index of the route that the current path matches, if any.
    pub fn current_index(&self) -> (r: Option<usize>)
        requires
            self.spec_history().len() > 0,
        ensures
            r == matched_route(self.patterns(), self.spec_history().last().1),
    {
        let cur = self.history.current();
        table_at(&self.table, cur.path.as_str())
    }

    /// The value the current route captures for the parameter `param`, when the current
    /// path matches a route (it must).
    pub fn try_use_param(&self, param: &str) -> (r: Option<String>)
        requires
            self.spec_history().len() > 0,
            matched_route(self.patterns(), self.spec_history().last().1) is Some,
        ensures
            match r {
                Some(s) => matched_param(self.patterns(), self.spec_history().last().1, param@) == Some(s@),
                None => matched_param(self.patterns(), self.spec_history().last().1, param@) is None,
            },
    {
        let cur = self.history.current();
        match table_param(&self.table, cur.path.as_str(), param) {
            Some(_) => Some(self.use_param(param)),
            None => None,
        }
    }

    /// The value the current route captures for the parameter `param`, which it must capture.
    pub fn use_param(&self, param: &str) -> (r: String)
        requires
            self.spec_history().len() > 0,
            matched_route(self.patterns(), self.spec_history().last().1) is Some,
            matched_param(self.patterns(), self.spec_history().last().1, param@) is Some,
        ensures
            matched_param(self.patterns(), self.spec_history().last().1, param@) == Some(r@),
    {
        let cur = self.history.current();
        table_param(&self.table, cur.path.as_str(), param).unwrap()
    }

    /// The value the current route captures for `param` (`Some(None)` when it captures
    /// none), or nothing when the current path matches no route.
    pub fn route_param(&self, param: &str) -> (r: Option<Option<String>>)
        requires
            self.spec_history().len() > 0,
        ensures
            match r {
                None => matched_route(self.patterns(), self.spec_history().last().1) is None,
                Some(v) => matched_route(self.patterns(), self.spec_history().last().1) is Some && match v {
                    Some(s) => matched_param(self.patterns(), self.spec_history().last().1, param@) == Some(s@),
                    None => matched_param(self.patterns(), self.spec_history().last().1, param@) is None,
                },
            },
    {
        match self.current_index() {
            Some(_) => Some(self.try_use_param(param)),
            None => None,
        }
    }

    /// The value of the first query pair of the current route named `query`.
    pub fn try_use_query(&self, query: &str) -> (r: Option<String>)
        requires
            self.spec_history().len() > 0,
        ensures
            match r {
                Some(s) => query_value(self.spec_history().last().2, query@) == Some(s@),
                None => query_value(self.spec_history().last().2, query@) is None,
            },
    {
        let cur = self.history.current();
        let key = query.to_owned();
        let mut i: usize = 0;
        while i < cur.query.len()
            invariant
                self.spec_history().len() > 0,
                cur@ == self.spec_history().last(),
                i <= cur.query@.len(),
                key@ == query@,
                forall|j: int| 0 <= j < i ==> #[trigger] cur.query@[j].0@ != query@,
            decreases cur.query@.len() - i,
        {
            if cur.query[i].0 == key {
                proof {
                    assert forall|j: int| 0 <= j < i implies #[trigger] cur@.2[j].0 != query@ by {
                        assert(cur@.2[j] == (cur.query@[j].0@, cur.query@[j].1@));
                    }
                    assert(cur@.2[i as int] == (cur.query@[i as int].0@, cur.query@[i as int].1@));
                    lemma_query_value_at(cur@.2, query@, i as int);
                }
                let v = cur.query[i].1.clone();
                return Some(v);
            }
            i = i + 1;
        }
        proof {
            assert forall|j: int| 0 <= j < cur@.2.len() implies #[trigger] cur@.2[j].0 != query@ by {
                assert(cur@.2[j] == (cur.query@[j].0@, cur.query@[j].1@));
            }
            lemma_query_value_none(cur@.2, query@);
        }
        None
    }

    /// The value of the first query pair of the current route named `query`, which must exist.
    pub fn use_query(&self, query: &str) -> (r: String)
        requires
            self.spec_history().len() > 0,
            query_value(self.spec_history().last().2, query@) is Some,
        ensures
            query_value(self.spec_history().last().2, query@) == Some(r@),
    {
        self.try_use_query(query).unwrap()
    }
}

/// The value of the first pair of `pairs` named `name`.
pub open spec fn query_value(pairs: Seq<(Seq<char>, Seq<char>)>, name: Seq<char>) -> Option<Seq<char>>
    decreases pairs.len(),
{
    if pairs.len() == 0 {
        None
    } else if pairs[0].0 == name {
        Some(pairs[0].1)
    } else {
        query_value(pairs.drop_first(), name)
    }
}

proof fn lemma_query_value_at(pairs: Seq<(Seq<char>, Seq<char>)>, name: Seq<char>, i: int)
    requires
        0 <= i < pairs.len(),
        pairs[i].0 == name,
        forall|j: int| 0 <= j < i ==> #[trigger] pairs[j].0 != name,
    ensures
        query_value(pairs, name) == Some(pairs[i].1),
    decreases i,
{
    if i > 0 {
        let t = pairs.drop_first();
        assert forall|j: int| 0 <= j < i - 1 implies #[trigger] t[j].0 != name by {
            assert(t[j] == pairs[j + 1]);
        }
        lemma_query_value_at(t, name, i - 1);
    }
}

proof fn lemma_query_value_none(pairs: Seq<(Seq<char>, Seq<char>)>, name: Seq<char>)
    requires
        forall|j: int| 0 <= j < pairs.len() ==> #[trigger] pairs[j].0 != name,
    ensures
        query_value(pairs, name) is None,
    decreases pairs.len(),
{
    if pairs.len() > 0 {
        let t = pairs.drop_first();
        assert forall|j: int| 0 <= j < t.len() implies #[trigger] t[j].0 != name by {
            assert(t[j] == pairs[j + 1]);
        }
        lemma_query_value_none(t, name);
    }
}

/// What to do with the view of the routes when the current route may have changed.
#[derive(Debug, Clone, Copy, PartialEq, Eq, Structural)]
pub enum RouteAction {
    /// Nothing is shown yet: build the view of this route.
    Build(usize),
    /// The route did not change: keep the view.
    Keep(usize),
    /// Another route is current: unmount the old view and mount this route's view.
    Replace(usize),
}

/// The action for moving from the route shown before (if any) to the route `index`.
pub fn route_transition(prev: Option<usize>, index: usize) -> (r: RouteAction)
    ensures
        r == match prev {
            None => RouteAction::Build(index),
            Some(p) => if p == index {
                RouteAction::Keep(index)
            } else {
                RouteAction::Replace(index)
            },
        },
{
    match prev {
        None => RouteAction::Build(index),
        Some(p) => if p == index {
            RouteAction::Keep(index)
        } else {
            RouteAction::Replace(index)
        },
    }
}

/// Going back right after visiting a new route returns to the history before it.
pub proof fn lemma_pop_undoes_push(h: Seq<RouteUrlView>, url: RouteUrlView)
    requires
        h.len() > 0,
        h.last().0 != url.0,
    ensures
        popped(pushed(h, url)) == h,
{
    assert(h.push(url).drop_last() =~= h);
}

/// Visiting the current route again changes nothing.
pub proof fn lemma_push_idempotent(h: Seq<RouteUrlView>, url: RouteUrlView)
    ensures
        pushed(pushed(h, url), url) == pushed(h, url),
{
}

/// After a visit, the current route is the one visited.
pub proof fn lemma_push_current(h: Seq<RouteUrlView>, url: RouteUrlView)
    ensures
        pushed(h, url).len() > 0,
        pushed(h, url).last().0 == url.0,
{
}

/// Going back never empties the history, nor drops the first route.
pub proof fn lemma_pop_keeps_first(h: Seq<RouteUrlView>)
    requires
        h.len() > 0,
    ensures
        popped(h).len() > 0,
        popped(h)[0] == h[0],
{
}

} // verus!
