//! Configuration types: virtual servers and their routes.
use std::collections::HashMap;

use vstd::prelude::*;

use crate::text::{chars_of, ends_with, has_prefix, has_suffix, range_eq, range_eq_str};

verus! {

broadcast use {
    vstd::std_specs::hash::group_hash_axioms,
    vstd::hash_map::group_hash_map_axioms,
};

/// HTTP methods the server supports.
#[derive(Debug, Clone, Copy, PartialEq, Eq, Hash, Structural)]
pub enum Method {
    Get,
    Post,
    Delete,
}

/// The name of a method as it appears in a request line.
pub open spec fn method_name(m: Method) -> Seq<char> {
    match m {
        Method::Get => "GET"@,
        Method::Post => "POST"@,
        Method::Delete => "DELETE"@,
    }
}

/// The method a name denotes, if any.
pub open spec fn method_of(s: Seq<char>) -> Option<Method> {
    if s == "GET"@ {
        Some(Method::Get)
    } else if s == "POST"@ {
        Some(Method::Post)
    } else if s == "DELETE"@ {
        Some(Method::Delete)
    } else {
        None
    }
}

impl Method {
    pub fn from_str(s: &str) -> (r: Option<Method>)
        ensures
            r == method_of(s@),
    {
        let c = chars_of(s);
        if range_eq_str(c.as_slice(), 0, c.len(), "GET") {
            assert(c@.subrange(0, c@.len() as int) =~= c@);
            Some(Method::Get)
        } else if range_eq_str(c.as_slice(), 0, c.len(), "POST") {
            assert(c@.subrange(0, c@.len() as int) =~= c@);
            Some(Method::Post)
        } else if range_eq_str(c.as_slice(), 0, c.len(), "DELETE") {
            assert(c@.subrange(0, c@.len() as int) =~= c@);
            Some(Method::Delete)
        } else {
            assert(c@.subrange(0, c@.len() as int) =~= c@);
            None
        }
    }

    pub fn as_str(&self) -> (r: &'static str)
        ensures
            r@ == method_name(*self),
    {
        match self {
            Method::Get => "GET",
            Method::Post => "POST",
            Method::Delete => "DELETE",
        }
    }
}

/// `from_str` undoes `as_str`: every method reads back from its name.
pub proof fn lemma_method_name_roundtrip(m: Method)
    ensures
        method_of(method_name(m)) == Some(m),
{
    reveal_strlit("GET");
    reveal_strlit("POST");
    reveal_strlit("DELETE");
    assert("GET"@.len() == 3);
    assert("POST"@.len() == 4);
    assert("DELETE"@.len() == 6);
    assert("GET"@ != "POST"@);
    assert("GET"@ != "DELETE"@);
    assert("POST"@ != "DELETE"@);
}

pub open spec fn opt_view(o: Option<String>) -> Option<Seq<char>> {
    match o {
        Some(s) => Some(s@),
        None => None,
    }
}

pub open spec fn strings_view(v: Seq<String>) -> Seq<Seq<char>> {
    v.map_values(|s: String| s@)
}

pub open spec fn pairs_view(v: Seq<(String, String)>) -> Seq<(Seq<char>, Seq<char>)> {
    v.map_values(|p: (String, String)| (p.0@, p.1@))
}

/// Model of a `location` block.
pub struct RouteModel {
    pub path: Seq<char>,
    pub methods: Seq<Method>,
    pub root: Option<Seq<char>>,
    pub index: Option<Seq<char>>,
    pub autoindex: bool,
    pub redirect: Option<(u16, Seq<char>)>,
    /// CGI interpreters by file extension, with no extension twice.
    pub cgi: Seq<(Seq<char>, Seq<char>)>,
    pub upload_store: Option<Seq<char>>,
}

/// A `location` block inside a `server` block.
#[derive(Debug, Clone)]
pub struct Route {
    pub path: String,
    pub methods: Vec<Method>,
    pub root: Option<String>,
    pub index: Option<String>,
    pub autoindex: bool,
    pub redirect: Option<(u16, String)>,
    /// CGI interpreters by file extension (such as `.py`); an extension
    /// occurs at most once.
    pub cgi: Vec<(String, String)>,
    pub upload_store: Option<String>,
}

impl View for Route {
    type V = RouteModel;

    open spec fn view(&self) -> RouteModel {
        RouteModel {
            path: self.path@,
            methods: self.methods@,
            root: opt_view(self.root),
            index: opt_view(self.index),
            autoindex: self.autoindex,
            redirect: match self.redirect {
                Some((c, t)) => Some((c, t@)),
                None => None,
            },
            cgi: pairs_view(self.cgi@),
            upload_store: opt_view(self.upload_store),
        }
    }
}

/// The model of a fresh route for `path`.
pub open spec fn new_route(path: Seq<char>) -> RouteModel {
    RouteModel {
        path: path,
        methods: seq![Method::Get],
        root: None,
        index: None,
        autoindex: false,
        redirect: None,
        cgi: seq![],
        upload_store: None,
    }
}

impl Route {
    pub fn new(path: String) -> (r: Self)
        ensures
            r@ == new_route(path@),
    {
        let r = Route {
            path,
            methods: vec![Method::Get],
            root: None,
            index: None,
            autoindex: false,
            redirect: None,
            cgi: Vec::new(),
            upload_store: None,
        };
        assert(r.methods@ =~= seq![Method::Get]);
        assert(pairs_view(r.cgi@) =~= seq![]);
        r
    }
}

/// Model of a `server` block.
pub struct ServerModel {
    pub host: Seq<char>,
    pub ports: Seq<u16>,
    pub server_names: Seq<Seq<char>>,
    pub client_max_body_size: usize,
    pub error_pages: Map<u16, Seq<char>>,
    pub routes: Seq<RouteModel>,
}

/// A single `server { ... }` block.
#[derive(Debug, Clone)]
pub struct ServerConfig {
    pub host: String,
    pub ports: Vec<u16>,
    pub server_names: Vec<String>,
    pub client_max_body_size: usize,
    pub error_pages: HashMap<u16, String>,
    pub routes: Vec<Route>,
}

pub open spec fn routes_view(v: Seq<Route>) -> Seq<RouteModel> {
    v.map_values(|r: Route| r@)
}

impl View for ServerConfig {
    type V = ServerModel;

    open spec fn view(&self) -> ServerModel {
        ServerModel {
            host: self.host@,
            ports: self.ports@,
            server_names: strings_view(self.server_names@),
            client_max_body_size: self.client_max_body_size,
            error_pages: self.error_pages@.map_values(|s: String| s@),
            routes: routes_view(self.routes@),
        }
    }
}

/// The model of `ServerConfig::default()`.
pub open spec fn default_server() -> ServerModel {
    ServerModel {
        host: "0.0.0.0"@,
        ports: seq![],
        server_names: seq![],
        client_max_body_size: 1048576usize,
        error_pages: Map::empty(),
        routes: seq![],
    }
}

impl Default for ServerConfig {
    fn default() -> (r: Self)
        ensures
            r@ == default_server(),
    {
        let r = ServerConfig {
            host: String::from_str("0.0.0.0"),
            ports: Vec::new(),
            server_names: Vec::new(),
            client_max_body_size: 1024 * 1024,
            error_pages: HashMap::new(),
            routes: Vec::new(),
        };
        assert(strings_view(r.server_names@) =~= seq![]);
        assert(routes_view(r.routes@) =~= seq![]);
        assert(r.error_pages@.map_values(|s: String| s@) =~= Map::empty());
        r
    }
}

/// The whole configuration file: a list of virtual servers.
#[derive(Debug, Clone)]
pub struct Config {
    pub servers: Vec<ServerConfig>,
}

pub open spec fn servers_view(v: Seq<ServerConfig>) -> Seq<ServerModel> {
    v.map_values(|s: ServerConfig| s@)
}

impl View for Config {
    type V = Seq<ServerModel>;

    open spec fn view(&self) -> Seq<ServerModel> {
        servers_view(self.servers@)
    }
}

/// A route whose path is `rp` serves request path `path`: `rp` is a prefix
/// of `path` that ends on a path-segment boundary (or is `/`).
pub open spec fn route_serves(rp: Seq<char>, path: Seq<char>) -> bool {
    &&& (path == rp || has_prefix(path, rp))
    &&& (rp == "/"@ || path.len() == rp.len() || has_suffix(rp, "/"@) || (rp.len() < path.len()
        && path[rp.len() as int] == '/'))
}

/// The route chosen among `routes[k..]`, given the best so far.
pub open spec fn best_route_from(routes: Seq<RouteModel>, path: Seq<char>, k: int, best: Option<
    int,
>) -> Option<int>
    decreases routes.len() - k,
{
    if k < 0 || k >= routes.len() {
        best
    } else if route_serves(routes[k].path, path) && match best {
        None => true,
        Some(b) => routes[k].path.len() > routes[b].path.len(),
    } {
        best_route_from(routes, path, k + 1, Some(k))
    } else {
        best_route_from(routes, path, k + 1, best)
    }
}

/// Index of the route that serves `path`: the first of the longest
/// matching route paths.
pub open spec fn best_route(routes: Seq<RouteModel>, path: Seq<char>) -> Option<int> {
    best_route_from(routes, path, 0, None)
}

impl ServerConfig {
    /// Finds the route for `path` by longest-prefix matching on path-segment
    /// boundaries.
    pub fn match_route(&self, path: &str) -> (r: Option<&Route>)
        ensures
            match best_route(self@.routes, path@) {
                Some(k) => r is Some && 0 <= k < self.routes@.len() && r->0 == self.routes@[k],
                None => r is None,
            },
    {
        match self.match_route_index(path) {
            Some(k) => Some(&self.routes[k]),
            None => None,
        }
    }

    /// Index of the route for `path` (see [`ServerConfig::match_route`]).
    pub fn match_route_index(&self, path: &str) -> (r: Option<usize>)
        ensures
            match r {
                Some(k) => best_route(self@.routes, path@) == Some(k as int) && k
                    < self.routes@.len(),
                None => best_route(self@.routes, path@) is None,
            },
    {
        let p = chars_of(path);
        let slash = chars_of("/");
        let ghost rs = self@.routes;
        let mut best: Option<usize> = None;
        let mut k: usize = 0;
        while k < self.routes.len()
            invariant
                k <= self.routes@.len(),
                rs == self@.routes,
                p@ == path@,
                slash@ == "/"@,
                best_route(rs, path@) == best_route_from(
                    rs,
                    path@,
                    k as int,
                    match best {
                        Some(b) => Some(b as int),
                        None => None,
                    },
                ),
                match best {
                    Some(b) => b < k,
                    None => true,
                },
            decreases self.routes.len() - k,
        {
            let rp = chars_of(self.routes[k].path.as_str());
            assert(rs[k as int].path == rp@);
            let serves = self.serves(&p, &rp, &slash);
            let better = match best {
                None => true,
                Some(b) => {
                    let bp = chars_of(self.routes[b].path.as_str());
                    assert(rs[b as int].path == bp@);
                    rp.len() > bp.len()
                },
            };
            if serves && better {
                best = Some(k);
            }
            k += 1;
        }
        best
    }

    fn serves(&self, p: &Vec<char>, rp: &Vec<char>, slash: &Vec<char>) -> (r: bool)
        requires
            slash@ == "/"@,
        ensures
            r == route_serves(rp@, p@),
    {
        let prefix = range_eq(p.as_slice(), 0, p.len(), rp.as_slice()) || (rp.len() <= p.len()
            && range_eq(p.as_slice(), 0, rp.len(), rp.as_slice()));
        proof {
            assert(p@.subrange(0, p@.len() as int) =~= p@);
        }
        if !prefix {
            return false;
        }
        let root = range_eq(rp.as_slice(), 0, rp.len(), slash.as_slice());
        proof {
            assert(rp@.subrange(0, rp@.len() as int) =~= rp@);
        }
        root || p.len() == rp.len() || ends_with(rp.as_slice(), slash.as_slice()) || (rp.len()
            < p.len() && p[rp.len()] == '/')
    }
}

pub proof fn lemma_best_route_from(routes: Seq<RouteModel>, path: Seq<char>, k: int, best: Option<int>)
    requires
        0 <= k <= routes.len(),
        match best {
            Some(b) => 0 <= b < k && route_serves(routes[b].path, path) && (forall|j: int|
                0 <= j < k && route_serves(#[trigger] routes[j].path, path) ==> routes[j].path.len()
                    <= routes[b].path.len()),
            None => forall|j: int| 0 <= j < k ==> !route_serves(#[trigger] routes[j].path, path),
        },
    ensures
        match best_route_from(routes, path, k, best) {
            Some(b) => 0 <= b < routes.len() && route_serves(routes[b].path, path) && (forall|j: int|
                0 <= j < routes.len() && route_serves(#[trigger] routes[j].path, path)
                    ==> routes[j].path.len() <= routes[b].path.len()),
            None => forall|j: int|
                0 <= j < routes.len() ==> !route_serves(#[trigger] routes[j].path, path),
        },
    decreases routes.len() - k,
{
    if k < routes.len() {
        if route_serves(routes[k].path, path) && match best {
            None => true,
            Some(b) => routes[k].path.len() > routes[b].path.len(),
        } {
            lemma_best_route_from(routes, path, k + 1, Some(k));
        } else {
            lemma_best_route_from(routes, path, k + 1, best);
        }
    }
}

/// Routes are matched by longest path prefix on path-segment boundaries:
/// the chosen route serves the path, and no route that serves it has a
/// longer path; when none is chosen, no route serves the path.
pub proof fn lemma_best_route_is_longest(routes: Seq<RouteModel>, path: Seq<char>)
    ensures
        match best_route(routes, path) {
            Some(b) => 0 <= b < routes.len() && route_serves(routes[b].path, path) && (forall|j: int|
                0 <= j < routes.len() && route_serves(#[trigger] routes[j].path, path)
                    ==> routes[j].path.len() <= routes[b].path.len()),
            None => forall|j: int|
                0 <= j < routes.len() ==> !route_serves(#[trigger] routes[j].path, path),
        },
{
    lemma_best_route_from(routes, path, 0, None);
}

} // verus!
