//! Immutable routing table: an exact-match mapping from the hostname a
//! client requested to the backend that serves it, consulted read-only
//! by every connection once loaded.

use vstd::prelude::*;
use vstd::string::StrSliceExecFns;
use vstd::string::StringExecFns;
use vstd::utf8::{encode_utf8, decode_utf8};

verus! {

/// One routing entry: requests for `host` go to
/// `backend_host:backend_port`.
pub struct Route {
    pub host: String,
    pub backend_host: String,
    pub backend_port: u16,
}

/// Mathematical image of a routing entry.
pub ghost struct RouteV {
    pub host: Seq<char>,
    pub backend_host: Seq<char>,
    pub backend_port: u16,
}

/// Mathematical image of the table: the display name, if one was
/// configured, and the entries in lookup order.
pub ghost struct RoutingTableV {
    pub name: Option<Seq<char>>,
    pub routes: Seq<RouteV>,
}

/// The display name used in synthesized status responses when none is
/// configured.
pub open spec fn spec_default_name() -> Seq<char> {
    "Reroute Proxy"@
}

/// The configured display name, or the default.
pub open spec fn spec_display_name(t: RoutingTableV) -> Seq<char> {
    match t.name {
        Some(n) => n,
        None => spec_default_name(),
    }
}

/// First entry whose hostname equals `host`, scanning in order.
pub open spec fn spec_lookup(routes: Seq<RouteV>, host: Seq<char>) -> Option<(Seq<char>, u16)>
    decreases routes.len(),
{
    if routes.len() == 0 {
        None
    } else if routes[0].host == host {
        Some((routes[0].backend_host, routes[0].backend_port))
    } else {
        spec_lookup(routes.drop_first(), host)
    }
}

/// The hostname-to-backend table. Built once at startup; afterwards it
/// is only read, so arbitrarily many connections may consult it
/// concurrently without synchronization.
pub struct RoutingTable {
    name: Option<String>,
    routes: Vec<Route>,
}

impl View for RoutingTable {
    type V = RoutingTableV;

    closed spec fn view(&self) -> RoutingTableV {
        RoutingTableV {
            name: match self.name {
                Some(n) => Some(n@),
                None => None,
            },
            routes: self.routes@.map_values(|r: Route| RouteV {
                host: r.host@,
                backend_host: r.backend_host@,
                backend_port: r.backend_port,
            }),
        }
    }
}

/// Exact, case-sensitive equality of two hostnames.
fn str_eq(a: &str, b: &str) -> (r: bool)
    ensures
        r == (a@ == b@),
{
    let av: Vec<u8> = a.as_bytes_vec();
    let bv: Vec<u8> = b.as_bytes_vec();
    let r = av == bv;
    proof {
        broadcast use vstd::utf8::encode_utf8_decode_utf8;
        if av@ =~= bv@ {
            assert(decode_utf8(encode_utf8(a@)) == a@);
            assert(decode_utf8(encode_utf8(b@)) == b@);
            assert(a@ == b@);
        }
        if a@ == b@ {
            assert(av@ =~= bv@);
        }
    }
    r
}

impl RoutingTable {
    /// An empty table with the given display name.
    pub fn new(name: Option<String>) -> (r: RoutingTable)
        ensures
            r@.routes.len() == 0,
            r@.name == (match name {
                Some(n) => Some(n@),
                None => None::<Seq<char>>,
            }),
    {
        let r = RoutingTable { name, routes: Vec::new() };
        proof {
            assert(r@.routes =~= Seq::<RouteV>::empty());
        }
        r
    }

    /// Add an entry at the front: a later entry for the same hostname
    /// overrides an earlier one.
    pub fn add_route(&mut self, host: String, backend_host: String, backend_port: u16)
        ensures
            final(self)@.name == old(self)@.name,
            final(self)@.routes == seq![RouteV {
                host: host@,
                backend_host: backend_host@,
                backend_port: backend_port,
            }] + old(self)@.routes,
    {
        self.routes.insert(0, Route { host, backend_host, backend_port });
        proof {
            assert(self@.routes =~= seq![RouteV {
                host: host@,
                backend_host: backend_host@,
                backend_port: backend_port,
            }] + old(self)@.routes);
        }
    }

    /// Number of entries.
    pub fn len(&self) -> (r: usize)
        ensures
            r == self@.routes.len(),
    {
        self.routes.len()
    }

    /// The backend for `host`: the first entry whose hostname matches
    /// exactly, or `None` when no entry does. Pure: the result depends
    /// on the table and the hostname alone.
    pub fn lookup(&self, host: &str) -> (r: Option<(String, u16)>)
        ensures
            match r {
                Some((bh, bp)) => spec_lookup(self@.routes, host@) == Some((bh@, bp)),
                None => spec_lookup(self@.routes, host@) is None,
            },
    {
        let ghost rs = self@.routes;
        proof {
            assert(rs.skip(0) =~= rs);
        }
        let n: usize = self.routes.len();
        let mut i: usize = 0;
        while i < n
            invariant
                n == self.routes@.len(),
                rs == self@.routes,
                rs.len() == n,
                i <= n,
                spec_lookup(rs, host@) == spec_lookup(rs.skip(i as int), host@),
            decreases n - i,
        {
            let entry = &self.routes[i];
            proof {
                assert(rs.skip(i as int)[0] == rs[i as int]);
            }
            if str_eq(entry.host.as_str(), host) {
                return Some((entry.backend_host.clone(), entry.backend_port));
            }
            proof {
                assert(rs.skip(i as int).drop_first() =~= rs.skip(i + 1 as int));
            }
            i = i + 1;
        }
        proof {
            assert(rs.skip(n as int).len() == 0);
        }
        None
    }

    /// The configured display name, or the default one.
    pub fn display_name(&self) -> (r: String)
        ensures
            r@ == spec_display_name(self@),
    {
        match &self.name {
            Some(n) => n.clone(),
            None => String::from_str("Reroute Proxy"),
        }
    }
}

/// Routing determinism: lookup is a pure function of the table's
/// entries and the hostname, so two lookups that see the same entries
/// and the same hostname agree, whichever connection performs them and
/// in whatever order. Together with `lookup`'s own contract — its
/// result equals `spec_lookup` of the table it was handed — this is
/// the whole of what concurrent readers of the never-mutated table can
/// observe.
pub proof fn lemma_lookup_deterministic(
    t1: RoutingTableV,
    t2: RoutingTableV,
    h1: Seq<char>,
    h2: Seq<char>,
)
    requires
        t1.routes == t2.routes,
        h1 == h2,
    ensures
        spec_lookup(t1.routes, h1) == spec_lookup(t2.routes, h2),
{
}

} // verus!
