use vstd::prelude::*;
use vstd::string::StringSliceAdditionalSpecFns;

verus! {

/// Which page a request asks for.
#[derive(Debug, Clone, Copy, PartialEq, Eq, Structural)]
pub enum Route {
    Dashboard,
    Json,
    NotFound,
}

/// True when `s` begins with `p`.
pub open spec fn starts_with(s: Seq<u8>, p: Seq<u8>) -> bool {
    p.len() <= s.len() && s.subrange(0, p.len() as int) == p
}

fn has_prefix(s: &[u8], p: &[u8]) -> (r: bool)
    ensures
        r == starts_with(s@, p@),
{
    if p.len() > s.len() {
        return false;
    }
    let mut i: usize = 0;
    while i < p.len()
        invariant
            p@.len() <= s@.len(),
            i <= p@.len(),
            forall|j: int| 0 <= j < i ==> s@[j] == p@[j],
        decreases p@.len() - i,
    {
        if s[i] != p[i] {
            assert(s@.subrange(0, p@.len() as int)[i as int] != p@[i as int]);
            return false;
        }
        i = i + 1;
    }
    assert(s@.subrange(0, p@.len() as int) =~= p@);
    true
}

/// The page that a request asks for: the dashboard for `GET / ` (or `GET /` straight
/// followed by `HTTP/`), the live statistics for `GET /json ` or `GET /json?`, and
/// nothing otherwise.
pub open spec fn route_of(request: Seq<u8>) -> Route {
    if starts_with(request, "GET / ".spec_bytes()) || starts_with(request, "GET /HTTP/".spec_bytes()) {
        Route::Dashboard
    } else if starts_with(request, "GET /json ".spec_bytes()) || starts_with(request, "GET /json?".spec_bytes()) {
        Route::Json
    } else {
        Route::NotFound
    }
}

/// What begins with a text also begins with each beginning of that text.
proof fn lemma_starts_with_prefix(s: Seq<u8>, p: Seq<u8>, q: Seq<u8>)
    requires
        starts_with(s, p),
        q.len() <= p.len(),
        p.subrange(0, q.len() as int) == q,
    ensures
        starts_with(s, q),
{
    assert(s.subrange(0, q.len() as int) =~= p.subrange(0, q.len() as int));
}

/// A text cannot begin with two texts that differ at a place within both.
proof fn lemma_starts_with_differ(s: Seq<u8>, p: Seq<u8>, q: Seq<u8>, i: int)
    requires
        0 <= i < p.len(),
        i < q.len(),
        p[i] != q[i],
    ensures
        !(starts_with(s, p) && starts_with(s, q)),
{
    if starts_with(s, p) && starts_with(s, q) {
        assert(s.subrange(0, p.len() as int)[i] == s[i]);
        assert(s.subrange(0, q.len() as int)[i] == s[i]);
    }
}

/// A request gets the dashboard exactly when it begins `GET / ` or `GET /HTTP/`, the
/// statistics exactly when it begins `GET /json ` or `GET /json?`, and is not found
/// otherwise; so one that does not begin with `GET ` (a `HEAD` or a `POST`) is not found.
pub proof fn lemma_route_pages(request: Seq<u8>)
    ensures
        route_of(request) == Route::Dashboard <==> (starts_with(request, "GET / ".spec_bytes())
            || starts_with(request, "GET /HTTP/".spec_bytes())),
        route_of(request) == Route::Json <==> (starts_with(request, "GET /json ".spec_bytes())
            || starts_with(request, "GET /json?".spec_bytes())),
        route_of(request) == Route::NotFound <==> !(starts_with(request, "GET / ".spec_bytes())
            || starts_with(request, "GET /HTTP/".spec_bytes()) || starts_with(request, "GET /json ".spec_bytes())
            || starts_with(request, "GET /json?".spec_bytes())),
        !starts_with(request, "GET ".spec_bytes()) ==> route_of(request) == Route::NotFound,
{
    reveal_strlit("GET ");
    reveal_strlit("GET / ");
    reveal_strlit("GET /HTTP/");
    reveal_strlit("GET /json ");
    reveal_strlit("GET /json?");
    vstd::string::is_ascii_spec_bytes("GET ");
    vstd::string::is_ascii_spec_bytes("GET / ");
    vstd::string::is_ascii_spec_bytes("GET /HTTP/");
    vstd::string::is_ascii_spec_bytes("GET /json ");
    vstd::string::is_ascii_spec_bytes("GET /json?");
    let get = "GET ".spec_bytes();
    let root = "GET / ".spec_bytes();
    let http = "GET /HTTP/".spec_bytes();
    let json = "GET /json ".spec_bytes();
    let query = "GET /json?".spec_bytes();
    assert(get =~= seq![71u8, 69u8, 84u8, 32u8]);
    assert(root =~= seq![71u8, 69u8, 84u8, 32u8, 47u8, 32u8]);
    assert(http =~= seq![71u8, 69u8, 84u8, 32u8, 47u8, 72u8, 84u8, 84u8, 80u8, 47u8]);
    assert(json =~= seq![71u8, 69u8, 84u8, 32u8, 47u8, 106u8, 115u8, 111u8, 110u8, 32u8]);
    assert(query =~= seq![71u8, 69u8, 84u8, 32u8, 47u8, 106u8, 115u8, 111u8, 110u8, 63u8]);
    lemma_starts_with_differ(request, root, json, 5);
    lemma_starts_with_differ(request, root, query, 5);
    lemma_starts_with_differ(request, http, json, 5);
    lemma_starts_with_differ(request, http, query, 5);
    if starts_with(request, root) {
        assert(root.subrange(0, 4) =~= get);
        lemma_starts_with_prefix(request, root, get);
    }
    if starts_with(request, http) {
        assert(http.subrange(0, 4) =~= get);
        lemma_starts_with_prefix(request, http, get);
    }
    if starts_with(request, json) {
        assert(json.subrange(0, 4) =~= get);
        lemma_starts_with_prefix(request, json, get);
    }
    if starts_with(request, query) {
        assert(query.subrange(0, 4) =~= get);
        lemma_starts_with_prefix(request, query, get);
    }
}

/// Picks the page for the start of an HTTP request.
pub fn route(request: &[u8]) -> (r: Route)
    ensures
        r == route_of(request@),
{
    if has_prefix(request, "GET / ".as_bytes()) || has_prefix(request, "GET /HTTP/".as_bytes()) {
        Route::Dashboard
    } else if has_prefix(request, "GET /json ".as_bytes()) || has_prefix(request, "GET /json?".as_bytes()) {
        Route::Json
    } else {
        Route::NotFound
    }
}

} // verus!
