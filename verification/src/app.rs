//! The application: a table of routes and the middlewares that see every request.

use vstd::prelude::*;
use crate::request::{line_spans, lines_from, span_lines, spans_within, HttpRequest};
use crate::server::{new_response, HttpResponse, StatusCode};
use crate::text::{
    ascii_lower, chars_of, parse_usize, parse_usize_spec, text_eq, to_ascii_lower, trim,
    trim_span,
};

verus! {

/// What answers a request.
pub trait Handle {
    /// The requests that may be handed over; every request, unless an
    /// implementation states otherwise.
    open spec fn accepts(&self, req: HttpRequest) -> bool {
        true
    }

    /// Whether `resp` may be the answer to `req`. An implementation that
    /// states nothing promises nothing.
    open spec fn answers(&self, req: HttpRequest, resp: HttpResponse) -> bool {
        true
    }

    /// Answers a request.
    fn handle(&self, req: HttpRequest) -> (resp: HttpResponse)
        requires
            self.accepts(req),
        ensures
            self.answers(req, resp),
    ;
}

/// A function taken as a [`Handle`].
struct FnHandle<F>(F);

impl<F: Fn(HttpRequest) -> HttpResponse> Handle for FnHandle<F> {
    closed spec fn accepts(&self, req: HttpRequest) -> bool {
        call_requires(self.0, (req,))
    }

    closed spec fn answers(&self, req: HttpRequest, resp: HttpResponse) -> bool {
        call_ensures(self.0, (req,), resp)
    }

    fn handle(&self, req: HttpRequest) -> (resp: HttpResponse) {
        (self.0)(req)
    }
}

/// What sees a request before it is answered.
pub trait Inspect {
    /// The requests that may be shown; every request, unless an
    /// implementation states otherwise.
    open spec fn accepts(&self, req: &HttpRequest) -> bool {
        true
    }

    /// Looks at a request.
    fn inspect(&self, req: &HttpRequest)
        requires
            self.accepts(req),
    ;
}

/// A function taken as an [`Inspect`].
struct FnInspect<F>(F);

impl<F: Fn(&HttpRequest) -> ()> Inspect for FnInspect<F> {
    closed spec fn accepts(&self, req: &HttpRequest) -> bool {
        call_requires(self.0, (req,))
    }

    fn inspect(&self, req: &HttpRequest) {
        (self.0)(req)
    }
}

/// A handler as the application keeps it.
pub struct Handler {
    pub inner: Box<dyn Handle>,
}

/// A middleware as the application keeps it.
pub struct Middleware {
    pub inner: Box<dyn Inspect>,
}

/// The handler `h` behaves as the function `f` does.
pub open spec fn acts_as<F: Fn(HttpRequest) -> HttpResponse>(h: Handler, f: F) -> bool {
    &&& forall|req: HttpRequest| #[trigger] h.inner.accepts(req) == call_requires(f, (req,))
    &&& forall|req: HttpRequest, resp: HttpResponse| #[trigger]
        h.inner.answers(req, resp) == call_ensures(f, (req,), resp)
}

impl Handler {
    /// The function `f` as a handler.
    pub fn new<F: Fn(HttpRequest) -> HttpResponse + 'static>(f: F) -> (h: Self)
        ensures
            acts_as(h, f),
    {
        Handler { inner: Box::new(FnHandle(f)) }
    }
}

impl Middleware {
    /// The function `f` as a middleware.
    pub fn new<F: Fn(&HttpRequest) -> () + 'static>(f: F) -> (m: Self)
        ensures
            forall|req: &HttpRequest| m.inner.accepts(req) == call_requires(f, (req,)),
    {
        Middleware { inner: Box::new(FnInspect(f)) }
    }
}

/// A handler with the path and the method that it answers.
pub struct Route {
    pub path: String,
    /// The method; `None` for a handler that answers every method.
    pub method: Option<String>,
    pub handler: Handler,
}

/// The model of a handler's method: the method, or `None` for every method.
pub open spec fn method_view(method: Option<String>) -> Option<Seq<char>> {
    match method {
        Some(m) => Some(m@),
        None => None,
    }
}

/// The index of the first route at or after `from` for `path` and `method`;
/// the number of routes where there is none.
pub open spec fn route_index(
    routes: Seq<Route>,
    path: Seq<char>,
    method: Option<Seq<char>>,
    from: int,
) -> int
    decreases routes.len() - from,
{
    if from < 0 || from >= routes.len() {
        routes.len() as int
    } else if routes[from].path@ == path && method_view(routes[from].method) == method {
        from
    } else {
        route_index(routes, path, method, from + 1)
    }
}

/// The empty line that ends the headers starts at `data[i]`: a carriage
/// return, a line feed, and both once more.
pub open spec fn headers_end_at(data: Seq<u8>, i: int) -> bool {
    0 <= i && i + 3 < data.len() && data[i] == 13 && data[i + 1] == 10 && data[i + 2] == 13
        && data[i + 3] == 10
}

/// The first index at or after `from` at which the empty line that ends the
/// headers starts; the length of `data` where there is none.
pub open spec fn headers_end_from(data: Seq<u8>, from: int) -> int
    decreases data.len() - from,
{
    if from < 0 || from >= data.len() {
        data.len() as int
    } else if headers_end_at(data, from) {
        from
    } else {
        headers_end_from(data, from + 1)
    }
}

/// `headers_end_from` yields the first index at which the headers end.
pub proof fn headers_end_is_first(data: Seq<u8>, from: int)
    requires
        0 <= from <= data.len(),
    ensures
        from <= headers_end_from(data, from) <= data.len(),
        headers_end_from(data, from) < data.len() ==> headers_end_at(
            data,
            headers_end_from(data, from),
        ),
        forall|k: int| from <= k < headers_end_from(data, from) ==> !headers_end_at(data, k),
    decreases data.len() - from,
{
    if from < data.len() && !headers_end_at(data, from) {
        headers_end_is_first(data, from + 1);
    }
}

/// `line` starts with `word`, which is in lower case, when ASCII letters
/// are taken without regard to case.
pub open spec fn starts_with_ignoring_case(line: Seq<char>, word: Seq<char>) -> bool {
    line.len() >= word.len() && forall|k: int|
        0 <= k < word.len() ==> ascii_lower(#[trigger] line[k]) == word[k]
}

/// The number after the name of a `Content-Length` line; 0 where it is no number.
pub open spec fn announced_length(line: Seq<char>) -> usize {
    match parse_usize_spec(trim(line.subrange(15, line.len() as int))) {
        Some(n) => n,
        None => 0,
    }
}

/// The length that the first `Content-Length` line among `lines[i..]`
/// announces; 0 where there is none.
pub open spec fn content_length_from(lines: Seq<Seq<char>>, i: int) -> usize
    decreases lines.len() - i,
{
    if i < 0 || i >= lines.len() {
        0
    } else if starts_with_ignoring_case(lines[i], "content-length:"@) {
        announced_length(lines[i])
    } else {
        content_length_from(lines, i + 1)
    }
}

/// The path at which the file `file_name` is served below `serving_path`.
pub open spec fn static_route(serving_path: Seq<char>, file_name: Seq<char>) -> Seq<char> {
    serving_path + seq!['/'] + file_name
}

/// The answer to a request that no route is for: status 404, body `Not Found`.
pub open spec fn not_found(resp: HttpResponse) -> bool {
    resp@ == new_response(StatusCode::NotFound, "Not Found"@)
}

/// A router: handlers by path and method, and middlewares.
pub struct App {
    routes: Vec<Route>,
    middlewares: Vec<Middleware>,
}

impl App {
    /// The routes, in the order in which they were first registered.
    pub closed spec fn routes(&self) -> Seq<Route> {
        self.routes@
    }

    /// The middlewares, in the order in which they were added.
    pub closed spec fn middlewares(&self) -> Seq<Middleware> {
        self.middlewares@
    }

    /// The handler that is registered for `path` and `method`; with `None`
    /// for the method, the handler that is registered for `path` and every
    /// method.
    pub open spec fn handler(&self, path: Seq<char>, method: Option<Seq<char>>) -> Option<Handler> {
        let i = route_index(self.routes(), path, method, 0);
        if i < self.routes().len() {
            Some(self.routes()[i].handler)
        } else {
            None
        }
    }

    /// The handler that answers requests of `method` to `uri`: the one that
    /// is registered for the URI and the method, or else the one that is
    /// registered for the URI and every method.
    pub open spec fn target(&self, uri: Seq<char>, method: Seq<char>) -> Option<Handler> {
        match self.handler(uri, Some(method)) {
            Some(h) => Some(h),
            None => self.handler(uri, None),
        }
    }

    /// `after` is `self` with a handler for `path` and `method`, which may
    /// have taken the place of another; nothing else has changed.
    pub open spec fn registered(
        &self,
        after: App,
        path: Seq<char>,
        method: Option<Seq<char>>,
    ) -> bool {
        &&& after.middlewares() == self.middlewares()
        &&& after.handler(path, method) is Some
        &&& forall|p: Seq<char>, m: Option<Seq<char>>|
            !(p == path && m == method) ==> #[trigger] after.handler(p, m) == self.handler(p, m)
    }

    /// An application without routes and without middlewares.
    pub fn new() -> (app: Self)
        ensures
            app.routes().len() == 0,
            app.middlewares().len() == 0,
    {
        App { routes: Vec::new(), middlewares: Vec::new() }
    }

    /// The position of the route for `path` and `method`.
    fn find(&self, path: &str, method: Option<&str>) -> (i: usize)
        ensures
            i == route_index(
                self.routes(),
                path@,
                match method {
                    Some(m) => Some(m@),
                    None => None,
                },
                0,
            ),
            i <= self.routes().len(),
    {
        let ghost key = match method {
            Some(m) => Some(m@),
            None => None,
        };
        let path_chars = chars_of(path);
        let method_chars = match method {
            Some(m) => Some(chars_of(m)),
            None => None,
        };
        let mut i: usize = 0;
        while i < self.routes.len()
            invariant
                i <= self.routes.len(),
                path_chars@ == path@,
                key == match method {
                    Some(m) => Some(m@),
                    None => None::<Seq<char>>,
                },
                match method_chars {
                    Some(chars) => key == Some(chars@),
                    None => key is None,
                },
                route_index(self.routes(), path@, key, 0) == route_index(
                    self.routes(),
                    path@,
                    key,
                    i as int,
                ),
            decreases self.routes.len() - i,
        {
            let same_method = match (&self.routes[i].method, &method_chars) {
                (Some(m), Some(chars)) => text_eq(m.as_str(), chars),
                (None, None) => true,
                _ => false,
            };
            if same_method && text_eq(self.routes[i].path.as_str(), &path_chars) {
                return i;
            }
            i += 1;
        }
        i
    }

    /// Registers `handler` for `path` and `method`, in the place of the
    /// handler that they had.
    fn register(&mut self, path: String, method: Option<&str>, handler: Handler)
        ensures
            old(self).registered(
                *final(self),
                path@,
                match method {
                    Some(m) => Some(m@),
                    None => None,
                },
            ),
            final(self).handler(
                path@,
                match method {
                    Some(m) => Some(m@),
                    None => None,
                },
            ) == Some(handler),
    {
        let ghost key = match method {
            Some(m) => Some(m@),
            None => None,
        };
        let i = self.find(path.as_str(), method);
        let ghost before = self.routes@;
        let owned = match method {
            Some(m) => Some(m.to_owned()),
            None => None,
        };
        let mut route = Route { path, method: owned, handler };
        let ghost added = route;
        if i < self.routes.len() {
            self.routes.set_and_swap(i, &mut route);
        } else {
            self.routes.push(route);
        }
        proof {
            let after = self.routes@;
            route_index_found(before, path@, key, 0);
            route_index_after(before, after, added, i as int, path@, key, 0);
            assert forall|p: Seq<char>, m: Option<Seq<char>>|
                !(p == path@ && m == key) implies #[trigger] self.handler(p, m) == old(
                self,
            ).handler(p, m) by {
                route_index_found(before, p, m, 0);
                route_index_after(before, after, added, i as int, p, m, 0);
                let k = route_index(before, p, m, 0);
                if k < before.len() {
                    assert(after[k] == before[k]);
                }
            }
        }
    }

    /// Registers a handler for `GET` requests to `path`.
    ///
    /// A handler that was registered for them before is replaced.
    pub fn get<F: Fn(HttpRequest) -> HttpResponse + 'static>(&mut self, path: String, handler: F)
        ensures
            old(self).registered(*final(self), path@, Some("GET"@)),
            acts_as(final(self).handler(path@, Some("GET"@))->0, handler),
    {
        self.register(path, Some("GET"), Handler::new(handler))
    }

    /// Registers a handler for `POST` requests to `path`.
    ///
    /// A handler that was registered for them before is replaced.
    pub fn post<F: Fn(HttpRequest) -> HttpResponse + 'static>(&mut self, path: String, handler: F)
        ensures
            old(self).registered(*final(self), path@, Some("POST"@)),
            acts_as(final(self).handler(path@, Some("POST"@))->0, handler),
    {
        self.register(path, Some("POST"), Handler::new(handler))
    }

    /// Registers a handler for `PUT` requests to `path`.
    ///
    /// A handler that was registered for them before is replaced.
    pub fn put<F: Fn(HttpRequest) -> HttpResponse + 'static>(&mut self, path: String, handler: F)
        ensures
            old(self).registered(*final(self), path@, Some("PUT"@)),
            acts_as(final(self).handler(path@, Some("PUT"@))->0, handler),
    {
        self.register(path, Some("PUT"), Handler::new(handler))
    }

    /// Registers a handler for `DELETE` requests to `path`.
    ///
    /// A handler that was registered for them before is replaced.
    pub fn delete<F: Fn(HttpRequest) -> HttpResponse + 'static>(
        &mut self,
        path: String,
        handler: F,
    )
        ensures
            old(self).registered(*final(self), path@, Some("DELETE"@)),
            acts_as(final(self).handler(path@, Some("DELETE"@))->0, handler),
    {
        self.register(path, Some("DELETE"), Handler::new(handler))
    }

    /// Registers a handler for the requests to `path` of every method for
    /// which `path` has no handler of its own.
    ///
    /// A handler that was registered in this way before is replaced.
    pub fn add_handler<F: Fn(HttpRequest) -> HttpResponse + 'static>(
        &mut self,
        path: String,
        handler: F,
    )
        ensures
            old(self).registered(*final(self), path@, None),
            acts_as(final(self).handler(path@, None)->0, handler),
    {
        self.register(path, None, Handler::new(handler))
    }

    /// Registers, for `GET` requests to `serving_path`, a slash and
    /// `file_name`, a handler that answers every request with `content` and
    /// status 200.
    pub fn serve_static_file(&mut self, serving_path: &str, file_name: &str, content: String)
        ensures
            old(self).registered(
                *final(self),
                static_route(serving_path@, file_name@),
                Some("GET"@),
            ),
            forall|req: HttpRequest|
                final(self).handler(
                    static_route(serving_path@, file_name@),
                    Some("GET"@),
                )->0.inner.accepts(req),
            forall|req: HttpRequest, resp: HttpResponse|
                final(self).handler(
                    static_route(serving_path@, file_name@),
                    Some("GET"@),
                )->0.inner.answers(req, resp) ==> resp@ == new_response(StatusCode::OK, content@),
    {
        let mut path = serving_path.to_owned();
        path.push('/');
        path.append(file_name);
        assert(path@ =~= static_route(serving_path@, file_name@));
        let answer = move |req: HttpRequest| -> (resp: HttpResponse)
            ensures
                resp@ == new_response(StatusCode::OK, content@),
            { HttpResponse::new(StatusCode::OK, content.clone()) };
        self.get(path, answer);
    }

    /// Adds a middleware. The middlewares see each request in the order in
    /// which they were added.
    pub fn use_middleware<F: Fn(&HttpRequest) -> () + 'static>(&mut self, md: F)
        ensures
            final(self).routes() == old(self).routes(),
            final(self).middlewares().len() == old(self).middlewares().len() + 1,
            forall|i: int|
                0 <= i < old(self).middlewares().len() ==> final(self).middlewares()[i] == old(
                    self,
                ).middlewares()[i],
            forall|req: &HttpRequest|
                final(self).middlewares().last().inner.accepts(req) == call_requires(md, (req,)),
    {
        self.middlewares.push(Middleware::new(md));
    }

    /// Answers a request.
    ///
    /// Every middleware sees the request, in order. Then the handler that is
    /// registered for the request's URI and method answers it, or else the
    /// one that is registered for the URI and every method; where there is
    /// neither, the answer is 404.
    pub fn handle_request(&self, req: HttpRequest) -> (resp: HttpResponse)
        requires
            forall|i: int|
                0 <= i < self.middlewares().len() ==> (#[trigger] self.middlewares()[i]).inner.accepts(
                    &req,
                ),
            self.target(req.uri@, req.method@) is Some ==> self.target(
                req.uri@,
                req.method@,
            )->0.inner.accepts(req),
        ensures
            match self.target(req.uri@, req.method@) {
                Some(h) => h.inner.answers(req, resp),
                None => not_found(resp),
            },
    {
        let mut k: usize = 0;
        while k < self.middlewares.len()
            invariant
                k <= self.middlewares.len(),
                forall|i: int|
                    0 <= i < self.middlewares().len() ==> (
                    #[trigger] self.middlewares()[i]).inner.accepts(&req),
            decreases self.middlewares.len() - k,
        {
            assert(self.middlewares()[k as int].inner.accepts(&req));
            self.middlewares[k].inner.inspect(&req);
            k += 1;
        }
        let i = self.find(req.uri.as_str(), Some(req.method.as_str()));
        if i < self.routes.len() {
            return self.routes[i].handler.inner.handle(req);
        }
        let j = self.find(req.uri.as_str(), None);
        if j < self.routes.len() {
            self.routes[j].handler.inner.handle(req)
        } else {
            HttpResponse::new(StatusCode::NotFound, "Not Found".to_owned())
        }
    }

    /// The index at which the empty line that ends the headers starts: the
    /// first index at which a carriage return, a line feed, and both once
    /// more stand.
    pub fn find_headers_end(data: &[u8]) -> (r: Option<usize>)
        ensures
            match r {
                Some(i) => i == headers_end_from(data@, 0) && headers_end_at(data@, i as int)
                    && forall|k: int| 0 <= k < i ==> !headers_end_at(data@, k),
                None => headers_end_from(data@, 0) == data@.len() && forall|k: int|
                    !headers_end_at(data@, k),
            },
    {
        proof {
            headers_end_is_first(data@, 0);
        }
        if data.len() < 4 {
            return None;
        }
        let last = data.len() - 3;
        let mut i: usize = 0;
        while i < last
            invariant
                i <= last,
                last == data.len() - 3,
                forall|k: int| 0 <= k < i ==> !headers_end_at(data@, k),
                headers_end_from(data@, 0) == headers_end_from(data@, i as int),
            decreases last - i,
        {
            if data[i] == 13 && data[i + 1] == 10 && data[i + 2] == 13 && data[i + 3] == 10 {
                return Some(i);
            }
            i += 1;
        }
        None
    }

    /// The length that the first `Content-Length` line of `headers` announces.
    ///
    /// The name is taken without regard to the case of its letters. Where no
    /// line has the name, and where what follows the name is no number, the
    /// length is 0.
    pub fn get_content_length(headers: &str) -> (n: usize)
        ensures
            n == content_length_from(lines_from(headers@, 0), 0),
    {
        let text = chars_of(headers);
        let word = chars_of("content-length:");
        proof {
            reveal_strlit("content-length:");
        }
        let spans = line_spans(&text);
        let ghost lines = lines_from(text@, 0);
        let mut i: usize = 0;
        while i < spans.len()
            invariant
                i <= spans.len(),
                word@ == "content-length:"@,
                word@.len() == 15,
                spans_within(text@.len() as int, spans@),
                span_lines(text@, spans@) == lines,
                lines == lines_from(headers@, 0),
                content_length_from(lines, 0) == content_length_from(lines, i as int),
            decreases spans.len() - i,
        {
            let (from, to) = spans[i];
            assert(lines[i as int] == text@.subrange(from as int, to as int));
            if Self::has_prefix_ignoring_case(&text, from, to, &word) {
                let (a, b) = trim_span(&text, from + 15, to);
                assert(lines[i as int].subrange(15, lines[i as int].len() as int)
                    =~= text@.subrange(from + 15, to as int));
                return match parse_usize(&text, a, b) {
                    Some(n) => n,
                    None => 0,
                };
            }
            i += 1;
        }
        0
    }

    /// Whether `text[from..to]` starts with `word`, which is in lower case,
    /// when ASCII letters are taken without regard to case.
    fn has_prefix_ignoring_case(text: &Vec<char>, from: usize, to: usize, word: &Vec<char>) -> (b:
        bool)
        requires
            from <= to <= text.len(),
        ensures
            b == starts_with_ignoring_case(text@.subrange(from as int, to as int), word@),
    {
        let ghost line = text@.subrange(from as int, to as int);
        if to - from < word.len() {
            return false;
        }
        let mut k: usize = 0;
        while k < word.len()
            invariant
                k <= word.len(),
                from <= to <= text.len(),
                word.len() <= to - from,
                line == text@.subrange(from as int, to as int),
                forall|j: int| 0 <= j < k ==> ascii_lower(#[trigger] line[j]) == word@[j],
            decreases word.len() - k,
        {
            assert(line[k as int] == text@[from + k]);
            if to_ascii_lower(text[from + k]) != word[k] {
                return false;
            }
            k += 1;
        }
        true
    }
}

/// `route_index` yields the first route for the path and the method.
pub proof fn route_index_found(
    routes: Seq<Route>,
    path: Seq<char>,
    method: Option<Seq<char>>,
    from: int,
)
    requires
        0 <= from <= routes.len(),
    ensures
        from <= route_index(routes, path, method, from) <= routes.len(),
        route_index(routes, path, method, from) < routes.len() ==> {
            let i = route_index(routes, path, method, from);
            routes[i].path@ == path && method_view(routes[i].method) == method
        },
        forall|k: int|
            from <= k < route_index(routes, path, method, from) ==> !((
            #[trigger] routes[k]).path@ == path && method_view(routes[k].method) == method),
    decreases routes.len() - from,
{
    if from < routes.len() && !(routes[from].path@ == path && method_view(routes[from].method)
        == method) {
        route_index_found(routes, path, method, from + 1);
    }
}

/// Where the routes are found after `added` took the place `i`, which is the
/// place of the first route for its path and method, or the end.
proof fn route_index_after(
    before: Seq<Route>,
    after: Seq<Route>,
    added: Route,
    i: int,
    path: Seq<char>,
    method: Option<Seq<char>>,
    from: int,
)
    requires
        0 <= from <= before.len(),
        i == route_index(before, added.path@, method_view(added.method), 0),
        after == if i < before.len() {
            before.update(i, added)
        } else {
            before.push(added)
        },
    ensures
        route_index(after, path, method, from) == if path == added.path@ && method == method_view(
            added.method,
        ) && from <= i {
            i
        } else if route_index(before, path, method, from) < before.len() {
            route_index(before, path, method, from)
        } else {
            after.len() as int
        },
    decreases before.len() - from,
{
    route_index_found(before, added.path@, method_view(added.method), 0);
    let same = path == added.path@ && method == method_view(added.method);
    if from < before.len() {
        route_index_after(before, after, added, i, path, method, from + 1);
        if from == i {
            assert(after[from] == added);
        } else {
            assert(after[from] == before[from]);
            if same && from < i {
                assert(!(before[from].path@ == path && method_view(before[from].method)
                    == method));
            }
        }
        if same && from > i {
            route_index_found(before, path, method, from);
        }
    } else {
        if i >= before.len() {
            assert(after.len() == before.len() + 1);
            assert(after[from] == added);
            assert(route_index(after, path, method, from + 1) == after.len());
        }
    }
}

} // verus!
