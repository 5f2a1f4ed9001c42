//! The request model seen by the mounting layer: a URL reduced to its ordered
//! path segments, plus the one per-request attachment the dispatcher needs.

use vstd::prelude::*;
use vstd::string::StringExecFns;

verus! {

/// A request URL, reduced to the component the mounting layer reads and
/// rewrites: its ordered sequence of path segments. Segments of a request may
/// be empty (a trailing separator shows up as a trailing empty segment).
#[derive(Debug)]
pub struct Url {
    pub path: Vec<String>,
}

impl View for Url {
    type V = Seq<Seq<char>>;

    open spec fn view(&self) -> Seq<Seq<char>> {
        self.path.deep_view()
    }
}

impl Clone for Url {
    /// The clone carries the same path segments.
    fn clone(&self) -> (r: Url)
        ensures
            r@ == self@,
    {
        let mut path: Vec<String> = Vec::new();
        let n = self.path.len();
        let mut i: usize = 0;
        while i < n
            invariant
                i <= n,
                n == self.path.len(),
                path.deep_view() == self.path.deep_view().take(i as int),
            decreases n - i,
        {
            let ghost prev = path.deep_view();
            let ghost prevv = path@;
            let elem = self.path[i].clone();
            proof {
                assert(elem@ == self.path.deep_view()[i as int]);
                assert(prev.len() == i as int);
                assert(prevv.len() == i as int);
            }
            path.push(elem);
            proof {
                assert(path@ == prevv.push(elem));
                assert(path.deep_view().len() == i + 1);
                assert forall|j: int| 0 <= j <= i implies path.deep_view()[j]
                    == self.path.deep_view()[j] by {
                    assert(path.deep_view()[j] == path@[j].deep_view());
                    if j < i {
                        assert(path@[j] == prevv[j]);
                        assert(prev[j] == prevv[j].deep_view());
                        assert(prev[j] == self.path.deep_view()[j]);
                    } else {
                        assert(path@[j] == elem);
                    }
                }
                assert(path.deep_view() =~= self.path.deep_view().take(i + 1));
            }
            i = i + 1;
        }
        proof {
            assert(self.path.deep_view().take(n as int) =~= self.path.deep_view());
        }
        Url { path }
    }
}

/// The full, unmodified URL captured at the outermost mount boundary, attached
/// to the request for the duration of the nested dispatch chain so every
/// nested handler can recover the true original path.
#[derive(Debug)]
pub struct OriginalUrl {
    pub url: Url,
}

/// A request as the mounting layer sees it: the current URL (mutable, rewritten
/// around each dispatch) and the per-request attachment slot for the original
/// URL.
#[derive(Debug)]
pub struct Request {
    pub url: Url,
    pub original_url: Option<OriginalUrl>,
}

/// A response, opaque to the mounting layer and passed through verbatim.
#[derive(Debug)]
pub struct Response {
    pub status: u16,
    pub body: String,
}

/// The error returned when a request does not match any mounted handler.
#[derive(Debug)]
pub struct NoMatch;

impl NoMatch {
    pub fn description(&self) -> (r: String)
        ensures
            r@ == "No Match"@,
    {
        String::from_str("No Match")
    }
}

/// An error originated by a handler, opaque to the mounting layer and passed
/// through verbatim.
#[derive(Debug)]
pub struct HandlerError {
    pub status: u16,
    pub message: String,
}

/// The error side of a dispatch: either this layer's own `NoMatch`, or
/// whatever error the matched handler returned.
#[derive(Debug)]
pub enum MountError {
    NoMatch(NoMatch),
    Handler(HandlerError),
}

/// The capability a mounted handler offers: a synchronous call on a request.
///
/// A handler may rewrite the request's URL freely (the dispatcher restores it),
/// but it must leave the original-URL attachment as it found it: that
/// attachment is owned by the outermost dispatcher of the request, and only
/// that dispatcher removes it.
pub trait Handler {
    fn handle(&self, req: &mut Request) -> (r: Result<Response, MountError>)
        ensures
            final(req).original_url == old(req).original_url,
    ;
}

} // verus!
