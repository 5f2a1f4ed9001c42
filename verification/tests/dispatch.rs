use mount::mount::Mount;
use mount::request::{Handler, HandlerError, MountError, Request, Response, Url};

fn request(segs: &[&str]) -> Request {
    Request {
        url: Url { path: segs.iter().map(|s| s.to_string()).collect() },
        original_url: None,
    }
}

struct SendHello;

impl Handler for SendHello {
    fn handle(&self, _req: &mut Request) -> Result<Response, MountError> {
        Ok(Response { status: 200, body: "Hello!".to_string() })
    }
}

/// Reports the path it observes and the original URL it can recover.
struct Echo;

impl Handler for Echo {
    fn handle(&self, req: &mut Request) -> Result<Response, MountError> {
        let orig = match &req.original_url {
            Some(o) => Some(&o.url.path),
            None => None,
        };
        Ok(Response { status: 200, body: format!("{:?} {:?}", req.url.path, orig) })
    }
}

/// Reports the path it observes, under a numeric identity.
struct TagEcho(u16);

impl Handler for TagEcho {
    fn handle(&self, req: &mut Request) -> Result<Response, MountError> {
        Ok(Response { status: self.0, body: format!("{:?}", req.url.path) })
    }
}

struct AlwaysFails;

impl Handler for AlwaysFails {
    fn handle(&self, _req: &mut Request) -> Result<Response, MountError> {
        Err(MountError::Handler(HandlerError { status: 500, message: "boom".to_string() }))
    }
}

#[test]
fn it_mounts() {
    let mut mount = Mount::new();
    mount.mount("/testing", SendHello);
    let mut req = request(&["test"]);
    let res = mount.handle(&mut req);
    println!("res = {:?}", res);
    // Should fail because mount point doesn't match request...
    assert!(res.is_err());
}

#[test]
fn prefix_removed_from_observed_path() {
    let mut m = Mount::new();
    m.mount("/a/b", Echo);
    let mut req = request(&["a", "b", "c", "d"]);
    let res = m.handle(&mut req).unwrap();
    assert_eq!(res.body, r#"["c", "d"] Some(["a", "b", "c", "d"])"#);
}

#[test]
fn exact_match_observes_empty_path() {
    let mut m = Mount::new();
    m.mount("/a/b", Echo);
    let mut req = request(&["a", "b"]);
    let res = m.handle(&mut req).unwrap();
    assert_eq!(res.body, r#"[] Some(["a", "b"])"#);
}

#[test]
fn second_registration_wins() {
    let mut m = Mount::new();
    m.mount("/x", TagEcho(1));
    m.mount("/x", TagEcho(2));
    let mut req = request(&["x"]);
    let res = m.handle(&mut req).unwrap();
    assert_eq!(res.status, 2);
}

#[test]
fn most_specific_of_overlapping_routes_wins() {
    let mut m = Mount::new();
    m.mount("/a", TagEcho(1));
    m.mount("/a/b", TagEcho(2));

    let mut req = request(&["a", "b", "c"]);
    let res = m.handle(&mut req).unwrap();
    assert_eq!(res.status, 2);
    assert_eq!(res.body, r#"["c"]"#);

    let mut req = request(&["a", "x"]);
    let res = m.handle(&mut req).unwrap();
    assert_eq!(res.status, 1);
    assert_eq!(res.body, r#"["x"]"#);
}

#[test]
fn unshared_prefix_yields_no_match() {
    let mut m = Mount::new();
    m.mount("/a/b", SendHello);
    let mut req = request(&["c"]);
    let res = m.handle(&mut req);
    assert!(matches!(res, Err(MountError::NoMatch(_))));
    assert_eq!(req.url.path, vec!["c".to_string()]);
    assert!(req.original_url.is_none());
}

#[test]
fn url_restored_after_successful_dispatch() {
    let mut m = Mount::new();
    m.mount("/a", Echo);
    let mut req = request(&["a", "b"]);
    let res = m.handle(&mut req);
    assert!(res.is_ok());
    assert_eq!(req.url.path, vec!["a".to_string(), "b".to_string()]);
    assert!(req.original_url.is_none());
}

#[test]
fn url_restored_after_handler_error() {
    let mut m = Mount::new();
    m.mount("/a", AlwaysFails);
    let mut req = request(&["a", "b"]);
    let res = m.handle(&mut req);
    assert!(matches!(res, Err(MountError::Handler(_))));
    assert_eq!(req.url.path, vec!["a".to_string(), "b".to_string()]);
    assert!(req.original_url.is_none());
}

#[test]
fn nested_mounts_strip_both_prefixes() {
    let mut inner = Mount::new();
    inner.mount("/inner", Echo);
    let mut outer = Mount::new();
    outer.mount("/outer", inner);

    let mut req = request(&["outer", "inner", "rest"]);
    let res = outer.handle(&mut req).unwrap();
    // The innermost handler sees the path net of both prefixes, yet recovers
    // the full original path.
    assert_eq!(res.body, r#"["rest"] Some(["outer", "inner", "rest"])"#);
    assert_eq!(
        req.url.path,
        vec!["outer".to_string(), "inner".to_string(), "rest".to_string()]
    );
    assert!(req.original_url.is_none());
}

#[test]
fn trailing_separator_matches_registered_key() {
    let mut m = Mount::new();
    m.mount("/testing", TagEcho(7));

    let mut req = request(&["testing", ""]);
    let res = m.handle(&mut req).unwrap();
    assert_eq!(res.status, 7);
    assert_eq!(res.body, r#"[""]"#);

    let mut req = request(&["testing"]);
    let res = m.handle(&mut req).unwrap();
    assert_eq!(res.status, 7);
    assert_eq!(res.body, r#"[]"#);
}

#[test]
fn root_registration_matches_everything() {
    let mut m = Mount::new();
    m.mount("/", TagEcho(9));
    let mut req = request(&["anything", "else"]);
    let res = m.handle(&mut req).unwrap();
    assert_eq!(res.status, 9);
    assert_eq!(res.body, r#"["anything", "else"]"#);

    let mut req = request(&[]);
    let res = m.handle(&mut req).unwrap();
    assert_eq!(res.status, 9);
}

#[test]
fn mount_calls_chain() {
    let mut m = Mount::new();
    m.mount("/a", TagEcho(1)).mount("/b", TagEcho(2));
    let mut req = request(&["b"]);
    let res = m.handle(&mut req).unwrap();
    assert_eq!(res.status, 2);
}
