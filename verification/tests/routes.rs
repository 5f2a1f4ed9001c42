use mount::mount::Mount;
use mount::request::{Handler, MountError, NoMatch, Request, Response};
use mount::route::route_key;

struct Nop;

impl Handler for Nop {
    fn handle(&self, _req: &mut Request) -> Result<Response, MountError> {
        Ok(Response { status: 200, body: String::new() })
    }
}

#[test]
fn route_key_splits_on_separators() {
    assert_eq!(route_key("/a/b"), vec!["a".to_string(), "b".to_string()]);
    assert_eq!(route_key("a/b"), vec!["a".to_string(), "b".to_string()]);
}

#[test]
fn route_key_drops_empty_components() {
    assert_eq!(route_key("/a//b/"), vec!["a".to_string(), "b".to_string()]);
    assert_eq!(route_key("//"), Vec::<String>::new());
}

#[test]
fn route_key_of_degenerate_routes() {
    assert_eq!(route_key(""), Vec::<String>::new());
    assert_eq!(route_key("/"), Vec::<String>::new());
    assert_eq!(route_key("abc"), vec!["abc".to_string()]);
}

#[test]
fn lookup_most_specific_returns_deepest_entry() {
    let mut m = Mount::new();
    m.mount("/a", Nop);
    m.mount("/a/b", Nop);

    let path = vec!["a".to_string(), "x".to_string()];
    let entry = m.lookup_most_specific(&path).unwrap();
    assert_eq!(entry.length, 1);

    let path = vec!["a".to_string(), "b".to_string(), "c".to_string()];
    let entry = m.lookup_most_specific(&path).unwrap();
    assert_eq!(entry.length, 2);

    let path = vec!["b".to_string()];
    assert!(m.lookup_most_specific(&path).is_none());
}

#[test]
fn no_match_description() {
    assert_eq!(NoMatch.description(), "No Match");
}
