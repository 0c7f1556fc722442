use dav_server::conditional::Assertion;
use dav_server::conditional::Condition;
use dav_server::conditional::ConditionSet;
use dav_server::conditional::Conjunction;
use dav_server::davpath::DavPath;
use dav_server::handler::Method;
use dav_server::handler::Response;
use dav_server::headers::find_byte;
use dav_server::headers::parse_depth;
use dav_server::headers::parse_destination;
use dav_server::headers::parse_if;
use dav_server::headers::parse_tags;
use dav_server::headers::parse_timeout;
use dav_server::headers::path_of_url;
use dav_server::headers::read_conditions_of;
use dav_server::headers::read_tag;
use dav_server::headers::skip_spaces;
use dav_server::headers::TagList;
use dav_server::ls::LockToken;
use dav_server::request::build_request;
use dav_server::request::Headers;
use dav_server::status::Status;

fn path(raw: &str) -> DavPath {
    DavPath::new(raw).unwrap()
}

fn here(assertion: Assertion) -> Condition {
    Condition { resource: None, assertion }
}

fn at(raw: &str, assertion: Assertion) -> Condition {
    Condition { resource: Some(path(raw)), assertion }
}

fn list(conditions: Vec<Condition>) -> Conjunction {
    Conjunction { conditions }
}

fn is(tag: &str) -> Assertion {
    Assertion::ETagIs(tag.as_bytes().to_vec())
}

fn is_not(tag: &str) -> Assertion {
    Assertion::ETagIsNot(tag.as_bytes().to_vec())
}

fn token(id: u64) -> Assertion {
    Assertion::Token(LockToken { id })
}

fn tags(names: &[&str]) -> Option<TagList> {
    Some(TagList::Tags(names.iter().map(|n| n.as_bytes().to_vec()).collect()))
}

fn bad() -> Response {
    Response::plain(Status::BadRequest)
}

#[test]
fn scanners_find_their_positions() {
    assert_eq!(skip_spaces(b"  \t x", 0), 4);
    assert_eq!(skip_spaces(b"  \t x", 4), 4);
    assert_eq!(skip_spaces(b"   ", 1), 3);
    assert_eq!(skip_spaces(b"", 0), 0);
    assert_eq!(find_byte(b"a,b,c", 0, b','), 1);
    assert_eq!(find_byte(b"a,b,c", 2, b','), 3);
    assert_eq!(find_byte(b"a,b,c", 4, b','), 5);
    assert_eq!(find_byte(b"", 0, b','), 0);
}

#[test]
fn entity_tag_stands_between_quotes() {
    assert_eq!(read_tag(b"\"abc\"", 0), Some((b"abc".to_vec(), 5)));
    assert_eq!(read_tag(b"x\"abc\"y", 1), Some((b"abc".to_vec(), 6)));
    assert_eq!(read_tag(b"\"\"", 0), Some((Vec::new(), 2)));
    assert_eq!(read_tag(b"W/\"abc\"", 0), Some((b"abc".to_vec(), 7)));
    assert_eq!(read_tag(b"\"abc", 0), None);
    assert_eq!(read_tag(b"abc\"", 0), None);
    assert_eq!(read_tag(b"W\"abc\"", 0), None);
    assert_eq!(read_tag(b"", 0), None);
    assert_eq!(read_tag(b"\"", 0), None);
}

#[test]
fn tag_list_exact_values() {
    assert_eq!(parse_tags(b"*"), Some(TagList::Any));
    assert_eq!(parse_tags(b"  * \t"), Some(TagList::Any));
    assert_eq!(parse_tags(b"\"a\""), tags(&["a"]));
    assert_eq!(parse_tags(b"\"4d2-16e360\""), tags(&["4d2-16e360"]));
    assert_eq!(parse_tags(b"\"a\", \"b\""), tags(&["a", "b"]));
    assert_eq!(parse_tags(b" \"a\" ,\"b\",\t\"c d\" "), tags(&["a", "b", "c d"]));
    assert_eq!(parse_tags(b"W/\"a\", \"b\""), tags(&["a", "b"]));
    assert_eq!(parse_tags(b"\"a,b\""), tags(&["a,b"]));
}

#[test]
fn tag_list_rejects_what_is_no_list() {
    assert_eq!(parse_tags(b""), None);
    assert_eq!(parse_tags(b"   "), None);
    assert_eq!(parse_tags(b"a"), None);
    assert_eq!(parse_tags(b"\"a"), None);
    assert_eq!(parse_tags(b"\"a\","), None);
    assert_eq!(parse_tags(b"\"a\", "), None);
    assert_eq!(parse_tags(b"\"a\" \"b\""), None);
    assert_eq!(parse_tags(b"\"a\",,\"b\""), None);
    assert_eq!(parse_tags(b",\"a\""), None);
    assert_eq!(parse_tags(b"*, \"a\""), None);
    assert_eq!(parse_tags(b"**"), None);
    assert_eq!(parse_tags(b"\"a\"x"), None);
}

#[test]
fn if_header_exact_values() {
    assert_eq!(
        parse_if(b"(<opaquelocktoken:1a>)"),
        Some(vec![list(vec![here(token(26))])])
    );
    assert_eq!(parse_if(b"([\"tag\"])"), Some(vec![list(vec![here(is("tag"))])]));
    assert_eq!(
        parse_if(b" ( Not <opaquelocktoken:2> [\"x\"] ) "),
        Some(vec![list(vec![here(Assertion::NoToken(LockToken { id: 2 })), here(is("x"))])])
    );
    assert_eq!(
        parse_if(b"(Not [\"x\"])(Not[W/\"y\"])"),
        Some(vec![list(vec![here(is_not("x"))]), list(vec![here(is_not("y"))])])
    );
    assert_eq!(
        parse_if(b"(<opaquelocktoken:1> [\"a\"]) ([\"b\"])"),
        Some(vec![list(vec![here(token(1)), here(is("a"))]), list(vec![here(is("b"))])])
    );
}

#[test]
fn if_header_resource_tag_scopes_the_lists_behind_it() {
    assert_eq!(
        parse_if(b"</res> (<opaquelocktoken:1>) ([\"y\"])"),
        Some(vec![list(vec![at("/res", token(1))]), list(vec![at("/res", is("y"))])])
    );
    assert_eq!(
        parse_if(b"<http://example.com/a/b%20c/> ([\"z\"])"),
        Some(vec![list(vec![at("/a/b%20c/", is("z"))])])
    );
    assert_eq!(
        parse_if(b"(<opaquelocktoken:1>) </r> ([\"y\"]) <https://h/s/../t> (<opaquelocktoken:2>)"),
        Some(vec![
            list(vec![here(token(1))]),
            list(vec![at("/r", is("y"))]),
            list(vec![at("/t", token(2))]),
        ])
    );
    assert_eq!(
        parse_if(b"<http://example.com> ([\"z\"])"),
        Some(vec![list(vec![at("/", is("z"))])])
    );
}

#[test]
fn if_header_rejects_what_is_no_list() {
    assert_eq!(parse_if(b""), None);
    assert_eq!(parse_if(b"   "), None);
    assert_eq!(parse_if(b"()"), None);
    assert_eq!(parse_if(b"( )"), None);
    assert_eq!(parse_if(b"</res>"), None);
    assert_eq!(parse_if(b"(<opaquelocktoken:1>"), None);
    assert_eq!(parse_if(b"<opaquelocktoken:1>)"), None);
    assert_eq!(parse_if(b"(<DAV:no-lock>)"), None);
    assert_eq!(parse_if(b"(Not <DAV:no-lock>)"), None);
    assert_eq!(parse_if(b"(<opaquelocktoken:>)"), None);
    assert_eq!(parse_if(b"([\"a\")"), None);
    assert_eq!(parse_if(b"([a])"), None);
    assert_eq!(parse_if(b"(\"a\")"), None);
    assert_eq!(parse_if(b"(not [\"a\"])"), None);
    assert_eq!(parse_if(b"<relative/path> ([\"a\"])"), None);
    assert_eq!(parse_if(b"</../up> ([\"a\"])"), None);
    assert_eq!(parse_if(b"</unclosed ([\"a\"])"), None);
    assert_eq!(parse_if(b"([\"a\"]) x"), None);
}

#[test]
fn url_path_exact_values() {
    assert_eq!(path_of_url(b"/a/b"), Some(b"/a/b".to_vec()));
    assert_eq!(path_of_url(b"/"), Some(b"/".to_vec()));
    assert_eq!(path_of_url(b"http://example.com/a/b"), Some(b"/a/b".to_vec()));
    assert_eq!(path_of_url(b"https://example.com:8080/x%20y/"), Some(b"/x%20y/".to_vec()));
    assert_eq!(path_of_url(b"http://example.com"), Some(b"/".to_vec()));
    assert_eq!(path_of_url(b"http:///p"), Some(b"/p".to_vec()));
    assert_eq!(path_of_url(b"example.com/a"), None);
    assert_eq!(path_of_url(b"://example.com/a"), None);
    assert_eq!(path_of_url(b"http:/a"), None);
    assert_eq!(path_of_url(b"http:"), None);
    assert_eq!(path_of_url(b""), None);
    assert_eq!(parse_destination(b"http://h/a%20b/"), Some(path("/a%20b/")));
    assert_eq!(parse_destination(b"/x/../y"), Some(path("/y")));
    assert_eq!(parse_destination(b"http://h/../y"), None);
    assert_eq!(parse_destination(b"nothing"), None);
}

#[test]
fn depth_exact_values() {
    assert_eq!(parse_depth(b"0"), Some(false));
    assert_eq!(parse_depth(b"infinity"), Some(true));
    assert_eq!(parse_depth(b"  infinity \t"), Some(true));
    assert_eq!(parse_depth(b" 0 "), Some(false));
    assert_eq!(parse_depth(b"1"), None);
    assert_eq!(parse_depth(b"Infinity"), None);
    assert_eq!(parse_depth(b"infinity0"), None);
    assert_eq!(parse_depth(b"00"), None);
    assert_eq!(parse_depth(b""), None);
    assert_eq!(parse_depth(b"infinit"), None);
}

#[test]
fn timeout_exact_values() {
    assert_eq!(parse_timeout(b"Infinite"), Some(None));
    assert_eq!(parse_timeout(b"Second-3600"), Some(Some(3600)));
    assert_eq!(parse_timeout(b"Second-0"), Some(Some(0)));
    assert_eq!(parse_timeout(b"Second-007"), Some(Some(7)));
    assert_eq!(parse_timeout(b"  Second-5 "), Some(Some(5)));
    assert_eq!(parse_timeout(b"Second-3600, Infinite"), Some(Some(3600)));
    assert_eq!(parse_timeout(b"Infinite, Second-4100000000"), Some(None));
    assert_eq!(parse_timeout(b"Second-18446744073709551615"), Some(Some(u64::MAX)));
}

#[test]
fn timeout_rejects_what_is_no_timeout() {
    assert_eq!(parse_timeout(b""), None);
    assert_eq!(parse_timeout(b"Second-"), None);
    assert_eq!(parse_timeout(b"Second-abc"), None);
    assert_eq!(parse_timeout(b"Second-12x"), None);
    assert_eq!(parse_timeout(b"second-1"), None);
    assert_eq!(parse_timeout(b"Seconds-1"), None);
    assert_eq!(parse_timeout(b"Infinitely"), None);
    assert_eq!(parse_timeout(b"infinite"), None);
    assert_eq!(parse_timeout(b"3600"), None);
    assert_eq!(parse_timeout(b"Second-18446744073709551616"), None);
    assert_eq!(parse_timeout(b"Second-99999999999999999999999999"), None);
    assert_eq!(parse_timeout(b", Second-1"), None);
}

#[test]
fn conditions_of_no_headers_are_empty() {
    assert_eq!(read_conditions_of(None, None, None), Some(ConditionSet { alternatives: vec![] }));
}

#[test]
fn conditions_of_if_match_are_alternatives() {
    assert_eq!(
        read_conditions_of(Some(b"\"a\""), None, None),
        Some(ConditionSet { alternatives: vec![list(vec![here(is("a"))])] })
    );
    assert_eq!(
        read_conditions_of(Some(b"\"a\", \"b\""), None, None),
        Some(ConditionSet {
            alternatives: vec![list(vec![here(is("a"))]), list(vec![here(is("b"))])]
        })
    );
    assert_eq!(
        read_conditions_of(Some(b"*"), None, None),
        Some(ConditionSet { alternatives: vec![list(vec![here(Assertion::Exists)])] })
    );
}

#[test]
fn conditions_of_if_none_match_must_all_hold() {
    assert_eq!(
        read_conditions_of(None, Some(b"\"a\", \"b\""), None),
        Some(ConditionSet { alternatives: vec![list(vec![here(is_not("a")), here(is_not("b"))])] })
    );
    assert_eq!(
        read_conditions_of(None, Some(b"*"), None),
        Some(ConditionSet { alternatives: vec![list(vec![here(Assertion::Absent)])] })
    );
}

#[test]
fn conditions_of_if_header_alone_are_its_lists() {
    assert_eq!(
        read_conditions_of(None, None, Some(b"</x> (<opaquelocktoken:3>) ([\"e\"])")),
        Some(ConditionSet {
            alternatives: vec![list(vec![at("/x", token(3))]), list(vec![at("/x", is("e"))])]
        })
    );
}

#[test]
fn conditions_of_all_headers_are_joined() {
    let set = read_conditions_of(
        Some(b"\"a\", \"b\""),
        Some(b"\"c\""),
        Some(b"(<opaquelocktoken:1>) </d> (<opaquelocktoken:2>)"),
    );
    assert_eq!(
        set,
        Some(ConditionSet {
            alternatives: vec![
                list(vec![here(is("a")), here(is_not("c")), here(token(1))]),
                list(vec![here(is("a")), here(is_not("c")), at("/d", token(2))]),
                list(vec![here(is("b")), here(is_not("c")), here(token(1))]),
                list(vec![here(is("b")), here(is_not("c")), at("/d", token(2))]),
            ],
        })
    );
}

#[test]
fn unreadable_condition_header_names_no_conditions() {
    assert_eq!(read_conditions_of(Some(b"nonsense"), None, None), None);
    assert_eq!(read_conditions_of(None, Some(b"\"open"), None), None);
    assert_eq!(read_conditions_of(None, None, Some(b"(<DAV:no-lock>)")), None);
    assert_eq!(read_conditions_of(Some(b"*"), Some(b"*"), Some(b"()")), None);
    assert_eq!(read_conditions_of(Some(b""), None, None), None);
}

fn headers() -> Headers {
    Headers::default()
}

#[test]
fn plain_methods_are_read_by_name() {
    let h = headers();
    let m = |name: &[u8]| build_request(name, b"/a", &h, None, 0).map(|r| format!("{:?}", r.method));
    assert_eq!(m(b"OPTIONS"), Ok("Options".to_string()));
    assert_eq!(m(b"GET"), Ok("Get".to_string()));
    assert_eq!(m(b"HEAD"), Ok("Head".to_string()));
    assert_eq!(m(b"PUT"), Ok("Put".to_string()));
    assert_eq!(m(b"DELETE"), Ok("Delete".to_string()));
    assert_eq!(m(b"MKCOL"), Ok("MkCol".to_string()));
    assert_eq!(m(b"PROPFIND"), Ok("PropFind".to_string()));
    assert_eq!(m(b"PROPPATCH"), Ok("PropPatch".to_string()));
    assert_eq!(m(b"PATCH"), Err(Response::plain(Status::MethodNotAllowed)));
    assert_eq!(m(b"get"), Err(Response::plain(Status::MethodNotAllowed)));
    assert_eq!(m(b""), Err(Response::plain(Status::MethodNotAllowed)));
}

#[test]
fn request_keeps_target_and_conditions() {
    let h = Headers { if_match: Some(b"\"t\"".to_vec()), ..headers() };
    let req = build_request(b"PUT", b"/a/../b%20c", &h, None, 0).unwrap();
    assert_eq!(req.path, path("/b%20c"));
    assert_eq!(req.conditions, ConditionSet { alternatives: vec![list(vec![here(is("t"))])] });
}

#[test]
fn unreadable_request_is_a_bad_request() {
    let h = headers();
    assert_eq!(build_request(b"GET", b"relative", &h, None, 0).err(), Some(bad()));
    assert_eq!(build_request(b"BREW", b"relative", &h, None, 0).err(), Some(bad()));
    assert_eq!(build_request(b"GET", b"/../x", &h, None, 0).err(), Some(bad()));
    assert_eq!(build_request(b"GET", b"/a%", &h, None, 0).err(), Some(bad()));
    let h = Headers { if_header: Some(b"(".to_vec()), ..headers() };
    assert_eq!(build_request(b"GET", b"/a", &h, None, 0).err(), Some(bad()));
    let h = Headers { if_match: Some(b"nonsense".to_vec()), ..headers() };
    assert_eq!(build_request(b"PUT", b"/a", &h, None, 0).err(), Some(bad()));
    let h = Headers { if_none_match: Some(b"\"open".to_vec()), ..headers() };
    assert_eq!(build_request(b"PUT", b"/a", &h, None, 0).err(), Some(bad()));
    let h = Headers { if_header: Some(b"(<DAV:no-lock>)".to_vec()), ..headers() };
    assert_eq!(build_request(b"PUT", b"/a", &h, None, 0).err(), Some(bad()));
    assert_eq!(
        build_request(b"BREW", b"/a", &headers(), None, 0).err(),
        Some(Response::plain(Status::MethodNotAllowed))
    );
}

#[test]
fn copy_and_move_need_a_destination() {
    let h = Headers { destination: Some(b"http://host/x/y".to_vec()), ..headers() };
    match build_request(b"COPY", b"/a", &h, None, 0).unwrap().method {
        Method::Copy(d) => assert_eq!(d, path("/x/y")),
        other => panic!("unexpected method {:?}", other),
    }
    match build_request(b"MOVE", b"/a", &h, None, 0).unwrap().method {
        Method::Move(d) => assert_eq!(d, path("/x/y")),
        other => panic!("unexpected method {:?}", other),
    }
    assert_eq!(build_request(b"COPY", b"/a", &headers(), None, 0).err(), Some(bad()));
    let h = Headers { destination: Some(b"not a url".to_vec()), ..headers() };
    assert_eq!(build_request(b"MOVE", b"/a", &h, None, 0).err(), Some(bad()));
}

#[test]
fn lock_reads_depth_and_timeout() {
    let h = Headers {
        depth: Some(b"0".to_vec()),
        timeout: Some(b"Second-60".to_vec()),
        ..headers()
    };
    match build_request(b"LOCK", b"/a", &h, Some(true), 1000).unwrap().method {
        Method::Lock { deep, shared, deadline } => {
            assert!(!deep);
            assert!(shared);
            assert_eq!(deadline, Some(1060));
        },
        other => panic!("unexpected method {:?}", other),
    }
    match build_request(b"LOCK", b"/a", &headers(), Some(false), 1000).unwrap().method {
        Method::Lock { deep, shared, deadline } => {
            assert!(deep);
            assert!(!shared);
            assert_eq!(deadline, None);
        },
        other => panic!("unexpected method {:?}", other),
    }
    let h = Headers { depth: Some(b"1".to_vec()), ..headers() };
    assert_eq!(build_request(b"LOCK", b"/a", &h, Some(false), 0).err(), Some(bad()));
    let h = Headers { timeout: Some(b"Soon".to_vec()), ..headers() };
    assert_eq!(build_request(b"LOCK", b"/a", &h, Some(false), 0).err(), Some(bad()));
}

#[test]
fn lock_without_scope_renews_the_first_token() {
    let h = Headers {
        if_header: Some(b"(<opaquelocktoken:7> <opaquelocktoken:8>)".to_vec()),
        timeout: Some(b"Second-10".to_vec()),
        ..headers()
    };
    match build_request(b"LOCK", b"/a", &h, None, u64::MAX - 3).unwrap().method {
        Method::Refresh { token, deadline } => {
            assert_eq!(token, LockToken { id: 7 });
            assert_eq!(deadline, Some(u64::MAX));
        },
        other => panic!("unexpected method {:?}", other),
    }
    assert_eq!(build_request(b"LOCK", b"/a", &headers(), None, 0).err(), Some(bad()));
}

#[test]
fn unlock_needs_its_token() {
    let h = Headers { lock_token: Some(b"<opaquelocktoken:ff>".to_vec()), ..headers() };
    match build_request(b"UNLOCK", b"/a", &h, None, 0).unwrap().method {
        Method::Unlock(t) => assert_eq!(t, LockToken { id: 255 }),
        other => panic!("unexpected method {:?}", other),
    }
    assert_eq!(build_request(b"UNLOCK", b"/a", &headers(), None, 0).err(), Some(bad()));
    let h = Headers { lock_token: Some(b"opaquelocktoken:ff".to_vec()), ..headers() };
    assert_eq!(build_request(b"UNLOCK", b"/a", &h, None, 0).err(), Some(bad()));
}
