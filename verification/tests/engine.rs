use dav_server::conditional::Assertion;
use dav_server::conditional::Condition;
use dav_server::conditional::ConditionSet;
use dav_server::conditional::Conjunction;
use dav_server::conditional::Resource;
use dav_server::davpath::DavPath;
use dav_server::fs::DavMetaData;
use dav_server::fs::DavProp;
use dav_server::fs::DavTime;
use dav_server::fs::FsError;
use dav_server::fs::FsResult;
use dav_server::fs::Metadata;
use dav_server::fs::OpenOptions;
use dav_server::handler::complete;
use dav_server::handler::complete_propfind;
use dav_server::handler::complete_proppatch;
use dav_server::handler::decide;
use dav_server::handler::wanted;
use dav_server::handler::Decision;
use dav_server::handler::Finish;
use dav_server::handler::Method;
use dav_server::handler::Operation;
use dav_server::handler::Pending;
use dav_server::handler::PropLookup;
use dav_server::handler::PropStat;
use dav_server::handler::Request;
use dav_server::handler::Response;
use dav_server::ls::DavLockSystem;
use dav_server::ls::LockToken;
use dav_server::memls::MemLs;
use dav_server::status::Status;

fn path(raw: &str) -> DavPath {
    DavPath::new(raw).unwrap()
}

fn dir() -> Metadata {
    Metadata { len: 0, modified: Ok(DavTime::new(100, 0).unwrap()), is_dir: true }
}

fn file(len: u64) -> Metadata {
    Metadata { len, modified: Ok(DavTime::new(200, 0).unwrap()), is_dir: false }
}

fn no_conditions() -> ConditionSet {
    ConditionSet { alternatives: vec![] }
}

fn here(assertion: Assertion) -> Condition {
    Condition { resource: None, assertion }
}

fn at(raw: &str, assertion: Assertion) -> Condition {
    Condition { resource: Some(path(raw)), assertion }
}

fn only(assertion: Assertion) -> ConditionSet {
    ConditionSet { alternatives: vec![Conjunction { conditions: vec![here(assertion)] }] }
}

fn tag(m: Metadata) -> Vec<u8> {
    m.etag().unwrap().into_bytes()
}

fn request(method: Method, raw: &str) -> Request {
    Request { method, path: path(raw), conditions: no_conditions() }
}

fn prop(name: &str) -> DavProp {
    DavProp { name: name.to_string(), prefix: None, namespace: None, xml: None }
}

/// A backend that records every operation it is asked for.
struct Spy {
    nodes: Vec<(DavPath, Metadata)>,
    calls: Vec<Operation>,
    fault: Option<FsError>,
}

impl Spy {
    fn with(nodes: Vec<(&str, Metadata)>) -> Spy {
        Spy {
            nodes: nodes.into_iter().map(|(p, m)| (path(p), m)).collect(),
            calls: Vec::new(),
            fault: None,
        }
    }

    fn stat(&self, p: &DavPath) -> Option<Metadata> {
        self.nodes.iter().find(|(q, _)| q.same_node(p)).map(|(_, m)| *m)
    }

    fn perform(&mut self, op: Operation) -> FsResult<()> {
        let result = match self.fault {
            Some(e) => Err(e),
            None => match &op {
                Operation::CreateDir(p) => {
                    if self.stat(p).is_some() {
                        Err(FsError::Exists)
                    } else if self.stat(&p.parent()).is_none() {
                        Err(FsError::NotFound)
                    } else {
                        self.nodes.push((p.clone(), dir()));
                        Ok(())
                    }
                },
                Operation::Open(p, options) => {
                    if options.write && self.stat(&p.parent()).is_none() {
                        Err(FsError::NotFound)
                    } else {
                        Ok(())
                    }
                },
                _ => Ok(()),
            },
        };
        self.calls.push(op);
        result
    }
}

fn run(spy: &mut Spy, ls: &mut Option<MemLs>, req: &Request) -> Response {
    let facts: Vec<Resource> = wanted(req)
        .into_iter()
        .map(|p| Resource { meta: spy.stat(&p), path: p })
        .collect();
    match decide(req, &facts, ls) {
        Decision::Respond(answer) => answer,
        Decision::Execute(op, pending) => {
            let result = spy.perform(op);
            complete(pending, result)
        },
        Decision::Query(_) => panic!("no property query expected"),
        Decision::Patch(_) => panic!("no property change expected"),
    }
}

#[test]
fn mkcol_creates_a_collection() {
    let mut spy = Spy::with(vec![("/", dir())]);
    let answer = run(&mut spy, &mut None, &request(Method::MkCol, "/new"));
    assert_eq!(answer, Response::plain(Status::Created));
    assert_eq!(spy.calls, vec![Operation::CreateDir(path("/new"))]);
    assert_eq!(spy.stat(&path("/new")), Some(dir()));
}

#[test]
fn mkcol_reports_the_location_of_a_collection_path() {
    let mut spy = Spy::with(vec![("/", dir()), ("/a", dir())]);
    let answer = run(&mut spy, &mut None, &request(Method::MkCol, "/a/new%20dir/"));
    assert_eq!(answer.status, Status::Created);
    assert_eq!(answer.content_location, Some(b"/a/new%20dir/".to_vec()));
    assert_eq!(answer.lock, None);
    assert!(!answer.overwritten);
    assert!(answer.props.is_empty());
}

#[test]
fn mkcol_on_existing_node_is_method_not_allowed() {
    let mut spy = Spy::with(vec![("/", dir()), ("/there", dir()), ("/file", file(3))]);
    let answer = run(&mut spy, &mut None, &request(Method::MkCol, "/there"));
    assert_eq!(answer, Response::plain(Status::MethodNotAllowed));
    let answer = run(&mut spy, &mut None, &request(Method::MkCol, "/file/"));
    assert_eq!(answer, Response::plain(Status::MethodNotAllowed));
    assert!(spy.calls.is_empty());
}

#[test]
fn mkcol_without_parent_is_a_conflict() {
    let mut spy = Spy::with(vec![("/", dir())]);
    let answer = run(&mut spy, &mut None, &request(Method::MkCol, "/missing/new"));
    assert_eq!(answer, Response::plain(Status::Conflict));
    assert!(spy.calls.is_empty());
}

#[test]
fn mkcol_maps_what_the_storage_reports() {
    let pending = |location: Option<Vec<u8>>| Pending { finish: Finish::MkCol, existed: false, location };
    assert_eq!(complete(pending(None), Err(FsError::Exists)).status, Status::MethodNotAllowed);
    assert_eq!(complete(pending(None), Err(FsError::NotFound)).status, Status::Conflict);
    assert_eq!(complete(pending(None), Err(FsError::Forbidden)).status, Status::Forbidden);
    assert_eq!(
        complete(pending(None), Err(FsError::InsufficientStorage)).status,
        Status::InsufficientStorage
    );
    assert_eq!(complete(pending(None), Err(FsError::NotImplemented)).status, Status::NotImplemented);
    assert_eq!(
        complete(pending(Some(b"/x/".to_vec())), Err(FsError::Exists)).content_location,
        None
    );
    let done = complete(pending(Some(b"/x/".to_vec())), Ok(()));
    assert_eq!(done.status, Status::Created);
    assert_eq!(done.content_location, Some(b"/x/".to_vec()));
}

#[test]
fn if_match_with_differing_etag_never_reaches_the_storage() {
    let mut spy = Spy::with(vec![("/", dir()), ("/f", file(3))]);
    for method in vec![Method::Put, Method::Delete, Method::PropPatch, Method::MkCol, Method::Get] {
        let req = Request {
            method,
            path: path("/f"),
            conditions: only(Assertion::ETagIs(b"not-the-tag".to_vec())),
        };
        let answer = run(&mut spy, &mut None, &req);
        assert_eq!(answer, Response::plain(Status::PreconditionFailed));
    }
    assert!(spy.calls.is_empty());
}

#[test]
fn if_match_with_the_current_etag_proceeds() {
    let mut spy = Spy::with(vec![("/", dir()), ("/f", file(3))]);
    let req = Request {
        method: Method::Put,
        path: path("/f"),
        conditions: only(Assertion::ETagIs(tag(file(3)))),
    };
    let answer = run(&mut spy, &mut None, &req);
    assert_eq!(answer, Response::plain(Status::NoContent));
    assert_eq!(spy.calls.len(), 1);
}

#[test]
fn get_with_matching_none_match_is_not_modified() {
    let mut spy = Spy::with(vec![("/", dir()), ("/f", file(3))]);
    let req = Request {
        method: Method::Get,
        path: path("/f"),
        conditions: only(Assertion::ETagIsNot(tag(file(3)))),
    };
    assert_eq!(run(&mut spy, &mut None, &req), Response::plain(Status::NotModified));
    let req = Request {
        method: Method::Put,
        path: path("/f"),
        conditions: only(Assertion::ETagIsNot(tag(file(3)))),
    };
    assert_eq!(run(&mut spy, &mut None, &req), Response::plain(Status::PreconditionFailed));
    assert!(spy.calls.is_empty());
}

#[test]
fn locked_descendant_needs_the_token() {
    let mut spy = Spy::with(vec![("/", dir()), ("/a", dir())]);
    let mut registry = MemLs::new();
    let lock = registry.lock(&path("/a/"), true, false, None).unwrap();
    let mut ls = Some(registry);
    let held_up = Response { blocked_by: Some(lock.clone()), ..Response::plain(Status::Locked) };
    let answer = run(&mut spy, &mut ls, &request(Method::MkCol, "/a/new"));
    assert_eq!(answer, held_up);
    assert_eq!(answer.status.code(), 423);
    let answer = run(&mut spy, &mut ls, &request(Method::Put, "/a/file"));
    assert_eq!(answer, held_up);
    let answer = run(&mut spy, &mut ls, &request(Method::Delete, "/a"));
    assert_eq!(answer, held_up);
    assert!(spy.calls.is_empty());
    let req = Request {
        method: Method::MkCol,
        path: path("/a/new"),
        conditions: only(Assertion::Token(lock.token)),
    };
    let answer = run(&mut spy, &mut ls, &req);
    assert_eq!(answer, Response::plain(Status::Created));
    assert_eq!(spy.calls, vec![Operation::CreateDir(path("/a/new"))]);
}

#[test]
fn failed_condition_wins_over_lock() {
    let mut spy = Spy::with(vec![("/", dir()), ("/a", dir())]);
    let mut registry = MemLs::new();
    registry.lock(&path("/a/"), true, false, None).unwrap();
    let mut ls = Some(registry);
    let req = Request {
        method: Method::MkCol,
        path: path("/a/new"),
        conditions: only(Assertion::Exists),
    };
    assert_eq!(run(&mut spy, &mut ls, &req), Response::plain(Status::PreconditionFailed));
}

#[test]
fn read_only_methods_pass_locks() {
    let mut spy = Spy::with(vec![("/", dir()), ("/a", dir()), ("/a/f", file(1))]);
    let mut registry = MemLs::new();
    let lock = registry.lock(&path("/a/"), true, false, None).unwrap();
    let mut ls = Some(registry);
    let answer = run(&mut spy, &mut ls, &request(Method::Get, "/a/f"));
    assert_eq!(answer, Response::plain(Status::Okay));
    assert_eq!(spy.calls, vec![Operation::Open(path("/a/f"), OpenOptions::read())]);
    assert_eq!(run(&mut spy, &mut ls, &request(Method::Options, "/a/f")).status, Status::Okay);
    let facts = vec![Resource { path: path("/a/f"), meta: Some(file(1)) }];
    assert_eq!(
        decide(&request(Method::PropFind, "/a/f"), &facts, &mut ls),
        Decision::Query(path("/a/f"))
    );
    assert_eq!(
        decide(&request(Method::PropPatch, "/a/f"), &facts, &mut ls),
        Decision::Respond(Response { blocked_by: Some(lock), ..Response::plain(Status::Locked) })
    );
}

#[test]
fn propfind_reports_each_property_on_its_own() {
    let lookups = vec![
        PropLookup { prop: prop("displayname"), value: Ok(b"<a/>".to_vec()) },
        PropLookup { prop: prop("quota"), value: Err(FsError::NotImplemented) },
        PropLookup { prop: prop("getetag"), value: Ok(b"<b/>".to_vec()) },
    ];
    let answer = complete_propfind(&lookups);
    assert_eq!(answer.status, Status::MultiStatus);
    assert_eq!(answer.status.code(), 207);
    assert_eq!(answer.props.len(), 3);
    let failed: Vec<&PropStat> =
        answer.props.iter().filter(|p| p.status == Status::NotImplemented).collect();
    assert_eq!(failed.len(), 1);
    assert_eq!(failed[0].prop, prop("quota"));
    assert_eq!(
        answer.props[0],
        PropStat {
            prop: DavProp { xml: Some(b"<a/>".to_vec()), ..prop("displayname") },
            status: Status::Okay,
        }
    );
    assert_eq!(answer.props[1], PropStat { prop: prop("quota"), status: Status::NotImplemented });
    assert_eq!(
        answer.props[2],
        PropStat {
            prop: DavProp { xml: Some(b"<b/>".to_vec()), ..prop("getetag") },
            status: Status::Okay,
        }
    );
}

#[test]
fn propfind_keeps_other_failures_apart() {
    let lookups = vec![
        PropLookup { prop: prop("a"), value: Err(FsError::NotFound) },
        PropLookup { prop: prop("b"), value: Err(FsError::Forbidden) },
    ];
    let answer = complete_propfind(&lookups);
    assert_eq!(answer.status, Status::MultiStatus);
    assert_eq!(answer.props[0].status, Status::NotFound);
    assert_eq!(answer.props[1].status, Status::Forbidden);
    assert_eq!(complete_propfind(&vec![]).props.len(), 0);
}

#[test]
fn propfind_on_missing_node_is_not_found() {
    let facts = vec![Resource { path: path("/gone"), meta: None }];
    assert_eq!(
        decide(&request(Method::PropFind, "/gone"), &facts, &mut None::<MemLs>),
        Decision::Respond(Response::plain(Status::NotFound))
    );
    assert_eq!(
        decide(&request(Method::PropPatch, "/gone"), &facts, &mut None::<MemLs>),
        Decision::Respond(Response::plain(Status::NotFound))
    );
    let facts = vec![Resource { path: path("/here"), meta: Some(file(1)) }];
    assert_eq!(
        decide(&request(Method::PropPatch, "/here"), &facts, &mut None::<MemLs>),
        Decision::Patch(path("/here"))
    );
}

#[test]
fn proppatch_reports_what_the_backend_reports() {
    let stats = vec![
        PropStat { prop: prop("a"), status: Status::Okay },
        PropStat { prop: prop("b"), status: Status::FailedDependency },
    ];
    let answer = complete_proppatch(Ok(stats));
    assert_eq!(answer.status, Status::MultiStatus);
    assert_eq!(answer.props.len(), 2);
    assert_eq!(answer.props[1].status, Status::FailedDependency);
    assert_eq!(complete_proppatch(Err(FsError::NotImplemented)), Response::plain(Status::NotImplemented));
    assert_eq!(complete_proppatch(Err(FsError::Forbidden)), Response::plain(Status::Forbidden));
}

#[test]
fn copy_onto_existing_collection_fails_the_precondition() {
    let mut spy = Spy::with(vec![("/", dir()), ("/src", file(1)), ("/dst", dir())]);
    let answer = run(&mut spy, &mut None, &request(Method::Copy(path("/dst")), "/src"));
    assert_eq!(answer, Response::plain(Status::PreconditionFailed));
    let answer = run(&mut spy, &mut None, &request(Method::Move(path("/dst/")), "/src"));
    assert_eq!(answer, Response::plain(Status::PreconditionFailed));
    assert!(spy.calls.is_empty());
}

#[test]
fn copy_onto_existing_resource_overwrites() {
    let mut spy = Spy::with(vec![("/", dir()), ("/src", file(1)), ("/dst", file(9))]);
    let answer = run(&mut spy, &mut None, &request(Method::Copy(path("/dst")), "/src"));
    assert!(answer.status.is_success());
    assert_eq!(answer.status, Status::NoContent);
    assert!(answer.overwritten);
    assert_eq!(spy.calls, vec![Operation::Copy(path("/src"), path("/dst"))]);
}

#[test]
fn copy_to_a_new_node_creates_it() {
    let mut spy = Spy::with(vec![("/", dir()), ("/src", file(1))]);
    let answer = run(&mut spy, &mut None, &request(Method::Copy(path("/dst")), "/src"));
    assert_eq!(answer, Response::plain(Status::Created));
    assert!(!answer.overwritten);
    let answer = run(&mut spy, &mut None, &request(Method::Move(path("/dst2")), "/src"));
    assert_eq!(answer, Response::plain(Status::Created));
    assert_eq!(
        spy.calls,
        vec![
            Operation::Copy(path("/src"), path("/dst")),
            Operation::Rename(path("/src"), path("/dst2")),
        ]
    );
}

#[test]
fn copy_of_a_missing_source_is_not_found() {
    let mut spy = Spy::with(vec![("/", dir())]);
    let answer = run(&mut spy, &mut None, &request(Method::Copy(path("/dst")), "/src"));
    assert_eq!(answer, Response::plain(Status::NotFound));
    assert!(spy.calls.is_empty());
}

#[test]
fn move_across_a_boundary_is_a_bad_gateway() {
    let mut spy = Spy::with(vec![("/", dir()), ("/src", file(1))]);
    spy.fault = Some(FsError::IsRemote);
    let answer = run(&mut spy, &mut None, &request(Method::Move(path("/dst")), "/src"));
    assert_eq!(answer, Response::plain(Status::BadGateway));
    assert_eq!(answer.status.code(), 502);
    spy.fault = Some(FsError::Exists);
    let answer = run(&mut spy, &mut None, &request(Method::Copy(path("/dst")), "/src"));
    assert_eq!(answer, Response::plain(Status::PreconditionFailed));
}

#[test]
fn copy_and_move_ask_the_locks_of_what_they_change() {
    let mut spy = Spy::with(vec![("/", dir()), ("/src", file(1)), ("/held", dir())]);
    let mut registry = MemLs::new();
    let dst_lock = registry.lock(&path("/held/"), true, false, None).unwrap();
    let src_lock = registry.lock(&path("/src"), false, false, None).unwrap();
    let mut ls = Some(registry);
    let copy_in = request(Method::Copy(path("/held/copy")), "/src");
    assert_eq!(run(&mut spy, &mut ls, &copy_in).status, Status::Locked);
    let copy_out = request(Method::Copy(path("/free")), "/src");
    assert_eq!(run(&mut spy, &mut ls, &copy_out).status, Status::Created);
    let move_out = request(Method::Move(path("/free2")), "/src");
    assert_eq!(run(&mut spy, &mut ls, &move_out).blocked_by, Some(src_lock.clone()));
    let move_in = request(Method::Move(path("/held/x")), "/src");
    assert_eq!(run(&mut spy, &mut ls, &move_in).blocked_by, Some(src_lock.clone()));
    assert_eq!(run(&mut spy, &mut ls, &copy_in).blocked_by, Some(dst_lock.clone()));
    let with_both = Request {
        method: Method::Move(path("/held/moved")),
        path: path("/src"),
        conditions: ConditionSet {
            alternatives: vec![Conjunction {
                conditions: vec![
                    here(Assertion::Token(src_lock.token)),
                    at("/held/moved", Assertion::Token(dst_lock.token)),
                ],
            }],
        },
    };
    assert_eq!(run(&mut spy, &mut ls, &with_both).status, Status::Created);
}

#[test]
fn put_creates_or_replaces() {
    let mut spy = Spy::with(vec![("/", dir()), ("/old", file(5))]);
    let answer = run(&mut spy, &mut None, &request(Method::Put, "/new"));
    assert_eq!(answer, Response::plain(Status::Created));
    let answer = run(&mut spy, &mut None, &request(Method::Put, "/old"));
    assert_eq!(answer, Response::plain(Status::NoContent));
    let answer = run(&mut spy, &mut None, &request(Method::Put, "/missing/new"));
    assert_eq!(answer, Response::plain(Status::Conflict));
    let options = OpenOptions { write: true, create: true, truncate: true, ..OpenOptions::new() };
    assert_eq!(spy.calls[0], Operation::Open(path("/new"), options));
    spy.fault = Some(FsError::TooLarge);
    let answer = run(&mut spy, &mut None, &request(Method::Put, "/big"));
    assert_eq!(answer, Response::plain(Status::PayloadTooLarge));
}

#[test]
fn delete_removes_by_kind() {
    let mut spy = Spy::with(vec![("/", dir()), ("/d", dir()), ("/f", file(1))]);
    assert_eq!(
        run(&mut spy, &mut None, &request(Method::Delete, "/d/")),
        Response::plain(Status::NoContent)
    );
    assert_eq!(
        run(&mut spy, &mut None, &request(Method::Delete, "/f")),
        Response::plain(Status::NoContent)
    );
    assert_eq!(
        spy.calls,
        vec![Operation::RemoveDir(path("/d/")), Operation::RemoveFile(path("/f"))]
    );
    assert_eq!(
        run(&mut spy, &mut None, &request(Method::Delete, "/gone")),
        Response::plain(Status::NotFound)
    );
    assert_eq!(spy.calls.len(), 2);
    let pending = Pending { finish: Finish::Delete, existed: true, location: None };
    assert_eq!(complete(pending, Err(FsError::NotFound)), Response::plain(Status::NotFound));
}

#[test]
fn delete_asks_the_locks_below() {
    let mut spy = Spy::with(vec![("/", dir()), ("/d", dir())]);
    let mut registry = MemLs::new();
    let inner = registry.lock(&path("/d/x/y"), false, true, None).unwrap();
    let mut ls = Some(registry);
    assert_eq!(run(&mut spy, &mut ls, &request(Method::Delete, "/d")).status, Status::Locked);
    let req = Request {
        method: Method::Delete,
        path: path("/d"),
        conditions: ConditionSet {
            alternatives: vec![Conjunction {
                conditions: vec![at("/d/x/y", Assertion::Token(inner.token))],
            }],
        },
    };
    assert_eq!(run(&mut spy, &mut ls, &req).status, Status::NoContent);
}

#[test]
fn get_reads_what_exists() {
    let mut spy = Spy::with(vec![("/", dir()), ("/f", file(1))]);
    assert_eq!(run(&mut spy, &mut None, &request(Method::Get, "/f")).status, Status::Okay);
    assert_eq!(run(&mut spy, &mut None, &request(Method::Head, "/f")).status, Status::Okay);
    assert_eq!(run(&mut spy, &mut None, &request(Method::Get, "/gone")).status, Status::NotFound);
    spy.fault = Some(FsError::Forbidden);
    assert_eq!(run(&mut spy, &mut None, &request(Method::Get, "/f")).status, Status::Forbidden);
}

#[test]
fn not_implemented_is_uniform() {
    for finish in vec![Finish::MkCol, Finish::Put, Finish::Delete, Finish::Transfer, Finish::Read] {
        let pending = Pending { finish, existed: true, location: None };
        assert_eq!(
            complete(pending, Err(FsError::NotImplemented)),
            Response::plain(Status::NotImplemented)
        );
    }
}

#[test]
fn lock_is_granted_by_the_registry() {
    let mut ls = Some(MemLs::new());
    let facts = vec![Resource { path: path("/a"), meta: Some(file(1)) }];
    let req = request(Method::Lock { deep: true, shared: false, deadline: Some(60) }, "/a");
    let answer = match decide(&req, &facts, &mut ls) {
        Decision::Respond(r) => r,
        _ => panic!("a lock asks for no storage operation"),
    };
    assert_eq!(answer.status, Status::Okay);
    let lock = answer.lock.unwrap();
    assert_eq!(lock.token, LockToken { id: 0 });
    assert_eq!(lock.path, path("/a"));
    assert!(lock.deep);
    assert!(!lock.shared);
    assert_eq!(lock.deadline, Some(60));
    assert_eq!(ls.as_ref().unwrap().len(), 1);
    let again = decide(&req, &facts, &mut ls);
    assert_eq!(again, Decision::Respond(Response::plain(Status::Locked)));
    assert_eq!(ls.as_ref().unwrap().len(), 1);
}

#[test]
fn lock_methods_without_registry_are_not_allowed() {
    let facts = vec![Resource { path: path("/a"), meta: Some(file(1)) }];
    let t = LockToken { id: 0 };
    for method in vec![
        Method::Lock { deep: false, shared: false, deadline: None },
        Method::Refresh { token: t, deadline: None },
        Method::Unlock(t),
    ] {
        assert_eq!(
            decide(&request(method, "/a"), &facts, &mut None::<MemLs>),
            Decision::Respond(Response::plain(Status::MethodNotAllowed))
        );
    }
}

#[test]
fn refresh_renews_or_fails_the_precondition() {
    let mut registry = MemLs::new();
    let lock = registry.lock(&path("/a"), false, false, Some(10)).unwrap();
    let mut ls = Some(registry);
    let facts = vec![Resource { path: path("/a"), meta: Some(file(1)) }];
    let req = request(Method::Refresh { token: lock.token, deadline: Some(99) }, "/a");
    match decide(&req, &facts, &mut ls) {
        Decision::Respond(r) => {
            assert_eq!(r.status, Status::Okay);
            assert_eq!(r.lock.unwrap().deadline, Some(99));
        },
        _ => panic!("a renewal asks for no storage operation"),
    }
    let req = request(Method::Refresh { token: LockToken { id: 44 }, deadline: Some(99) }, "/a");
    assert_eq!(
        decide(&req, &facts, &mut ls),
        Decision::Respond(Response::plain(Status::PreconditionFailed))
    );
}

#[test]
fn unlock_with_foreign_token_is_forbidden() {
    let mut registry = MemLs::new();
    let a = registry.lock(&path("/a"), false, false, None).unwrap();
    let b = registry.lock(&path("/b"), false, false, None).unwrap();
    let mut ls = Some(registry);
    let facts = vec![];
    assert_eq!(
        decide(&request(Method::Unlock(b.token), "/a"), &facts, &mut ls),
        Decision::Respond(Response::plain(Status::Forbidden))
    );
    let registry = ls.as_ref().unwrap();
    assert_eq!(registry.len(), 2);
    assert_eq!(registry.check(&path("/b"), false, &vec![b.token]), Ok(()));
    assert_eq!(registry.check(&path("/b"), false, &vec![]), Err(b.clone()));
    assert_eq!(
        decide(&request(Method::Unlock(LockToken { id: 17 }), "/a"), &facts, &mut ls),
        Decision::Respond(Response::plain(Status::Conflict))
    );
    assert_eq!(
        decide(&request(Method::Unlock(a.token), "/a"), &facts, &mut ls),
        Decision::Respond(Response::plain(Status::NoContent))
    );
    assert_eq!(ls.as_ref().unwrap().len(), 1);
}

#[test]
fn wanted_names_target_destination_and_scopes() {
    assert_eq!(wanted(&request(Method::Get, "/a/b")), vec![path("/a/b")]);
    assert_eq!(wanted(&request(Method::MkCol, "/a/b")), vec![path("/a/b"), path("/a/")]);
    assert_eq!(wanted(&request(Method::MkCol, "/")), vec![path("/"), path("/")]);
    assert_eq!(
        wanted(&request(Method::Copy(path("/dst")), "/src")),
        vec![path("/src"), path("/dst")]
    );
    let req = Request {
        method: Method::Move(path("/dst")),
        path: path("/src"),
        conditions: ConditionSet {
            alternatives: vec![
                Conjunction {
                    conditions: vec![at("/x", Assertion::Exists), here(Assertion::Exists)],
                },
                Conjunction { conditions: vec![] },
                Conjunction { conditions: vec![at("/y/", Assertion::Absent)] },
            ],
        },
    };
    assert_eq!(wanted(&req), vec![path("/src"), path("/dst"), path("/x"), path("/y/")]);
}

#[test]
fn granted_response_carries_the_lock() {
    let mut registry = MemLs::new();
    let lock = registry.lock(&path("/a"), false, true, None).unwrap();
    let r = Response::granted(lock.clone());
    assert_eq!(r.status, Status::Okay);
    assert_eq!(r.lock, Some(lock));
    assert_eq!(r.content_location, None);
}
