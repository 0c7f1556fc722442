use dav_server::conditional::assertion_holds;
use dav_server::conditional::carried_tokens;
use dav_server::conditional::condition_met;
use dav_server::conditional::evaluate;
use dav_server::conditional::find_meta;
use dav_server::conditional::judge;
use dav_server::conditional::Assertion;
use dav_server::conditional::Condition;
use dav_server::conditional::ConditionSet;
use dav_server::conditional::Conjunction;
use dav_server::conditional::Failure;
use dav_server::conditional::Outcome;
use dav_server::conditional::Resource;
use dav_server::davpath::DavPath;
use dav_server::fs::DavMetaData;
use dav_server::fs::DavTime;
use dav_server::fs::FsError;
use dav_server::fs::Metadata;
use dav_server::ls::DavLockSystem;
use dav_server::ls::LockToken;
use dav_server::memls::MemLs;

const NO_LS: Option<&MemLs> = None;

fn path(raw: &str) -> DavPath {
    DavPath::new(raw).unwrap()
}

fn file(len: u64, secs: u64) -> Metadata {
    Metadata { len, modified: Ok(DavTime::new(secs, 0).unwrap()), is_dir: false }
}

fn known(raw: &str, meta: Option<Metadata>) -> Resource {
    Resource { path: path(raw), meta }
}

fn here(assertion: Assertion) -> Condition {
    Condition { resource: None, assertion }
}

fn at(raw: &str, assertion: Assertion) -> Condition {
    Condition { resource: Some(path(raw)), assertion }
}

fn all(assertions: Vec<Assertion>) -> Conjunction {
    Conjunction { conditions: assertions.into_iter().map(here).collect() }
}

fn one(assertions: Vec<Assertion>) -> ConditionSet {
    ConditionSet { alternatives: vec![all(assertions)] }
}

fn tag_of(m: &Metadata) -> Vec<u8> {
    m.etag().unwrap().into_bytes()
}

#[test]
fn empty_condition_set_proceeds_with_no_tokens() {
    let set = ConditionSet { alternatives: vec![] };
    let facts = vec![known("/f", None)];
    assert_eq!(evaluate(&set, &facts, NO_LS, &path("/f"), false), Outcome::Proceed(vec![]));
    assert_eq!(evaluate(&set, &facts, NO_LS, &path("/f"), true), Outcome::Proceed(vec![]));
    assert_eq!(evaluate(&set, &vec![], NO_LS, &path("/f"), true), Outcome::Proceed(vec![]));
}

#[test]
fn empty_alternative_is_satisfied() {
    let set = one(vec![]);
    assert_eq!(evaluate(&set, &vec![], NO_LS, &path("/f"), false), Outcome::Proceed(vec![]));
}

#[test]
fn matching_etag_proceeds() {
    let m = file(3, 7);
    assert_eq!(tag_of(&m), b"3-6acfc0".to_vec());
    let set = one(vec![Assertion::ETagIs(b"3-6acfc0".to_vec())]);
    let facts = vec![known("/f", Some(m))];
    assert_eq!(evaluate(&set, &facts, NO_LS, &path("/f"), false), Outcome::Proceed(vec![]));
}

#[test]
fn differing_etag_fails_the_precondition() {
    let set = one(vec![Assertion::ETagIs(b"3-1".to_vec())]);
    let facts = vec![known("/f", Some(file(3, 7)))];
    assert_eq!(
        evaluate(&set, &facts, NO_LS, &path("/f"), false),
        Outcome::Fail(Failure::PreconditionFailed)
    );
    assert_eq!(
        evaluate(&set, &facts, NO_LS, &path("/f"), true),
        Outcome::Fail(Failure::PreconditionFailed)
    );
}

#[test]
fn absent_metadata_fails_every_match() {
    let facts = vec![known("/f", None)];
    let target = path("/f");
    for a in vec![
        Assertion::Exists,
        Assertion::ETagIs(b"1".to_vec()),
        Assertion::ETagIsNot(b"1".to_vec()),
    ] {
        assert!(!assertion_holds(&a, None, NO_LS, &target));
    }
    assert!(assertion_holds(&Assertion::Absent, None, NO_LS, &target));
    assert_eq!(
        evaluate(&one(vec![Assertion::Exists]), &facts, NO_LS, &target, false),
        Outcome::Fail(Failure::PreconditionFailed)
    );
    assert_eq!(
        evaluate(&one(vec![Assertion::Absent]), &facts, NO_LS, &target, false),
        Outcome::Proceed(vec![])
    );
}

#[test]
fn node_without_known_time_has_no_etag_to_match() {
    let m = Metadata { len: 1, modified: Err(FsError::GeneralFailure), is_dir: false };
    let target = path("/f");
    assert!(!assertion_holds(&Assertion::ETagIs(b"1".to_vec()), Some(m), NO_LS, &target));
    assert!(assertion_holds(&Assertion::ETagIsNot(b"1".to_vec()), Some(m), NO_LS, &target));
    assert!(assertion_holds(&Assertion::Exists, Some(m), NO_LS, &target));
    assert!(!assertion_holds(&Assertion::Absent, Some(m), NO_LS, &target));
}

#[test]
fn failed_no_match_is_not_modified_for_retrieval_only() {
    let m = file(3, 7);
    let set = one(vec![Assertion::ETagIsNot(tag_of(&m))]);
    let facts = vec![known("/f", Some(m))];
    assert_eq!(
        evaluate(&set, &facts, NO_LS, &path("/f"), true),
        Outcome::Fail(Failure::NotModified)
    );
    assert_eq!(
        evaluate(&set, &facts, NO_LS, &path("/f"), false),
        Outcome::Fail(Failure::PreconditionFailed)
    );
    let other = one(vec![Assertion::ETagIsNot(b"something-else".to_vec())]);
    assert_eq!(evaluate(&other, &facts, NO_LS, &path("/f"), true), Outcome::Proceed(vec![]));
}

#[test]
fn failed_match_beside_failed_no_match_is_a_failed_precondition() {
    let m = file(3, 7);
    let set = one(vec![Assertion::ETagIs(b"nope".to_vec()), Assertion::ETagIsNot(tag_of(&m))]);
    let facts = vec![known("/f", Some(m))];
    assert_eq!(
        evaluate(&set, &facts, NO_LS, &path("/f"), true),
        Outcome::Fail(Failure::PreconditionFailed)
    );
    assert_eq!(judge(&set.alternatives[0], &facts, NO_LS, &path("/f")), (false, false));
    let soft = one(vec![Assertion::Exists, Assertion::Absent]);
    assert_eq!(judge(&soft.alternatives[0], &facts, NO_LS, &path("/f")), (false, true));
    let full = one(vec![Assertion::Exists]);
    assert_eq!(judge(&full.alternatives[0], &facts, NO_LS, &path("/f")), (true, true));
}

#[test]
fn any_satisfied_alternative_lets_the_request_proceed() {
    let m = file(3, 7);
    let set = ConditionSet {
        alternatives: vec![
            all(vec![Assertion::ETagIs(b"a".to_vec())]),
            all(vec![Assertion::ETagIs(tag_of(&m))]),
            all(vec![Assertion::Absent]),
        ],
    };
    let facts = vec![known("/f", Some(m))];
    assert_eq!(evaluate(&set, &facts, NO_LS, &path("/f"), false), Outcome::Proceed(vec![]));
}

#[test]
fn every_condition_of_an_alternative_must_hold() {
    let m = file(3, 7);
    let set = one(vec![Assertion::ETagIs(tag_of(&m)), Assertion::Token(LockToken { id: 0 })]);
    let facts = vec![known("/f", Some(m))];
    assert_eq!(
        evaluate(&set, &facts, NO_LS, &path("/f"), false),
        Outcome::Fail(Failure::PreconditionFailed)
    );
    let mut ls = MemLs::new();
    let l = ls.lock(&path("/f"), false, false, None).unwrap();
    assert_eq!(l.token, LockToken { id: 0 });
    assert_eq!(
        evaluate(&set, &facts, Some(&ls), &path("/f"), false),
        Outcome::Proceed(vec![l.token])
    );
}

#[test]
fn token_must_be_bound_to_the_resource_in_scope() {
    let mut ls = MemLs::new();
    let a = ls.lock(&path("/a/"), true, false, None).unwrap();
    let b = ls.lock(&path("/b"), false, false, None).unwrap();
    let facts = vec![known("/a/x", None), known("/b", None), known("/b/y", None)];
    let with_a = one(vec![Assertion::Token(a.token)]);
    assert_eq!(
        evaluate(&with_a, &facts, Some(&ls), &path("/a/x"), false),
        Outcome::Proceed(vec![a.token])
    );
    assert_eq!(
        evaluate(&with_a, &facts, Some(&ls), &path("/b"), false),
        Outcome::Fail(Failure::PreconditionFailed)
    );
    let with_b = one(vec![Assertion::Token(b.token)]);
    assert_eq!(
        evaluate(&with_b, &facts, Some(&ls), &path("/b/y"), false),
        Outcome::Fail(Failure::PreconditionFailed)
    );
    let unknown = one(vec![Assertion::Token(LockToken { id: 99 })]);
    assert_eq!(
        evaluate(&unknown, &facts, Some(&ls), &path("/a/x"), false),
        Outcome::Fail(Failure::PreconditionFailed)
    );
}

#[test]
fn negated_token_holds_where_the_token_does_not() {
    let mut ls = MemLs::new();
    let a = ls.lock(&path("/a"), false, false, None).unwrap();
    let target = path("/a");
    let other = path("/b");
    assert!(!assertion_holds(&Assertion::NoToken(a.token), None, Some(&ls), &target));
    assert!(assertion_holds(&Assertion::NoToken(a.token), None, Some(&ls), &other));
    assert!(assertion_holds(&Assertion::NoToken(LockToken { id: 9 }), None, Some(&ls), &target));
    assert!(assertion_holds(&Assertion::NoToken(a.token), None, NO_LS, &target));
    assert!(!assertion_holds(&Assertion::Token(a.token), None, NO_LS, &target));
    let set = one(vec![Assertion::NoToken(LockToken { id: 9 })]);
    assert_eq!(
        evaluate(&set, &vec![], Some(&ls), &target, false),
        Outcome::Proceed(vec![LockToken { id: 9 }])
    );
}

#[test]
fn scoped_condition_speaks_of_its_own_resource() {
    let target = file(1, 1);
    let other = file(2, 2);
    let facts = vec![known("/target", Some(target)), known("/other", Some(other))];
    let set = ConditionSet {
        alternatives: vec![Conjunction {
            conditions: vec![
                at("/other", Assertion::ETagIs(tag_of(&other))),
                here(Assertion::ETagIs(tag_of(&target))),
            ],
        }],
    };
    assert_eq!(evaluate(&set, &facts, NO_LS, &path("/target"), false), Outcome::Proceed(vec![]));
    assert!(condition_met(&set.alternatives[0].conditions[0], &facts, NO_LS, &path("/target")));
    let wrong = ConditionSet {
        alternatives: vec![Conjunction {
            conditions: vec![at("/other", Assertion::ETagIs(tag_of(&target)))],
        }],
    };
    assert_eq!(
        evaluate(&wrong, &facts, NO_LS, &path("/target"), false),
        Outcome::Fail(Failure::PreconditionFailed)
    );
    let unknown = ConditionSet {
        alternatives: vec![Conjunction { conditions: vec![at("/nowhere", Assertion::Absent)] }],
    };
    assert_eq!(evaluate(&unknown, &facts, NO_LS, &path("/target"), false), Outcome::Proceed(vec![]));
}

#[test]
fn carried_tokens_are_all_tokens_in_order() {
    let set = ConditionSet {
        alternatives: vec![
            all(vec![
                Assertion::Token(LockToken { id: 5 }),
                Assertion::Exists,
                Assertion::NoToken(LockToken { id: 2 }),
            ]),
            all(vec![]),
            Conjunction { conditions: vec![at("/z", Assertion::Token(LockToken { id: 9 }))] },
        ],
    };
    assert_eq!(
        carried_tokens(&set),
        vec![LockToken { id: 5 }, LockToken { id: 2 }, LockToken { id: 9 }]
    );
    let facts = vec![known("/f", Some(file(1, 1)))];
    assert_eq!(
        evaluate(&set, &facts, NO_LS, &path("/f"), false),
        Outcome::Proceed(vec![LockToken { id: 5 }, LockToken { id: 2 }, LockToken { id: 9 }])
    );
}

#[test]
fn first_fact_for_a_node_counts() {
    let facts = vec![known("/f", Some(file(1, 1))), known("/f/", None), known("/g", None)];
    assert_eq!(find_meta(&facts, &path("/f")), Some(file(1, 1)));
    assert_eq!(find_meta(&facts, &path("/f/")), Some(file(1, 1)));
    assert_eq!(find_meta(&facts, &path("/g")), None);
    assert_eq!(find_meta(&facts, &path("/h")), None);
}
