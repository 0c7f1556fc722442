//! The engine: what a request comes to, given what is known of the nodes it
//! speaks of and the locks that stand.
//!
//! A request passes through the engine in steps. `wanted` names the nodes
//! whose metadata the engine needs. `decide` evaluates the conditions of the
//! request, then asks the lock registry, then settles what is to be done:
//! an answer at once, or one storage operation. `complete` turns the result
//! of that operation into the answer. The conditions are judged before the
//! locks: where both stand in the way, the request fails its precondition.
use vstd::prelude::*;
use vstd::slice::slice_to_vec;

use crate::conditional::{
    carried, etag_condition, evaluate, evaluate_spec, find_meta, lemma_etag_mismatch_fails,
    locks_of, met, resources_view, satisfied, scope_of, state_of, token_condition, tokens_of,
    ConditionModel, ConditionSet, Failure, NodeState, Outcome, OutcomeModel, Resource,
    ResourceModel,
};
use crate::davpath::{is_at_or_below, parent_of, render, with_slash, DavPath, PathModel};
use crate::fs::{bytes_view, DavProp, FsError, FsResult, OpenOptions, PropModel};
use crate::ls::{
    blocking, bound, covers, lemma_blocking_iff_refused, lemma_exclusive_holder_passes,
    lemma_exclusive_lock_refuses, lemma_foreign_unlock_forbidden, lock_spec, permits,
    refresh_spec, state_wf, unlock_spec, DavLock, DavLockSystem, LockFault, LockModel, LockState,
    LockToken, UnlockFault,
};
use crate::status::Status;

verus! {

/// The method of a request, with what belongs to it alone.
#[derive(Debug)]
pub enum Method {
    Options,
    Get,
    Head,
    Put,
    Delete,
    MkCol,
    /// Copy to the destination.
    Copy(DavPath),
    /// Move to the destination.
    Move(DavPath),
    /// Take a lock that ends at `deadline`, if it ends at all.
    Lock { deep: bool, shared: bool, deadline: Option<u64> },
    /// Give the lock with the token a new deadline.
    Refresh { token: LockToken, deadline: Option<u64> },
    /// Release the lock with the token.
    Unlock(LockToken),
    PropFind,
    PropPatch,
}

/// A request, as far as the engine reads it.
#[derive(Debug)]
pub struct Request {
    pub method: Method,
    pub path: DavPath,
    pub conditions: ConditionSet,
}

/// How the result of a storage operation is to be turned into an answer.
#[derive(Debug, Clone, Copy, PartialEq, Eq, Structural)]
pub enum Finish {
    MkCol,
    Put,
    Delete,
    Transfer,
    Read,
}

/// What the engine keeps of a request while its storage operation runs.
#[derive(Debug, PartialEq, Eq)]
pub struct Pending {
    pub finish: Finish,
    /// Whether the node that is written existed before.
    pub existed: bool,
    /// The URL to report once a collection is created.
    pub location: Option<Vec<u8>>,
}

/// One storage operation.
#[derive(Debug, PartialEq, Eq)]
pub enum Operation {
    Open(DavPath, OpenOptions),
    CreateDir(DavPath),
    RemoveDir(DavPath),
    RemoveFile(DavPath),
    Copy(DavPath, DavPath),
    Rename(DavPath, DavPath),
}

/// The outcome for one property.
#[derive(Debug, PartialEq, Eq)]
pub struct PropStat {
    pub prop: DavProp,
    pub status: Status,
}

/// What a backend found when it looked one property up.
#[derive(Debug)]
pub struct PropLookup {
    pub prop: DavProp,
    pub value: FsResult<Vec<u8>>,
}

/// The answer to a request: the status, and the data from which headers and
/// body are made.
#[derive(Debug, PartialEq, Eq)]
pub struct Response {
    pub status: Status,
    /// The URL of a collection that was created.
    pub content_location: Option<Vec<u8>>,
    /// The lock that was granted or renewed; its token goes into a header.
    pub lock: Option<DavLock>,
    /// Whether a copy or a move replaced its destination.
    pub overwritten: bool,
    /// The lock that stands in the way of a request that is answered as
    /// locked.
    pub blocked_by: Option<DavLock>,
    /// The outcome for each property, in a multi-status answer.
    pub props: Vec<PropStat>,
}

/// What the engine settles on.
#[derive(Debug, PartialEq, Eq)]
pub enum Decision {
    /// The request is answered without a storage operation.
    Respond(Response),
    /// The storage operation is performed and its result handed to
    /// `complete`.
    Execute(Operation, Pending),
    /// The properties of the node are looked up and the results handed to
    /// `complete_propfind`.
    Query(DavPath),
    /// The properties of the node are changed and the result handed to
    /// `complete_proppatch`.
    Patch(DavPath),
}

/// A method as the contracts see it.
pub enum MethodModel {
    Options,
    Get,
    Head,
    Put,
    Delete,
    MkCol,
    Copy(PathModel),
    Move(PathModel),
    Lock { deep: bool, shared: bool, deadline: Option<u64> },
    Refresh { token: LockToken, deadline: Option<u64> },
    Unlock(LockToken),
    PropFind,
    PropPatch,
}

/// A request as the contracts see it.
pub struct RequestModel {
    pub method: MethodModel,
    pub path: PathModel,
    pub conditions: Seq<Seq<ConditionModel>>,
}

/// What is kept of a request, as the contracts see it.
pub struct PendingModel {
    pub finish: Finish,
    pub existed: bool,
    pub location: Option<Seq<u8>>,
}

/// A storage operation as the contracts see it.
pub enum OperationModel {
    Open(PathModel, OpenOptions),
    CreateDir(PathModel),
    RemoveDir(PathModel),
    RemoveFile(PathModel),
    Copy(PathModel, PathModel),
    Rename(PathModel, PathModel),
}

/// The outcome for one property, as the contracts see it.
pub struct PropStatModel {
    pub prop: PropModel,
    pub status: Status,
}

/// The lookup of one property, as the contracts see it.
pub struct PropLookupModel {
    pub prop: PropModel,
    pub value: FsResult<Seq<u8>>,
}

/// An answer as the contracts see it.
pub struct ResponseModel {
    pub status: Status,
    pub content_location: Option<Seq<u8>>,
    pub lock: Option<LockModel>,
    pub overwritten: bool,
    pub blocked_by: Option<LockModel>,
    pub props: Seq<PropStatModel>,
}

/// A decision as the contracts see it.
pub enum DecisionModel {
    Respond(ResponseModel),
    Execute(OperationModel, PendingModel),
    Query(PathModel),
    Patch(PathModel),
}

impl View for Method {
    type V = MethodModel;

    open spec fn view(&self) -> MethodModel {
        match self {
            Method::Options => MethodModel::Options,
            Method::Get => MethodModel::Get,
            Method::Head => MethodModel::Head,
            Method::Put => MethodModel::Put,
            Method::Delete => MethodModel::Delete,
            Method::MkCol => MethodModel::MkCol,
            Method::Copy(d) => MethodModel::Copy(d@),
            Method::Move(d) => MethodModel::Move(d@),
            Method::Lock { deep, shared, deadline } => MethodModel::Lock {
                deep: *deep,
                shared: *shared,
                deadline: *deadline,
            },
            Method::Refresh { token, deadline } => MethodModel::Refresh {
                token: *token,
                deadline: *deadline,
            },
            Method::Unlock(t) => MethodModel::Unlock(*t),
            Method::PropFind => MethodModel::PropFind,
            Method::PropPatch => MethodModel::PropPatch,
        }
    }
}

impl View for Request {
    type V = RequestModel;

    open spec fn view(&self) -> RequestModel {
        RequestModel { method: self.method@, path: self.path@, conditions: self.conditions@ }
    }
}

impl View for Pending {
    type V = PendingModel;

    open spec fn view(&self) -> PendingModel {
        PendingModel {
            finish: self.finish,
            existed: self.existed,
            location: bytes_view(self.location),
        }
    }
}

impl View for Operation {
    type V = OperationModel;

    open spec fn view(&self) -> OperationModel {
        match self {
            Operation::Open(p, o) => OperationModel::Open(p@, *o),
            Operation::CreateDir(p) => OperationModel::CreateDir(p@),
            Operation::RemoveDir(p) => OperationModel::RemoveDir(p@),
            Operation::RemoveFile(p) => OperationModel::RemoveFile(p@),
            Operation::Copy(a, b) => OperationModel::Copy(a@, b@),
            Operation::Rename(a, b) => OperationModel::Rename(a@, b@),
        }
    }
}

impl View for PropStat {
    type V = PropStatModel;

    open spec fn view(&self) -> PropStatModel {
        PropStatModel { prop: self.prop@, status: self.status }
    }
}

impl View for PropLookup {
    type V = PropLookupModel;

    open spec fn view(&self) -> PropLookupModel {
        PropLookupModel {
            prop: self.prop@,
            value: match self.value {
                Ok(v) => Ok(v@),
                Err(e) => Err(e),
            },
        }
    }
}

/// What an optional lock holds.
pub open spec fn lock_view(l: Option<DavLock>) -> Option<LockModel> {
    match l {
        Some(lock) => Some(lock@),
        None => None,
    }
}

/// The models of a vector of outcomes.
pub open spec fn stats_view(v: Seq<PropStat>) -> Seq<PropStatModel> {
    Seq::new(v.len(), |i: int| v[i]@)
}

/// The models of a vector of lookups.
pub open spec fn lookups_view(v: Seq<PropLookup>) -> Seq<PropLookupModel> {
    Seq::new(v.len(), |i: int| v[i]@)
}

impl View for Response {
    type V = ResponseModel;

    open spec fn view(&self) -> ResponseModel {
        ResponseModel {
            status: self.status,
            content_location: bytes_view(self.content_location),
            lock: lock_view(self.lock),
            overwritten: self.overwritten,
            blocked_by: lock_view(self.blocked_by),
            props: stats_view(self.props@),
        }
    }
}

impl View for Decision {
    type V = DecisionModel;

    open spec fn view(&self) -> DecisionModel {
        match self {
            Decision::Respond(r) => DecisionModel::Respond(r@),
            Decision::Execute(o, p) => DecisionModel::Execute(o@, p@),
            Decision::Query(p) => DecisionModel::Query(p@),
            Decision::Patch(p) => DecisionModel::Patch(p@),
        }
    }
}

/// The state of a registry, if there is one.
pub open spec fn registry_view<L: DavLockSystem>(ls: Option<L>) -> Option<LockState> {
    match ls {
        Some(l) => Some(l.state()),
        None => None,
    }
}

/// The locks of a registry; none where there is no registry.
pub open spec fn standing(ls: Option<LockState>) -> Seq<LockModel> {
    match ls {
        Some(s) => s.locks,
        None => Seq::empty(),
    }
}

/// The answer that consists of a status alone.
pub open spec fn plain(status: Status) -> ResponseModel {
    ResponseModel {
        status,
        content_location: None,
        lock: None,
        overwritten: false,
        blocked_by: None,
        props: Seq::empty(),
    }
}

/// The answer to a request that a lock holds up.
pub open spec fn locked(l: LockModel) -> ResponseModel {
    ResponseModel { blocked_by: Some(l), ..plain(Status::Locked) }
}

/// The answer that reports a lock.
pub open spec fn lock_granted(l: LockModel) -> ResponseModel {
    ResponseModel { lock: Some(l), ..plain(Status::Okay) }
}

/// The options under which a node is read.
pub open spec fn reading() -> OpenOptions {
    OpenOptions { read: true, ..OpenOptions::closed() }
}

/// The options under which a node is created or replaced.
pub open spec fn replacing() -> OpenOptions {
    OpenOptions { write: true, create: true, truncate: true, ..OpenOptions::closed() }
}

/// Whether the method only retrieves.
pub open spec fn is_retrieval(m: MethodModel) -> bool {
    m is Get || m is Head
}

/// Whether the locks let the request change what it is about to change:
/// the node itself for MKCOL, PUT and PROPPATCH; the node and the tree below
/// it for DELETE; the destination and its tree for COPY; source and
/// destination with their trees for MOVE. LOCK, its renewal and UNLOCK are
/// judged by the registry operation itself, and the other methods change
/// nothing.
pub open spec fn lock_free(req: RequestModel, locks: Seq<LockModel>, tokens: Seq<LockToken>) -> bool {
    match req.method {
        MethodModel::MkCol | MethodModel::Put | MethodModel::PropPatch => permits(
            locks,
            req.path.segments,
            false,
            tokens,
        ),
        MethodModel::Delete => permits(locks, req.path.segments, true, tokens),
        MethodModel::Copy(d) => permits(locks, d.segments, true, tokens),
        MethodModel::Move(d) => permits(locks, req.path.segments, true, tokens) && permits(
            locks,
            d.segments,
            true,
            tokens,
        ),
        _ => true,
    }
}

/// The lock that holds the request up, if one does: the lock that stands in
/// the way of what the request is about to change. A move asks for its
/// source first.
pub open spec fn held_up(req: RequestModel, locks: Seq<LockModel>, tokens: Seq<LockToken>) -> Option<
    LockModel,
> {
    match req.method {
        MethodModel::MkCol | MethodModel::Put | MethodModel::PropPatch => blocking(
            locks,
            req.path.segments,
            false,
            tokens,
        ),
        MethodModel::Delete => blocking(locks, req.path.segments, true, tokens),
        MethodModel::Copy(d) => blocking(locks, d.segments, true, tokens),
        MethodModel::Move(d) => match blocking(locks, req.path.segments, true, tokens) {
            Some(l) => Some(l),
            None => blocking(locks, d.segments, true, tokens),
        },
        _ => None,
    }
}

/// The URL that is reported for a created collection: that of the path with
/// a separator at its end, if the path was meant as a collection.
pub open spec fn created_location(path: PathModel) -> Option<Seq<u8>> {
    if path.collection {
        Some(render(with_slash(path)))
    } else {
        None
    }
}

/// What a copy or a move comes to: the source must exist, and a collection
/// at the destination is never replaced.
pub open spec fn transfer_spec(
    source: PathModel,
    destination: PathModel,
    facts: Seq<ResourceModel>,
    rename: bool,
) -> DecisionModel {
    let target = state_of(facts, destination.segments);
    if !state_of(facts, source.segments).exists {
        DecisionModel::Respond(plain(Status::NotFound))
    } else if target.exists && target.collection {
        DecisionModel::Respond(plain(Status::PreconditionFailed))
    } else {
        DecisionModel::Execute(
            if rename {
                OperationModel::Rename(source, destination)
            } else {
                OperationModel::Copy(source, destination)
            },
            PendingModel { finish: Finish::Transfer, existed: target.exists, location: None },
        )
    }
}

/// What a request comes to once its conditions hold and no lock refuses it.
pub open spec fn act_spec(req: RequestModel, facts: Seq<ResourceModel>, ls: Option<LockState>) -> (
    DecisionModel,
    Option<LockState>,
) {
    let node = state_of(facts, req.path.segments);
    match req.method {
        MethodModel::Options => (DecisionModel::Respond(plain(Status::Okay)), ls),
        MethodModel::Get | MethodModel::Head => if node.exists {
            (
                DecisionModel::Execute(
                    OperationModel::Open(req.path, reading()),
                    PendingModel { finish: Finish::Read, existed: true, location: None },
                ),
                ls,
            )
        } else {
            (DecisionModel::Respond(plain(Status::NotFound)), ls)
        },
        MethodModel::Put => (
            DecisionModel::Execute(
                OperationModel::Open(req.path, replacing()),
                PendingModel { finish: Finish::Put, existed: node.exists, location: None },
            ),
            ls,
        ),
        MethodModel::Delete => if !node.exists {
            (DecisionModel::Respond(plain(Status::NotFound)), ls)
        } else {
            (
                DecisionModel::Execute(
                    if node.collection {
                        OperationModel::RemoveDir(req.path)
                    } else {
                        OperationModel::RemoveFile(req.path)
                    },
                    PendingModel { finish: Finish::Delete, existed: true, location: None },
                ),
                ls,
            )
        },
        MethodModel::MkCol => if node.exists {
            (DecisionModel::Respond(plain(Status::MethodNotAllowed)), ls)
        } else if req.path.segments.len() > 0 && !state_of(
            facts,
            parent_of(req.path).segments,
        ).exists {
            (DecisionModel::Respond(plain(Status::Conflict)), ls)
        } else {
            (
                DecisionModel::Execute(
                    OperationModel::CreateDir(req.path),
                    PendingModel {
                        finish: Finish::MkCol,
                        existed: false,
                        location: created_location(req.path),
                    },
                ),
                ls,
            )
        },
        MethodModel::Copy(d) => (transfer_spec(req.path, d, facts, false), ls),
        MethodModel::Move(d) => (transfer_spec(req.path, d, facts, true), ls),
        MethodModel::Lock { deep, shared, deadline } => match ls {
            None => (DecisionModel::Respond(plain(Status::MethodNotAllowed)), ls),
            Some(s) => {
                let (granted, after) = lock_spec(s, req.path.segments, deep, shared, deadline);
                (
                    DecisionModel::Respond(
                        match granted {
                            Ok(l) => lock_granted(l),
                            Err(LockFault::Conflict) => plain(Status::Locked),
                            Err(LockFault::Exhausted) => plain(Status::InsufficientStorage),
                        },
                    ),
                    Some(after),
                )
            },
        },
        MethodModel::Refresh { token, deadline } => match ls {
            None => (DecisionModel::Respond(plain(Status::MethodNotAllowed)), ls),
            Some(s) => {
                let (renewed, after) = refresh_spec(s, token, deadline);
                (
                    DecisionModel::Respond(
                        match renewed {
                            Some(l) => lock_granted(l),
                            None => plain(Status::PreconditionFailed),
                        },
                    ),
                    Some(after),
                )
            },
        },
        MethodModel::Unlock(token) => match ls {
            None => (DecisionModel::Respond(plain(Status::MethodNotAllowed)), ls),
            Some(s) => {
                let (released, after) = unlock_spec(s, req.path.segments, token);
                (
                    DecisionModel::Respond(
                        plain(
                            match released {
                                Ok(()) => Status::NoContent,
                                Err(UnlockFault::NotFound) => Status::Conflict,
                                Err(UnlockFault::Forbidden) => Status::Forbidden,
                            },
                        ),
                    ),
                    Some(after),
                )
            },
        },
        MethodModel::PropFind => if node.exists {
            (DecisionModel::Query(req.path), ls)
        } else {
            (DecisionModel::Respond(plain(Status::NotFound)), ls)
        },
        MethodModel::PropPatch => if node.exists {
            (DecisionModel::Patch(req.path), ls)
        } else {
            (DecisionModel::Respond(plain(Status::NotFound)), ls)
        },
    }
}

/// What a request comes to, and the state of the registry after it. The
/// conditions are evaluated first; a request that fails them is answered
/// with that failure. Then the locks are asked; a request that they refuse
/// is answered as locked, and the answer names the lock that stands in the
/// way. Neither answer changes the registry or asks for a storage operation.
pub open spec fn decide_spec(
    req: RequestModel,
    facts: Seq<ResourceModel>,
    ls: Option<LockState>,
) -> (DecisionModel, Option<LockState>) {
    match evaluate_spec(
        req.conditions,
        facts,
        standing(ls),
        req.path.segments,
        is_retrieval(req.method),
    ) {
        OutcomeModel::Fail(Failure::PreconditionFailed) => (
            DecisionModel::Respond(plain(Status::PreconditionFailed)),
            ls,
        ),
        OutcomeModel::Fail(Failure::NotModified) => (
            DecisionModel::Respond(plain(Status::NotModified)),
            ls,
        ),
        OutcomeModel::Proceed(tokens) => match held_up(req, standing(ls), tokens) {
            None => act_spec(req, facts, ls),
            Some(l) => (DecisionModel::Respond(locked(l)), ls),
        },
    }
}

/// The status that answers a storage error after the given kind of
/// operation. A collection or a file that cannot be created for want of its
/// parent is a conflict; a destination that is in the way fails the
/// precondition; everything else has the status of the error itself.
pub open spec fn error_status(finish: Finish, e: FsError) -> Status {
    match (finish, e) {
        (Finish::MkCol, FsError::NotFound) => Status::Conflict,
        (Finish::Put, FsError::NotFound) => Status::Conflict,
        (Finish::Transfer, FsError::Exists) => Status::PreconditionFailed,
        _ => Status::of_error(e),
    }
}

/// The answer after a storage operation.
pub open spec fn complete_spec(p: PendingModel, result: FsResult<()>) -> ResponseModel {
    match result {
        Ok(()) => match p.finish {
            Finish::MkCol => ResponseModel {
                content_location: p.location,
                ..plain(Status::Created)
            },
            Finish::Put => plain(
                if p.existed {
                    Status::NoContent
                } else {
                    Status::Created
                },
            ),
            Finish::Delete => plain(Status::NoContent),
            Finish::Transfer => ResponseModel {
                overwritten: p.existed,
                ..plain(
                    if p.existed {
                        Status::NoContent
                    } else {
                        Status::Created
                    },
                )
            },
            Finish::Read => plain(Status::Okay),
        },
        Err(e) => plain(error_status(p.finish, e)),
    }
}

/// The outcome for a property that was looked up: the value with success,
/// or the status of the error.
pub open spec fn stat_of(l: PropLookupModel) -> PropStatModel {
    match l.value {
        Ok(xml) => PropStatModel {
            prop: PropModel { xml: Some(xml), ..l.prop },
            status: Status::Okay,
        },
        Err(e) => PropStatModel { prop: l.prop, status: Status::of_error(e) },
    }
}

/// The multi-status answer to a query for properties: one outcome for each
/// lookup, in their order, whatever the single lookups came to.
pub open spec fn propfind_spec(lookups: Seq<PropLookupModel>) -> ResponseModel {
    ResponseModel {
        props: Seq::new(lookups.len(), |i: int| stat_of(lookups[i])),
        ..plain(Status::MultiStatus)
    }
}

/// The answer to a change of properties: the outcomes that the backend
/// reports, in a multi-status answer; or the status of the error with which
/// the backend refused the whole change.
pub open spec fn proppatch_spec(result: FsResult<Seq<PropStatModel>>) -> ResponseModel {
    match result {
        Ok(stats) => ResponseModel { props: stats, ..plain(Status::MultiStatus) },
        Err(e) => plain(Status::of_error(e)),
    }
}

/// The paths that the conditions name, in their order.
pub open spec fn named(c: Seq<ConditionModel>) -> Seq<Seq<Seq<u8>>>
    decreases c.len(),
{
    if c.len() == 0 {
        Seq::empty()
    } else {
        match c.last().resource {
            Some(p) => named(c.drop_last()).push(p),
            None => named(c.drop_last()),
        }
    }
}

/// The paths that the alternatives name, in their order.
pub open spec fn scopes(alternatives: Seq<Seq<ConditionModel>>) -> Seq<Seq<Seq<u8>>>
    decreases alternatives.len(),
{
    if alternatives.len() == 0 {
        Seq::empty()
    } else {
        scopes(alternatives.drop_last()) + named(alternatives.last())
    }
}

/// The nodes of which the engine wants to know the state: the target; for
/// MKCOL the collection that is to hold it, for COPY and MOVE the
/// destination; and every node that the conditions name.
pub open spec fn wanted_spec(req: RequestModel) -> Seq<Seq<Seq<u8>>> {
    seq![req.path.segments] + match req.method {
        MethodModel::MkCol => seq![parent_of(req.path).segments],
        MethodModel::Copy(d) => seq![d.segments],
        MethodModel::Move(d) => seq![d.segments],
        _ => Seq::empty(),
    } + scopes(req.conditions)
}

/// The segments of a vector of paths.
pub open spec fn nodes_view(v: Seq<DavPath>) -> Seq<Seq<Seq<u8>>> {
    Seq::new(v.len(), |i: int| v[i]@.segments)
}

/// What a storage knows of its nodes, put into the form in which the engine
/// is told of them.
pub open spec fn facts_about(
    paths: Seq<Seq<Seq<u8>>>,
    world: spec_fn(Seq<Seq<u8>>) -> NodeState,
) -> Seq<ResourceModel> {
    Seq::new(paths.len(), |i: int| ResourceModel { path: paths[i], state: world(paths[i]) })
}

proof fn lemma_state_of_facts(
    paths: Seq<Seq<Seq<u8>>>,
    world: spec_fn(Seq<Seq<u8>>) -> NodeState,
    q: Seq<Seq<u8>>,
)
    requires
        paths.contains(q),
    ensures
        state_of(facts_about(paths, world), q) == world(q),
    decreases paths.len(),
{
    let facts = facts_about(paths, world);
    let i = choose|i: int| 0 <= i < paths.len() && paths[i] == q;
    assert(facts[0].path == paths[0]);
    if paths[0] != q {
        let rest = paths.skip(1);
        assert(rest[i - 1] == q);
        assert(facts.skip(1) =~= facts_about(rest, world));
        lemma_state_of_facts(rest, world, q);
    }
}

proof fn lemma_named(c: Seq<ConditionModel>, j: int)
    requires
        0 <= j < c.len(),
        c[j].resource is Some,
    ensures
        named(c).contains(c[j].resource->0),
    decreases c.len(),
{
    let head = c.drop_last();
    let p = c[j].resource->0;
    if j == c.len() - 1 {
        let all = named(head).push(p);
        assert(all[all.len() - 1] == p);
    } else {
        lemma_named(head, j);
        let k = choose|k: int| 0 <= k < named(head).len() && named(head)[k] == p;
        match c.last().resource {
            Some(last) => {
                assert(named(head).push(last)[k] == p);
            },
            None => {},
        }
    }
}

proof fn lemma_scopes_named(alternatives: Seq<Seq<ConditionModel>>, i: int, j: int)
    requires
        0 <= i < alternatives.len(),
        0 <= j < alternatives[i].len(),
        alternatives[i][j].resource is Some,
    ensures
        scopes(alternatives).contains(alternatives[i][j].resource->0),
    decreases alternatives.len(),
{
    let head = alternatives.drop_last();
    let p = alternatives[i][j].resource->0;
    let tail = named(alternatives.last());
    if i == alternatives.len() - 1 {
        lemma_named(alternatives[i], j);
        let k = choose|k: int| 0 <= k < tail.len() && tail[k] == p;
        assert((scopes(head) + tail)[scopes(head).len() + k] == p);
    } else {
        lemma_scopes_named(head, i, j);
        let k = choose|k: int| 0 <= k < scopes(head).len() && scopes(head)[k] == p;
        assert((scopes(head) + tail)[k] == p);
    }
}

/// The engine is told of every node it reads: the facts that a storage
/// gives about the nodes that `wanted_spec` names say of the target, of the
/// collection that is to hold a new collection, of the destination and of
/// every node that a condition names what the storage knows of them.
pub proof fn lemma_wanted_suffices(
    req: RequestModel,
    world: spec_fn(Seq<Seq<u8>>) -> NodeState,
)
    ensures
        state_of(facts_about(wanted_spec(req), world), req.path.segments) == world(
            req.path.segments,
        ),
        req.method is MkCol ==> state_of(
            facts_about(wanted_spec(req), world),
            parent_of(req.path).segments,
        ) == world(parent_of(req.path).segments),
        req.method matches MethodModel::Copy(d) ==> state_of(
            facts_about(wanted_spec(req), world),
            d.segments,
        ) == world(d.segments),
        req.method matches MethodModel::Move(d) ==> state_of(
            facts_about(wanted_spec(req), world),
            d.segments,
        ) == world(d.segments),
        forall|i: int, j: int|
            0 <= i < req.conditions.len() && 0 <= j < req.conditions[i].len() ==> state_of(
                facts_about(wanted_spec(req), world),
                scope_of(#[trigger] req.conditions[i][j], req.path.segments),
            ) == world(scope_of(req.conditions[i][j], req.path.segments)),
{
    let paths = wanted_spec(req);
    let extra = match req.method {
        MethodModel::MkCol => seq![parent_of(req.path).segments],
        MethodModel::Copy(d) => seq![d.segments],
        MethodModel::Move(d) => seq![d.segments],
        _ => Seq::empty(),
    };
    let all_named = scopes(req.conditions);
    assert(paths == seq![req.path.segments] + extra + all_named);
    assert(paths[0] == req.path.segments);
    lemma_state_of_facts(paths, world, req.path.segments);
    if extra.len() > 0 {
        assert(paths[1] == extra[0]);
        lemma_state_of_facts(paths, world, extra[0]);
    }
    assert forall|i: int, j: int|
        0 <= i < req.conditions.len() && 0 <= j < req.conditions[i].len() implies state_of(
        facts_about(paths, world),
        scope_of(#[trigger] req.conditions[i][j], req.path.segments),
    ) == world(scope_of(req.conditions[i][j], req.path.segments)) by {
        let c = req.conditions[i][j];
        if c.resource is Some {
            lemma_scopes_named(req.conditions, i, j);
            let p = c.resource->0;
            let k = choose|k: int| 0 <= k < all_named.len() && all_named[k] == p;
            assert(paths[1 + extra.len() + k] == p);
            lemma_state_of_facts(paths, world, p);
        }
    }
}

/// In the answer to a query for properties every property has the outcome
/// of its own lookup, and the answer is a multi-status answer whatever the
/// single lookups came to.
pub proof fn lemma_propfind_outcomes(lookups: Seq<PropLookupModel>, i: int)
    requires
        0 <= i < lookups.len(),
    ensures
        propfind_spec(lookups).status == Status::MultiStatus,
        propfind_spec(lookups).props.len() == lookups.len(),
        propfind_spec(lookups).props[i].status == match lookups[i].value {
            Ok(_) => Status::Okay,
            Err(e) => Status::of_error(e),
        },
        propfind_spec(lookups).props[i].prop.name == lookups[i].prop.name,
{
}

/// No lock holds a request up exactly if the locks let it change what it is
/// about to change.
pub proof fn lemma_held_up_iff_refused(
    req: RequestModel,
    locks: Seq<LockModel>,
    tokens: Seq<LockToken>,
)
    ensures
        lock_free(req, locks, tokens) <==> held_up(req, locks, tokens) is None,
{
    lemma_blocking_iff_refused(locks, req.path.segments, false, tokens);
    lemma_blocking_iff_refused(locks, req.path.segments, true, tokens);
    match req.method {
        MethodModel::Copy(d) => {
            lemma_blocking_iff_refused(locks, d.segments, true, tokens);
        },
        MethodModel::Move(d) => {
            lemma_blocking_iff_refused(locks, d.segments, true, tokens);
        },
        _ => {},
    }
}

/// A request that fails its conditions gets that failure for an answer; it
/// asks for no storage operation and leaves the registry as it was.
pub proof fn lemma_failed_conditions_end_request(
    req: RequestModel,
    facts: Seq<ResourceModel>,
    ls: Option<LockState>,
)
    requires
        evaluate_spec(
            req.conditions,
            facts,
            standing(ls),
            req.path.segments,
            is_retrieval(req.method),
        ) is Fail,
    ensures
        decide_spec(req, facts, ls).0 matches DecisionModel::Respond(r) && (r.status
            == Status::PreconditionFailed || r.status == Status::NotModified),
        decide_spec(req, facts, ls).1 == ls,
{
}

/// A request whose only condition asks for an entity tag that the target
/// does not have fails its precondition: no storage operation is asked for
/// and the registry stays as it was.
pub proof fn lemma_if_match_mismatch(
    req: RequestModel,
    facts: Seq<ResourceModel>,
    ls: Option<LockState>,
    tag: Seq<u8>,
)
    requires
        req.conditions == seq![seq![etag_condition(tag)]],
        state_of(facts, req.path.segments).etag != Some(tag),
    ensures
        decide_spec(req, facts, ls) == (
            DecisionModel::Respond(plain(Status::PreconditionFailed)),
            ls,
        ),
{
    lemma_etag_mismatch_fails(
        facts,
        standing(ls),
        req.path.segments,
        is_retrieval(req.method),
        tag,
    );
}

/// MKCOL on a node that exists is never answered as a conflict and never
/// reaches the storage: it is answered as not allowed, unless its conditions
/// fail or a lock refuses it.
pub proof fn lemma_mkcol_on_existing_node(
    req: RequestModel,
    facts: Seq<ResourceModel>,
    ls: Option<LockState>,
)
    requires
        req.method is MkCol,
        state_of(facts, req.path.segments).exists,
    ensures
        decide_spec(req, facts, ls).0 matches DecisionModel::Respond(r) && (r.status
            == Status::MethodNotAllowed || r.status == Status::PreconditionFailed || r.status
            == Status::Locked),
        (evaluate_spec(req.conditions, facts, standing(ls), req.path.segments, false) matches OutcomeModel::Proceed(
            tokens,
        ) && lock_free(req, standing(ls), tokens)) ==> decide_spec(req, facts, ls) == (
            DecisionModel::Respond(plain(Status::MethodNotAllowed)),
            ls,
        ),
{
    match evaluate_spec(req.conditions, facts, standing(ls), req.path.segments, false) {
        OutcomeModel::Proceed(tokens) => {
            lemma_held_up_iff_refused(req, standing(ls), tokens);
        },
        _ => {},
    }
}

/// MKCOL on a node that does not exist, below a collection that does not
/// exist either, is answered as a conflict, unless its conditions fail or a
/// lock refuses it.
pub proof fn lemma_mkcol_without_parent(
    req: RequestModel,
    facts: Seq<ResourceModel>,
    ls: Option<LockState>,
)
    requires
        req.method is MkCol,
        req.path.segments.len() > 0,
        !state_of(facts, req.path.segments).exists,
        !state_of(facts, parent_of(req.path).segments).exists,
    ensures
        decide_spec(req, facts, ls).0 matches DecisionModel::Respond(r) && (r.status
            == Status::Conflict || r.status == Status::PreconditionFailed || r.status
            == Status::Locked),
        (evaluate_spec(req.conditions, facts, standing(ls), req.path.segments, false) matches OutcomeModel::Proceed(
            tokens,
        ) && lock_free(req, standing(ls), tokens)) ==> decide_spec(req, facts, ls) == (
            DecisionModel::Respond(plain(Status::Conflict)),
            ls,
        ),
{
    match evaluate_spec(req.conditions, facts, standing(ls), req.path.segments, false) {
        OutcomeModel::Proceed(tokens) => {
            lemma_held_up_iff_refused(req, standing(ls), tokens);
        },
        _ => {},
    }
}

/// Whether the method changes the node of the request itself.
pub open spec fn changes_target(m: MethodModel) -> bool {
    m is MkCol || m is Put || m is Delete || m is PropPatch || m is Move
}

/// Below an exclusive lock that reaches down, a request that changes its
/// target and whose conditions hold is answered as locked if it does not
/// carry the token of that lock.
pub proof fn lemma_locked_without_token(
    req: RequestModel,
    facts: Seq<ResourceModel>,
    s: LockState,
    k: int,
)
    requires
        changes_target(req.method),
        0 <= k < s.locks.len(),
        !s.locks[k].shared,
        s.locks[k].deep,
        is_at_or_below(s.locks[k].path, req.path.segments),
        evaluate_spec(req.conditions, facts, s.locks, req.path.segments, false) is Proceed,
        !carried(req.conditions).contains(s.locks[k].token),
    ensures
        decide_spec(req, facts, Some(s)).0 matches DecisionModel::Respond(r) && r.status
            == Status::Locked && r.blocked_by is Some,
        decide_spec(req, facts, Some(s)).1 == Some(s),
{
    let tokens = carried(req.conditions);
    lemma_held_up_iff_refused(req, s.locks, tokens);
    let outcome = evaluate_spec(req.conditions, facts, s.locks, req.path.segments, false);
    if req.conditions.len() == 0 {
        assert(tokens =~= Seq::<LockToken>::empty());
    }
    assert(outcome == OutcomeModel::Proceed(tokens));
    lemma_exclusive_lock_refuses(s.locks, k, req.path.segments, false, tokens);
    lemma_exclusive_lock_refuses(s.locks, k, req.path.segments, true, tokens);
}

/// Below an exclusive lock that reaches down, a request that changes its
/// target and presents the token of that lock as its one condition is not
/// held up: it comes to what the method comes to.
pub proof fn lemma_proceeds_with_token(
    req: RequestModel,
    facts: Seq<ResourceModel>,
    s: LockState,
    k: int,
)
    requires
        state_wf(s),
        req.method is MkCol || req.method is Put || req.method is Delete || req.method
            is PropPatch,
        0 <= k < s.locks.len(),
        !s.locks[k].shared,
        s.locks[k].deep,
        is_at_or_below(s.locks[k].path, req.path.segments),
        req.conditions == seq![seq![token_condition(s.locks[k].token)]],
    ensures
        decide_spec(req, facts, Some(s)) == act_spec(req, facts, Some(s)),
{
    let token = s.locks[k].token;
    let c = req.conditions[0];
    let path = req.path.segments;
    assert(covers(s.locks[k], path));
    assert(bound(s.locks, token, path));
    assert(c[0] == token_condition(token));
    assert(met(c[0], facts, s.locks, path));
    assert(satisfied(c, facts, s.locks, path));
    reveal_with_fuel(carried, 2);
    reveal_with_fuel(tokens_of, 2);
    assert(req.conditions.drop_last() =~= Seq::<Seq<ConditionModel>>::empty());
    assert(c.drop_last() =~= Seq::<ConditionModel>::empty());
    assert(req.conditions.last() == c);
    assert(c.last() == token_condition(token));
    let tokens = carried(req.conditions);
    assert(tokens =~= seq![token]);
    assert(tokens[0] == token);
    assert(tokens.contains(token));
    lemma_exclusive_holder_passes(s, k, path, false, tokens);
    lemma_exclusive_holder_passes(s, k, path, true, tokens);
    lemma_held_up_iff_refused(req, s.locks, tokens);
}

/// A copy onto a collection that exists fails its precondition; a copy onto
/// a resource that exists is carried out and, once the storage has done it,
/// reported as a success that replaced its destination. Both hold of a
/// request without conditions that no lock refuses.
pub proof fn lemma_copy_onto_existing(
    req: RequestModel,
    facts: Seq<ResourceModel>,
    ls: Option<LockState>,
    destination: PathModel,
)
    requires
        req.method == MethodModel::Copy(destination),
        req.conditions.len() == 0,
        permits(standing(ls), destination.segments, true, Seq::empty()),
        state_of(facts, req.path.segments).exists,
        state_of(facts, destination.segments).exists,
    ensures
        state_of(facts, destination.segments).collection ==> decide_spec(req, facts, ls) == (
            DecisionModel::Respond(plain(Status::PreconditionFailed)),
            ls,
        ),
        !state_of(facts, destination.segments).collection ==> {
            &&& decide_spec(req, facts, ls).0 matches DecisionModel::Execute(op, pending)
            &&& decide_spec(req, facts, ls).0->Execute_0 == OperationModel::Copy(
                req.path,
                destination,
            )
            &&& complete_spec(decide_spec(req, facts, ls).0->Execute_1, Ok(())).overwritten
            &&& complete_spec(
                decide_spec(req, facts, ls).0->Execute_1,
                Ok(()),
            ).status.is_success_spec()
        },
{
    lemma_held_up_iff_refused(req, standing(ls), Seq::empty());
}

/// A release that names a lock of another path is answered as forbidden,
/// and the registry stays as it was.
pub proof fn lemma_unlock_foreign_path(
    req: RequestModel,
    facts: Seq<ResourceModel>,
    s: LockState,
    k: int,
)
    requires
        state_wf(s),
        0 <= k < s.locks.len(),
        req.method == MethodModel::Unlock(s.locks[k].token),
        req.conditions.len() == 0,
        s.locks[k].path != req.path.segments,
    ensures
        decide_spec(req, facts, Some(s)) == (
            DecisionModel::Respond(plain(Status::Forbidden)),
            Some(s),
        ),
{
    lemma_foreign_unlock_forbidden(s, k, req.path.segments);
}

/// Every storage error is answered with an error status, whatever the
/// operation was.
pub proof fn lemma_error_never_succeeds(p: PendingModel, e: FsError)
    ensures
        !complete_spec(p, Err(e)).status.is_success_spec(),
        complete_spec(p, Err(e)).props.len() == 0,
        !complete_spec(p, Err(e)).overwritten,
{
}

/// An operation that is not implemented is answered as not implemented,
/// whatever the operation was.
pub proof fn lemma_not_implemented_is_uniform(p: PendingModel)
    ensures
        complete_spec(p, Err(FsError::NotImplemented)).status == Status::NotImplemented,
        proppatch_spec(Err(FsError::NotImplemented)).status == Status::NotImplemented,
{
}

impl Response {
    /// The answer that consists of a status alone.
    pub fn plain(status: Status) -> (r: Response)
        ensures
            r@ == plain(status),
    {
        let r = Response {
            status,
            content_location: None,
            lock: None,
            overwritten: false,
            blocked_by: None,
            props: Vec::new(),
        };
        proof {
            assert(stats_view(r.props@) =~= Seq::<PropStatModel>::empty());
        }
        r
    }

    /// The answer that reports a lock.
    pub fn granted(lock: DavLock) -> (r: Response)
        ensures
            r@ == lock_granted(lock@),
    {
        let r = Response {
            status: Status::Okay,
            content_location: None,
            lock: Some(lock),
            overwritten: false,
            blocked_by: None,
            props: Vec::new(),
        };
        proof {
            assert(stats_view(r.props@) =~= Seq::<PropStatModel>::empty());
        }
        r
    }
}

fn respond(status: Status) -> (d: Decision)
    ensures
        d@ == DecisionModel::Respond(plain(status)),
{
    Decision::Respond(Response::plain(status))
}

/// The nodes of which the engine wants to know the state before it decides.
pub fn wanted(req: &Request) -> (paths: Vec<DavPath>)
    ensures
        nodes_view(paths@) == wanted_spec(req@),
{
    let mut paths: Vec<DavPath> = Vec::new();
    paths.push(req.path.clone());
    match &req.method {
        Method::MkCol => {
            paths.push(req.path.parent());
        },
        Method::Copy(d) => {
            paths.push(d.clone());
        },
        Method::Move(d) => {
            paths.push(d.clone());
        },
        _ => {},
    }
    let ghost head = nodes_view(paths@);
    let ghost alts = req.conditions@;
    let n = req.conditions.alternatives.len();
    let mut i: usize = 0;
    proof {
        assert(head =~= seq![req@.path.segments] + match req@.method {
            MethodModel::MkCol => seq![parent_of(req@.path).segments],
            MethodModel::Copy(d) => seq![d.segments],
            MethodModel::Move(d) => seq![d.segments],
            _ => Seq::empty(),
        });
        assert(alts.take(0) =~= Seq::<Seq<ConditionModel>>::empty());
        assert(head + Seq::<Seq<Seq<u8>>>::empty() =~= head);
    }
    while i < n
        invariant
            i <= n,
            n == req.conditions.alternatives.len(),
            alts == req.conditions@,
            nodes_view(paths@) == head + scopes(alts.take(i as int)),
        decreases n - i,
    {
        let c = &req.conditions.alternatives[i];
        let m = c.conditions.len();
        let mut j: usize = 0;
        let ghost list = alts[i as int];
        let ghost before = nodes_view(paths@);
        proof {
            assert(list == c@);
            assert(list.take(0) =~= Seq::<ConditionModel>::empty());
            assert(before + Seq::<Seq<Seq<u8>>>::empty() =~= before);
        }
        while j < m
            invariant
                j <= m,
                m == c.conditions.len(),
                list == c@,
                nodes_view(paths@) == before + named(list.take(j as int)),
            decreases m - j,
        {
            let ghost so_far = nodes_view(paths@);
            proof {
                let next = list.take(j + 1);
                assert(next.drop_last() =~= list.take(j as int));
                assert(next.last() == c.conditions@[j as int]@);
            }
            match &c.conditions[j].resource {
                Some(p) => {
                    paths.push(p.clone());
                    proof {
                        assert(nodes_view(paths@) =~= so_far.push(p@.segments));
                        assert(so_far.push(p@.segments) =~= before + named(list.take(j + 1)));
                    }
                },
                None => {},
            }
            j += 1;
        }
        proof {
            assert(list.take(m as int) =~= list);
            let next = alts.take(i + 1);
            assert(next.drop_last() =~= alts.take(i as int));
            assert(next.last() == alts[i as int]);
            assert(head + (scopes(alts.take(i as int)) + named(list)) =~= (head + scopes(
                alts.take(i as int),
            )) + named(list));
        }
        i += 1;
    }
    proof {
        assert(alts.take(n as int) =~= alts);
    }
    paths
}

fn lock_check<L: DavLockSystem>(req: &Request, ls: Option<&L>, tokens: &Vec<LockToken>) -> (r: Option<
    DavLock,
>)
    ensures
        lock_view(r) == held_up(req@, locks_of(ls), tokens@),
{
    match ls {
        None => {
            proof {
                let none = Seq::<LockModel>::empty();
                assert(forall|p: Seq<Seq<u8>>, deep: bool|
                    #[trigger] blocking(none, p, deep, tokens@) is None);
            }
            None
        },
        Some(l) => match &req.method {
            Method::MkCol => l.check(&req.path, false, tokens).err(),
            Method::Put => l.check(&req.path, false, tokens).err(),
            Method::PropPatch => l.check(&req.path, false, tokens).err(),
            Method::Delete => l.check(&req.path, true, tokens).err(),
            Method::Copy(d) => l.check(d, true, tokens).err(),
            Method::Move(d) => match l.check(&req.path, true, tokens) {
                Err(lock) => Some(lock),
                Ok(()) => l.check(d, true, tokens).err(),
            },
            _ => None,
        },
    }
}

fn transfer(source: &DavPath, destination: &DavPath, facts: &Vec<Resource>, rename: bool) -> (d:
    Decision)
    ensures
        d@ == transfer_spec(source@, destination@, resources_view(facts@), rename),
{
    let from = find_meta(facts, source);
    let to = find_meta(facts, destination);
    if from.is_none() {
        return respond(Status::NotFound);
    }
    let (exists, collection) = match to {
        Some(m) => (true, m.is_dir),
        None => (false, false),
    };
    if exists && collection {
        return respond(Status::PreconditionFailed);
    }
    let op = if rename {
        Operation::Rename(source.clone(), destination.clone())
    } else {
        Operation::Copy(source.clone(), destination.clone())
    };
    Decision::Execute(op, Pending { finish: Finish::Transfer, existed: exists, location: None })
}

fn act<L: DavLockSystem>(req: &Request, facts: &Vec<Resource>, ls: &mut Option<L>) -> (d: Decision)
    ensures
        (d@, registry_view(*final(ls))) == act_spec(
            req@,
            resources_view(facts@),
            registry_view(*old(ls)),
        ),
{
    let meta = find_meta(facts, &req.path);
    match &req.method {
        Method::Options => respond(Status::Okay),
        Method::Get | Method::Head => {
            if meta.is_some() {
                Decision::Execute(
                    Operation::Open(req.path.clone(), OpenOptions::read()),
                    Pending { finish: Finish::Read, existed: true, location: None },
                )
            } else {
                respond(Status::NotFound)
            }
        },
        Method::Put => {
            let mut options = OpenOptions::write();
            options.create = true;
            options.truncate = true;
            Decision::Execute(
                Operation::Open(req.path.clone(), options),
                Pending { finish: Finish::Put, existed: meta.is_some(), location: None },
            )
        },
        Method::Delete => match meta {
            None => respond(Status::NotFound),
            Some(m) => {
                let op = if m.is_dir {
                    Operation::RemoveDir(req.path.clone())
                } else {
                    Operation::RemoveFile(req.path.clone())
                };
                Decision::Execute(
                    op,
                    Pending { finish: Finish::Delete, existed: true, location: None },
                )
            },
        },
        Method::MkCol => {
            if meta.is_some() {
                return respond(Status::MethodNotAllowed);
            }
            if !req.path.is_root() {
                let parent = req.path.parent();
                if find_meta(facts, &parent).is_none() {
                    return respond(Status::Conflict);
                }
            }
            let location = if req.path.is_collection() {
                let mut shown = req.path.clone();
                shown.add_slash();
                Some(shown.as_url())
            } else {
                None
            };
            Decision::Execute(
                Operation::CreateDir(req.path.clone()),
                Pending { finish: Finish::MkCol, existed: false, location },
            )
        },
        Method::Copy(d) => transfer(&req.path, d, facts, false),
        Method::Move(d) => transfer(&req.path, d, facts, true),
        Method::Lock { deep, shared, deadline } => match ls {
            None => respond(Status::MethodNotAllowed),
            Some(l) => match l.lock(&req.path, *deep, *shared, *deadline) {
                Ok(lock) => Decision::Respond(Response::granted(lock)),
                Err(LockFault::Conflict) => respond(Status::Locked),
                Err(LockFault::Exhausted) => respond(Status::InsufficientStorage),
            },
        },
        Method::Refresh { token, deadline } => match ls {
            None => respond(Status::MethodNotAllowed),
            Some(l) => match l.refresh(*token, *deadline) {
                Some(lock) => Decision::Respond(Response::granted(lock)),
                None => respond(Status::PreconditionFailed),
            },
        },
        Method::Unlock(token) => match ls {
            None => respond(Status::MethodNotAllowed),
            Some(l) => match l.unlock(&req.path, *token) {
                Ok(()) => respond(Status::NoContent),
                Err(UnlockFault::NotFound) => respond(Status::Conflict),
                Err(UnlockFault::Forbidden) => respond(Status::Forbidden),
            },
        },
        Method::PropFind => {
            if meta.is_some() {
                Decision::Query(req.path.clone())
            } else {
                respond(Status::NotFound)
            }
        },
        Method::PropPatch => {
            if meta.is_some() {
                Decision::Patch(req.path.clone())
            } else {
                respond(Status::NotFound)
            }
        },
    }
}

/// Settles what a request comes to. `facts` holds what is known of the
/// nodes that `wanted` names; `ls` is the lock registry, if there is one.
pub fn decide<L: DavLockSystem>(req: &Request, facts: &Vec<Resource>, ls: &mut Option<L>) -> (d:
    Decision)
    ensures
        (d@, registry_view(*final(ls))) == decide_spec(
            req@,
            resources_view(facts@),
            registry_view(*old(ls)),
        ),
{
    let retrieval = match &req.method {
        Method::Get => true,
        Method::Head => true,
        _ => false,
    };
    let registry = ls.as_ref();
    proof {
        assert(locks_of(registry) == standing(registry_view(*ls)));
    }
    let outcome = evaluate(&req.conditions, facts, registry, &req.path, retrieval);
    match outcome {
        Outcome::Fail(Failure::PreconditionFailed) => respond(Status::PreconditionFailed),
        Outcome::Fail(Failure::NotModified) => respond(Status::NotModified),
        Outcome::Proceed(tokens) => {
            match lock_check(req, registry, &tokens) {
                None => act(req, facts, ls),
                Some(lock) => {
                    let mut answer = Response::plain(Status::Locked);
                    answer.blocked_by = Some(lock);
                    Decision::Respond(answer)
                },
            }
        },
    }
}

/// The answer after the storage operation of a request has returned.
pub fn complete(pending: Pending, result: FsResult<()>) -> (r: Response)
    ensures
        r@ == complete_spec(pending@, result),
{
    match result {
        Ok(()) => match pending.finish {
            Finish::MkCol => {
                let mut r = Response::plain(Status::Created);
                r.content_location = pending.location;
                r
            },
            Finish::Put => Response::plain(
                if pending.existed {
                    Status::NoContent
                } else {
                    Status::Created
                },
            ),
            Finish::Delete => Response::plain(Status::NoContent),
            Finish::Transfer => {
                let mut r = Response::plain(
                    if pending.existed {
                        Status::NoContent
                    } else {
                        Status::Created
                    },
                );
                r.overwritten = pending.existed;
                r
            },
            Finish::Read => Response::plain(Status::Okay),
        },
        Err(e) => {
            let status = match (pending.finish, e) {
                (Finish::MkCol, FsError::NotFound) => Status::Conflict,
                (Finish::Put, FsError::NotFound) => Status::Conflict,
                (Finish::Transfer, FsError::Exists) => Status::PreconditionFailed,
                _ => Status::from_error(e),
            };
            Response::plain(status)
        },
    }
}

/// The multi-status answer to a query for properties.
pub fn complete_propfind(lookups: &Vec<PropLookup>) -> (r: Response)
    ensures
        r@ == propfind_spec(lookups_view(lookups@)),
{
    let mut props: Vec<PropStat> = Vec::new();
    let n = lookups.len();
    let mut i: usize = 0;
    let ghost all = lookups_view(lookups@);
    while i < n
        invariant
            i <= n,
            n == lookups.len(),
            all == lookups_view(lookups@),
            props.len() == i,
            forall|k: int| 0 <= k < i ==> (#[trigger] props@[k])@ == stat_of(all[k]),
        decreases n - i,
    {
        assert(all[i as int] == lookups@[i as int]@);
        let l = &lookups[i];
        let mut prop = l.prop.clone();
        let stat = match &l.value {
            Ok(xml) => {
                prop.xml = Some(slice_to_vec(xml.as_slice()));
                PropStat { prop, status: Status::Okay }
            },
            Err(e) => PropStat { prop, status: Status::from_error(*e) },
        };
        props.push(stat);
        i += 1;
    }
    let r = Response {
        status: Status::MultiStatus,
        content_location: None,
        lock: None,
        overwritten: false,
        blocked_by: None,
        props,
    };
    proof {
        assert(stats_view(r.props@) =~= Seq::new(all.len(), |i: int| stat_of(all[i])));
    }
    r
}

/// The answer to a change of properties.
pub fn complete_proppatch(result: FsResult<Vec<PropStat>>) -> (r: Response)
    ensures
        r@ == proppatch_spec(
            match result {
                Ok(v) => Ok(stats_view(v@)),
                Err(e) => Err(e),
            },
        ),
{
    match result {
        Ok(props) => Response {
            status: Status::MultiStatus,
            content_location: None,
            lock: None,
            overwritten: false,
            blocked_by: None,
            props,
        },
        Err(e) => Response::plain(Status::from_error(e)),
    }
}

} // verus!
