//! From the method name, the target and the headers of a request to the
//! request as the engine reads it.
use vstd::prelude::*;

use crate::conditional::{carried, carried_tokens, ConditionModel, ConditionSet};
use crate::davpath::{bytes_eq, parse_spec, DavPath};
use crate::fs::bytes_view;
use crate::handler::{plain, Method, MethodModel, Request, RequestModel, Response};
use crate::headers::{
    conditions_spec, depth_spec, destination_spec, parse_depth, parse_destination, parse_timeout,
    raw_view, read_conditions_of, timeout_spec,
};
use crate::ls::LockToken;
use crate::status::Status;
use crate::token::{deadline_after, deadline_spec, parse_coded_spec};

verus! {

/// The values of the headers that the engine reads, each as it came.
#[derive(Debug, Default, PartialEq, Eq)]
pub struct Headers {
    /// `If-Match`: entity tags of which the target must have one.
    pub if_match: Option<Vec<u8>>,
    /// `If-None-Match`: entity tags of which the target must have none.
    pub if_none_match: Option<Vec<u8>>,
    /// `If`: lists of conditions of which one must hold.
    pub if_header: Option<Vec<u8>>,
    /// `Destination`: where a copy or a move goes.
    pub destination: Option<Vec<u8>>,
    /// `Depth`: whether a lock reaches down.
    pub depth: Option<Vec<u8>>,
    /// `Timeout`: for how long a lock is asked.
    pub timeout: Option<Vec<u8>>,
    /// `Lock-Token`: the lock that is to be released.
    pub lock_token: Option<Vec<u8>>,
}

/// The headers as the contracts see them.
pub struct HeadersModel {
    pub if_match: Option<Seq<u8>>,
    pub if_none_match: Option<Seq<u8>>,
    pub if_header: Option<Seq<u8>>,
    pub destination: Option<Seq<u8>>,
    pub depth: Option<Seq<u8>>,
    pub timeout: Option<Seq<u8>>,
    pub lock_token: Option<Seq<u8>>,
}

impl View for Headers {
    type V = HeadersModel;

    open spec fn view(&self) -> HeadersModel {
        HeadersModel {
            if_match: bytes_view(self.if_match),
            if_none_match: bytes_view(self.if_none_match),
            if_header: bytes_view(self.if_header),
            destination: bytes_view(self.destination),
            depth: bytes_view(self.depth),
            timeout: bytes_view(self.timeout),
            lock_token: bytes_view(self.lock_token),
        }
    }
}

/// The name `OPTIONS`.
pub open spec fn name_options() -> Seq<u8> {
    seq![79u8, 80u8, 84u8, 73u8, 79u8, 78u8, 83u8]
}

/// The name `GET`.
pub open spec fn name_get() -> Seq<u8> {
    seq![71u8, 69u8, 84u8]
}

/// The name `HEAD`.
pub open spec fn name_head() -> Seq<u8> {
    seq![72u8, 69u8, 65u8, 68u8]
}

/// The name `PUT`.
pub open spec fn name_put() -> Seq<u8> {
    seq![80u8, 85u8, 84u8]
}

/// The name `DELETE`.
pub open spec fn name_delete() -> Seq<u8> {
    seq![68u8, 69u8, 76u8, 69u8, 84u8, 69u8]
}

/// The name `MKCOL`.
pub open spec fn name_mkcol() -> Seq<u8> {
    seq![77u8, 75u8, 67u8, 79u8, 76u8]
}

/// The name `COPY`.
pub open spec fn name_copy() -> Seq<u8> {
    seq![67u8, 79u8, 80u8, 89u8]
}

/// The name `MOVE`.
pub open spec fn name_move() -> Seq<u8> {
    seq![77u8, 79u8, 86u8, 69u8]
}

/// The name `LOCK`.
pub open spec fn name_lock() -> Seq<u8> {
    seq![76u8, 79u8, 67u8, 75u8]
}

/// The name `UNLOCK`.
pub open spec fn name_unlock() -> Seq<u8> {
    seq![85u8, 78u8, 76u8, 79u8, 67u8, 75u8]
}

/// The name `PROPFIND`.
pub open spec fn name_propfind() -> Seq<u8> {
    seq![80u8, 82u8, 79u8, 80u8, 70u8, 73u8, 78u8, 68u8]
}

/// The name `PROPPATCH`.
pub open spec fn name_proppatch() -> Seq<u8> {
    seq![80u8, 82u8, 79u8, 80u8, 80u8, 65u8, 84u8, 67u8, 72u8]
}

/// Whether a lock reaches down: as the header says; without the header it
/// does.
pub open spec fn deep_of(depth: Option<Seq<u8>>) -> Option<bool> {
    match depth {
        Some(raw) => depth_spec(raw),
        None => Some(true),
    }
}

/// The seconds that a lock is asked for: as the header says; without the
/// header the lock does not end.
pub open spec fn seconds_of(timeout: Option<Seq<u8>>) -> Option<Option<u64>> {
    match timeout {
        Some(raw) => timeout_spec(raw),
        None => Some(None),
    }
}

/// The destination of a copy or a move; a request without one, or with one
/// that cannot be read, is a bad request.
pub open spec fn transfer_method(destination: Option<Seq<u8>>, rename: bool) -> Result<
    MethodModel,
    Status,
> {
    match destination {
        Some(raw) => match destination_spec(raw) {
            Some(p) => Ok(
                if rename {
                    MethodModel::Move(p)
                } else {
                    MethodModel::Copy(p)
                },
            ),
            None => Err(Status::BadRequest),
        },
        None => Err(Status::BadRequest),
    }
}

/// What a LOCK request asks for. With a scope in its body it asks for a new
/// lock; without one it asks to renew the lock whose token its conditions
/// name first. Headers that cannot be read, and a renewal that names no
/// token, make a bad request.
pub open spec fn lock_method(
    h: HeadersModel,
    conditions: Seq<Seq<ConditionModel>>,
    lock_scope: Option<bool>,
    now: u64,
) -> Result<MethodModel, Status> {
    match (deep_of(h.depth), seconds_of(h.timeout)) {
        (Some(deep), Some(seconds)) => match lock_scope {
            Some(shared) => Ok(
                MethodModel::Lock { deep, shared, deadline: deadline_spec(now, seconds) },
            ),
            None => if carried(conditions).len() > 0 {
                Ok(
                    MethodModel::Refresh {
                        token: carried(conditions)[0],
                        deadline: deadline_spec(now, seconds),
                    },
                )
            } else {
                Err(Status::BadRequest)
            },
        },
        _ => Err(Status::BadRequest),
    }
}

/// The method of a request with the given name. A name that the engine
/// does not know is answered as not allowed.
pub open spec fn method_spec(
    name: Seq<u8>,
    h: HeadersModel,
    conditions: Seq<Seq<ConditionModel>>,
    lock_scope: Option<bool>,
    now: u64,
) -> Result<MethodModel, Status> {
    if name == name_options() {
        Ok(MethodModel::Options)
    } else if name == name_get() {
        Ok(MethodModel::Get)
    } else if name == name_head() {
        Ok(MethodModel::Head)
    } else if name == name_put() {
        Ok(MethodModel::Put)
    } else if name == name_delete() {
        Ok(MethodModel::Delete)
    } else if name == name_mkcol() {
        Ok(MethodModel::MkCol)
    } else if name == name_copy() {
        transfer_method(h.destination, false)
    } else if name == name_move() {
        transfer_method(h.destination, true)
    } else if name == name_lock() {
        lock_method(h, conditions, lock_scope, now)
    } else if name == name_unlock() {
        match h.lock_token {
            Some(raw) => match parse_coded_spec(raw) {
                Some(t) => Ok(MethodModel::Unlock(t)),
                None => Err(Status::BadRequest),
            },
            None => Err(Status::BadRequest),
        }
    } else if name == name_propfind() {
        Ok(MethodModel::PropFind)
    } else if name == name_proppatch() {
        Ok(MethodModel::PropPatch)
    } else {
        Err(Status::MethodNotAllowed)
    }
}

/// The request that a method name, a target and headers make up, or the
/// status that answers them where they make up none. The target is read
/// first, then the conditions, then what belongs to the method; what cannot
/// be read makes a bad request.
pub open spec fn request_spec(
    name: Seq<u8>,
    target: Seq<u8>,
    h: HeadersModel,
    lock_scope: Option<bool>,
    now: u64,
) -> Result<RequestModel, Status> {
    match parse_spec(target) {
        Err(_) => Err(Status::BadRequest),
        Ok(path) => match conditions_spec(h.if_match, h.if_none_match, h.if_header) {
            None => Err(Status::BadRequest),
            Some(conditions) => match method_spec(name, h, conditions, lock_scope, now) {
                Err(s) => Err(s),
                Ok(method) => Ok(RequestModel { method, path, conditions }),
            },
        },
    }
}

/// A target that denotes no path makes a bad request, whatever else the
/// request holds.
pub proof fn lemma_malformed_target(
    name: Seq<u8>,
    target: Seq<u8>,
    h: HeadersModel,
    lock_scope: Option<bool>,
    now: u64,
)
    requires
        parse_spec(target) is Err,
    ensures
        request_spec(name, target, h, lock_scope, now) == Err::<RequestModel, Status>(
            Status::BadRequest,
        ),
{
}

fn as_raw(value: &Option<Vec<u8>>) -> (r: Option<&[u8]>)
    ensures
        raw_view(r) == bytes_view(*value),
{
    match value {
        Some(v) => Some(v.as_slice()),
        None => None,
    }
}

fn bad_request<T>() -> (r: Result<T, Response>)
    ensures
        r matches Err(answer) && answer@ == plain(Status::BadRequest),
{
    Err(Response::plain(Status::BadRequest))
}

fn transfer(destination: &Option<Vec<u8>>, rename: bool) -> (r: Result<Method, Response>)
    ensures
        match r {
            Ok(m) => transfer_method(bytes_view(*destination), rename) == Ok::<MethodModel, Status>(
                m@,
            ),
            Err(answer) => transfer_method(bytes_view(*destination), rename) matches Err(s)
                && answer@ == plain(s),
        },
{
    match destination {
        Some(raw) => match parse_destination(raw.as_slice()) {
            Some(p) => Ok(
                if rename {
                    Method::Move(p)
                } else {
                    Method::Copy(p)
                },
            ),
            None => bad_request(),
        },
        None => bad_request(),
    }
}

fn lock(h: &Headers, conditions: &ConditionSet, lock_scope: Option<bool>, now: u64) -> (r: Result<
    Method,
    Response,
>)
    ensures
        match r {
            Ok(m) => lock_method(h@, conditions@, lock_scope, now) == Ok::<MethodModel, Status>(m@),
            Err(answer) => lock_method(h@, conditions@, lock_scope, now) matches Err(s)
                && answer@ == plain(s),
        },
{
    let deep = match &h.depth {
        Some(raw) => parse_depth(raw.as_slice()),
        None => Some(true),
    };
    let seconds = match &h.timeout {
        Some(raw) => parse_timeout(raw.as_slice()),
        None => Some(None),
    };
    match (deep, seconds) {
        (Some(deep), Some(seconds)) => {
            let deadline = deadline_after(now, seconds);
            match lock_scope {
                Some(shared) => Ok(Method::Lock { deep, shared, deadline }),
                None => {
                    let tokens = carried_tokens(conditions);
                    if tokens.len() > 0 {
                        Ok(Method::Refresh { token: tokens[0], deadline })
                    } else {
                        bad_request()
                    }
                },
            }
        },
        _ => bad_request(),
    }
}

fn is_name(name: &[u8], text: &[u8]) -> (b: bool)
    ensures
        b == (name@ == text@),
{
    bytes_eq(name, text)
}

/// Reads a request. `name` is the name of the method, `target` the path of
/// the request target, `lock_scope` what the body of a LOCK request says of
/// the scope of the lock (whether it is shared), and `now` the second at
/// which the request arrived.
pub fn build_request(
    name: &[u8],
    target: &[u8],
    headers: &Headers,
    lock_scope: Option<bool>,
    now: u64,
) -> (r: Result<Request, Response>)
    ensures
        match r {
            Ok(req) => request_spec(name@, target@, headers@, lock_scope, now) == Ok::<
                RequestModel,
                Status,
            >(req@),
            Err(answer) => request_spec(name@, target@, headers@, lock_scope, now) matches Err(s)
                && answer@ == plain(s),
        },
{
    let path = match DavPath::parse(target) {
        Ok(p) => p,
        Err(_) => {
            return bad_request();
        },
    };
    let conditions = match read_conditions_of(
        as_raw(&headers.if_match),
        as_raw(&headers.if_none_match),
        as_raw(&headers.if_header),
    ) {
        Some(c) => c,
        None => {
            return bad_request();
        },
    };
    let options: [u8; 7] = [79, 80, 84, 73, 79, 78, 83];
    let get: [u8; 3] = [71, 69, 84];
    let head: [u8; 4] = [72, 69, 65, 68];
    let put: [u8; 3] = [80, 85, 84];
    let delete: [u8; 6] = [68, 69, 76, 69, 84, 69];
    let mkcol: [u8; 5] = [77, 75, 67, 79, 76];
    let copy: [u8; 4] = [67, 79, 80, 89];
    let mv: [u8; 4] = [77, 79, 86, 69];
    let lock_name: [u8; 4] = [76, 79, 67, 75];
    let unlock: [u8; 6] = [85, 78, 76, 79, 67, 75];
    let propfind: [u8; 8] = [80, 82, 79, 80, 70, 73, 78, 68];
    let proppatch: [u8; 9] = [80, 82, 79, 80, 80, 65, 84, 67, 72];
    proof {
        assert(options@ =~= name_options());
        assert(get@ =~= name_get());
        assert(head@ =~= name_head());
        assert(put@ =~= name_put());
        assert(delete@ =~= name_delete());
        assert(mkcol@ =~= name_mkcol());
        assert(copy@ =~= name_copy());
        assert(mv@ =~= name_move());
        assert(lock_name@ =~= name_lock());
        assert(unlock@ =~= name_unlock());
        assert(propfind@ =~= name_propfind());
        assert(proppatch@ =~= name_proppatch());
    }
    let method = if is_name(name, options.as_slice()) {
        Method::Options
    } else if is_name(name, get.as_slice()) {
        Method::Get
    } else if is_name(name, head.as_slice()) {
        Method::Head
    } else if is_name(name, put.as_slice()) {
        Method::Put
    } else if is_name(name, delete.as_slice()) {
        Method::Delete
    } else if is_name(name, mkcol.as_slice()) {
        Method::MkCol
    } else if is_name(name, copy.as_slice()) {
        match transfer(&headers.destination, false) {
            Ok(m) => m,
            Err(answer) => {
                return Err(answer);
            },
        }
    } else if is_name(name, mv.as_slice()) {
        match transfer(&headers.destination, true) {
            Ok(m) => m,
            Err(answer) => {
                return Err(answer);
            },
        }
    } else if is_name(name, lock_name.as_slice()) {
        match lock(headers, &conditions, lock_scope, now) {
            Ok(m) => m,
            Err(answer) => {
                return Err(answer);
            },
        }
    } else if is_name(name, unlock.as_slice()) {
        match &headers.lock_token {
            Some(raw) => match LockToken::parse_coded(raw.as_slice()) {
                Some(t) => Method::Unlock(t),
                None => {
                    return bad_request();
                },
            },
            None => {
                return bad_request();
            },
        }
    } else if is_name(name, propfind.as_slice()) {
        Method::PropFind
    } else if is_name(name, proppatch.as_slice()) {
        Method::PropPatch
    } else {
        return Err(Response::plain(Status::MethodNotAllowed));
    };
    Ok(Request { method, path, conditions })
}

} // verus!
