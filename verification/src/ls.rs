//! The lock registry: which locks stand on which paths, which requests they
//! let pass, and how they are taken, renewed and released.
use vstd::prelude::*;

use crate::davpath::{is_at_or_below, DavPath};

verus! {

/// The token of a lock: an opaque identifier that the registry hands out
/// and that proves the right to change what the lock protects.
#[derive(Debug, Clone, Copy, PartialEq, Eq, Hash, Structural)]
pub struct LockToken {
    pub id: u64,
}

/// Why a lock was not granted.
#[derive(Debug, Clone, Copy, PartialEq, Eq, Structural)]
pub enum LockFault {
    /// A lock that stands already does not tolerate the new one.
    Conflict,
    /// The registry has no token left to hand out.
    Exhausted,
}

/// Why a lock was not released.
#[derive(Debug, Clone, Copy, PartialEq, Eq, Structural)]
pub enum UnlockFault {
    /// No lock has the token.
    NotFound,
    /// The lock with the token stands on another path.
    Forbidden,
}

/// A lock as the contracts see it.
pub struct LockModel {
    pub token: LockToken,
    /// The segments of the path that the lock stands on.
    pub path: Seq<Seq<u8>>,
    /// Whether the lock reaches the whole tree below its path.
    pub deep: bool,
    /// Whether the lock tolerates other shared locks.
    pub shared: bool,
    /// The second at which the lock ends, if it ends at all.
    pub deadline: Option<u64>,
}

/// The state of a registry as the contracts see it.
pub struct LockState {
    /// The locks that stand, oldest first.
    pub locks: Seq<LockModel>,
    /// The identifier of the next token.
    pub next: u64,
}

/// Whether the lock protects the node at `path`: it stands there, or it is
/// deep and stands above.
pub open spec fn covers(l: LockModel, path: Seq<Seq<u8>>) -> bool {
    l.path == path || (l.deep && is_at_or_below(l.path, path))
}

/// Whether two locks protect a node in common.
pub open spec fn overlap(a: LockModel, b: LockModel) -> bool {
    covers(a, b.path) || covers(b, a.path)
}

/// Whether two locks can stand together: they protect no node in common, or
/// both are shared.
pub open spec fn compatible(a: LockModel, b: LockModel) -> bool {
    overlap(a, b) ==> a.shared && b.shared
}

/// The invariant of a registry: no token is used twice, every token was
/// handed out before `next`, and any two locks can stand together.
pub open spec fn state_wf(s: LockState) -> bool {
    &&& forall|i: int, j: int|
        #![trigger s.locks[i], s.locks[j]]
        0 <= i < j < s.locks.len() ==> s.locks[i].token != s.locks[j].token && compatible(
            s.locks[i],
            s.locks[j],
        )
    &&& forall|i: int| 0 <= i < s.locks.len() ==> (#[trigger] s.locks[i]).token.id < s.next
}

/// Whether a lock with the token `token` stands and protects the node at
/// `path`.
pub open spec fn bound(locks: Seq<LockModel>, token: LockToken, path: Seq<Seq<u8>>) -> bool {
    exists|k: int|
        0 <= k < locks.len() && (#[trigger] locks[k]).token == token && covers(locks[k], path)
}

/// The lock protects the node and the request does not present its token.
pub open spec fn blocks_at(l: LockModel, path: Seq<Seq<u8>>, tokens: Seq<LockToken>) -> bool {
    covers(l, path) && !tokens.contains(l.token)
}

/// The lock protects the node and the request presents its token.
pub open spec fn holds_at(l: LockModel, path: Seq<Seq<u8>>, tokens: Seq<LockToken>) -> bool {
    covers(l, path) && tokens.contains(l.token)
}

/// The lock alone refuses the request: its token is not presented, and it
/// is an exclusive lock that protects the node, or the request reaches below
/// the node and the lock stands at or below it.
pub open spec fn refuses(
    l: LockModel,
    path: Seq<Seq<u8>>,
    deep: bool,
    tokens: Seq<LockToken>,
) -> bool {
    !tokens.contains(l.token) && ((covers(l, path) && !l.shared) || (deep && is_at_or_below(
        path,
        l.path,
    )))
}

/// Whether the locks let a request that presents `tokens` change the node
/// at `path` and, if `deep`, the tree below it. No lock may refuse it; and
/// if a shared lock protects the node without its token being presented,
/// the request must hold some other lock that protects the node.
pub open spec fn permits(
    locks: Seq<LockModel>,
    path: Seq<Seq<u8>>,
    deep: bool,
    tokens: Seq<LockToken>,
) -> bool {
    &&& forall|k: int| 0 <= k < locks.len() ==> !refuses(#[trigger] locks[k], path, deep, tokens)
    &&& {
        ||| exists|k: int| 0 <= k < locks.len() && holds_at(#[trigger] locks[k], path, tokens)
        ||| forall|k: int| 0 <= k < locks.len() ==> !blocks_at(#[trigger] locks[k], path, tokens)
    }
}

/// Whether the lock stops the request: by refusing it, if `hard`; otherwise
/// by protecting the node without its token being presented.
pub open spec fn stops(
    l: LockModel,
    path: Seq<Seq<u8>>,
    deep: bool,
    tokens: Seq<LockToken>,
    hard: bool,
) -> bool {
    if hard {
        refuses(l, path, deep, tokens)
    } else {
        blocks_at(l, path, tokens)
    }
}

/// The index of the first lock that stops the request, or the number of
/// locks if none does.
pub open spec fn first_stop(
    locks: Seq<LockModel>,
    path: Seq<Seq<u8>>,
    deep: bool,
    tokens: Seq<LockToken>,
    hard: bool,
) -> int
    decreases locks.len(),
{
    if locks.len() == 0 || stops(locks[0], path, deep, tokens, hard) {
        0
    } else {
        1 + first_stop(locks.skip(1), path, deep, tokens, hard)
    }
}

/// The lock that stands in the way of a request, if one does: the oldest
/// lock that refuses it; or, where none refuses it and it holds no lock
/// that protects the node, the oldest lock that protects the node without
/// its token being presented.
pub open spec fn blocking(
    locks: Seq<LockModel>,
    path: Seq<Seq<u8>>,
    deep: bool,
    tokens: Seq<LockToken>,
) -> Option<LockModel> {
    let r = first_stop(locks, path, deep, tokens, true);
    let b = first_stop(locks, path, deep, tokens, false);
    if 0 <= r < locks.len() {
        Some(locks[r])
    } else if exists|k: int| 0 <= k < locks.len() && holds_at(#[trigger] locks[k], path, tokens) {
        None
    } else if 0 <= b < locks.len() {
        Some(locks[b])
    } else {
        None
    }
}

/// The lock that a grant would add to `s`.
pub open spec fn candidate(
    s: LockState,
    path: Seq<Seq<u8>>,
    deep: bool,
    shared: bool,
    deadline: Option<u64>,
) -> LockModel {
    LockModel { token: LockToken { id: s.next }, path, deep, shared, deadline }
}

/// What a request for a lock comes to: the lock is refused if one that stands
/// cannot stand together with it, or if no token is left; otherwise it is
/// added behind the others under the next token.
pub open spec fn lock_spec(
    s: LockState,
    path: Seq<Seq<u8>>,
    deep: bool,
    shared: bool,
    deadline: Option<u64>,
) -> (Result<LockModel, LockFault>, LockState) {
    let c = candidate(s, path, deep, shared, deadline);
    if exists|k: int| 0 <= k < s.locks.len() && !compatible(#[trigger] s.locks[k], c) {
        (Err(LockFault::Conflict), s)
    } else if s.next == u64::MAX {
        (Err(LockFault::Exhausted), s)
    } else {
        (Ok(c), LockState { locks: s.locks.push(c), next: (s.next + 1) as u64 })
    }
}

/// The index of the first lock with the token `token`, or the number of
/// locks if none has it.
pub open spec fn find_lock(locks: Seq<LockModel>, token: LockToken) -> int
    decreases locks.len(),
{
    if locks.len() == 0 || locks[0].token == token {
        0
    } else {
        1 + find_lock(locks.skip(1), token)
    }
}

/// What a release comes to: it is refused if no lock has the token, or if
/// the lock with the token stands on another path; otherwise that lock is
/// taken away and the others stay.
pub open spec fn unlock_spec(s: LockState, path: Seq<Seq<u8>>, token: LockToken) -> (
    Result<(), UnlockFault>,
    LockState,
) {
    let k = find_lock(s.locks, token);
    if k < 0 || k >= s.locks.len() {
        (Err(UnlockFault::NotFound), s)
    } else if s.locks[k].path != path {
        (Err(UnlockFault::Forbidden), s)
    } else {
        (Ok(()), LockState { locks: s.locks.remove(k), next: s.next })
    }
}

/// What a renewal comes to: the lock with the token gets the new deadline
/// and is returned; without such a lock nothing changes.
pub open spec fn refresh_spec(s: LockState, token: LockToken, deadline: Option<u64>) -> (
    Option<LockModel>,
    LockState,
) {
    let k = find_lock(s.locks, token);
    if k < 0 || k >= s.locks.len() {
        (None, s)
    } else {
        let l = LockModel { deadline, ..s.locks[k] };
        (Some(l), LockState { locks: s.locks.update(k, l), next: s.next })
    }
}

/// Whether the lock has ended at the second `now`.
pub open spec fn expired(l: LockModel, now: u64) -> bool {
    l.deadline matches Some(d) && d <= now
}

/// The models of a vector of locks.
pub open spec fn locks_view(v: Seq<DavLock>) -> Seq<LockModel> {
    Seq::new(v.len(), |i: int| v[i]@)
}

/// Two paths above one node lie on one line: one is above the other.
pub proof fn lemma_prefixes_comparable(a: Seq<Seq<u8>>, b: Seq<Seq<u8>>, d: Seq<Seq<u8>>)
    requires
        is_at_or_below(a, d),
        is_at_or_below(b, d),
    ensures
        is_at_or_below(a, b) || is_at_or_below(b, a),
{
    if a.len() <= b.len() {
        assert(b.take(a.len() as int) =~= d.take(b.len() as int).take(a.len() as int));
        assert(d.take(b.len() as int).take(a.len() as int) =~= d.take(a.len() as int));
    } else {
        assert(a.take(b.len() as int) =~= d.take(a.len() as int).take(b.len() as int));
        assert(d.take(a.len() as int).take(b.len() as int) =~= d.take(b.len() as int));
    }
}

/// What lies below a node lies below everything above that node.
pub proof fn lemma_below_transitive(a: Seq<Seq<u8>>, b: Seq<Seq<u8>>, c: Seq<Seq<u8>>)
    requires
        is_at_or_below(a, b),
        is_at_or_below(b, c),
    ensures
        is_at_or_below(a, c),
{
    assert(c.take(a.len() as int) =~= c.take(b.len() as int).take(a.len() as int));
}

/// An exclusive lock that reaches down refuses every request on a node at or
/// below its path that does not present its token.
pub proof fn lemma_exclusive_lock_refuses(
    locks: Seq<LockModel>,
    k: int,
    path: Seq<Seq<u8>>,
    deep: bool,
    tokens: Seq<LockToken>,
)
    requires
        0 <= k < locks.len(),
        !locks[k].shared,
        locks[k].deep,
        is_at_or_below(locks[k].path, path),
        !tokens.contains(locks[k].token),
    ensures
        !permits(locks, path, deep, tokens),
{
    assert(refuses(locks[k], path, deep, tokens));
}

/// In a registry, a request on a node at or below the path of an exclusive
/// lock that reaches down passes as soon as it presents the token of that
/// lock.
pub proof fn lemma_exclusive_holder_passes(
    s: LockState,
    k: int,
    path: Seq<Seq<u8>>,
    deep: bool,
    tokens: Seq<LockToken>,
)
    requires
        state_wf(s),
        0 <= k < s.locks.len(),
        !s.locks[k].shared,
        s.locks[k].deep,
        is_at_or_below(s.locks[k].path, path),
        tokens.contains(s.locks[k].token),
    ensures
        permits(s.locks, path, deep, tokens),
{
    let own = s.locks[k];
    assert(holds_at(own, path, tokens));
    assert forall|j: int| 0 <= j < s.locks.len() implies !refuses(
        #[trigger] s.locks[j],
        path,
        deep,
        tokens,
    ) by {
        let other = s.locks[j];
        if j != k && (covers(other, path) || is_at_or_below(path, other.path)) {
            if is_at_or_below(path, other.path) {
                lemma_below_transitive(own.path, path, other.path);
            } else if other.path == path {
            } else {
                lemma_prefixes_comparable(own.path, other.path, path);
            }
            assert(overlap(own, other));
            assert(overlap(other, own));
            if j < k {
                assert(compatible(s.locks[j], s.locks[k]));
            } else {
                assert(compatible(s.locks[k], s.locks[j]));
            }
        }
    }
}

/// Where `first_stop` points: within the locks, at a lock that stops the
/// request unless there is none, and behind no such lock.
pub proof fn lemma_first_stop(
    locks: Seq<LockModel>,
    path: Seq<Seq<u8>>,
    deep: bool,
    tokens: Seq<LockToken>,
    hard: bool,
)
    ensures
        0 <= first_stop(locks, path, deep, tokens, hard) <= locks.len(),
        forall|k: int|
            0 <= k < first_stop(locks, path, deep, tokens, hard) ==> !stops(
                #[trigger] locks[k],
                path,
                deep,
                tokens,
                hard,
            ),
        first_stop(locks, path, deep, tokens, hard) < locks.len() ==> stops(
            locks[first_stop(locks, path, deep, tokens, hard)],
            path,
            deep,
            tokens,
            hard,
        ),
    decreases locks.len(),
{
    if locks.len() == 0 || stops(locks[0], path, deep, tokens, hard) {
    } else {
        let t = locks.skip(1);
        lemma_first_stop(t, path, deep, tokens, hard);
        let f = first_stop(locks, path, deep, tokens, hard);
        assert forall|k: int| 0 <= k < f implies !stops(
            #[trigger] locks[k],
            path,
            deep,
            tokens,
            hard,
        ) by {
            if k > 0 {
                assert(locks[k] == t[k - 1]);
            }
        }
        if f < locks.len() {
            assert(locks[f] == t[f - 1]);
        }
    }
}

/// The first lock that stops a request is where `first_stop` points.
pub proof fn lemma_first_stop_is(
    locks: Seq<LockModel>,
    path: Seq<Seq<u8>>,
    deep: bool,
    tokens: Seq<LockToken>,
    hard: bool,
    j: int,
)
    requires
        0 <= j <= locks.len(),
        forall|k: int| 0 <= k < j ==> !stops(#[trigger] locks[k], path, deep, tokens, hard),
        j < locks.len() ==> stops(locks[j], path, deep, tokens, hard),
    ensures
        first_stop(locks, path, deep, tokens, hard) == j,
{
    lemma_first_stop(locks, path, deep, tokens, hard);
    let f = first_stop(locks, path, deep, tokens, hard);
    if f < j {
        assert(!stops(locks[f], path, deep, tokens, hard));
    } else if f > j {
        assert(!stops(locks[j], path, deep, tokens, hard));
    }
}

/// The locks let a request pass exactly if no lock stands in its way.
pub proof fn lemma_blocking_iff_refused(
    locks: Seq<LockModel>,
    path: Seq<Seq<u8>>,
    deep: bool,
    tokens: Seq<LockToken>,
)
    ensures
        permits(locks, path, deep, tokens) <==> blocking(locks, path, deep, tokens) is None,
        blocking(locks, path, deep, tokens) matches Some(l) ==> locks.contains(l)
            && !tokens.contains(l.token) && (covers(l, path) || (deep && is_at_or_below(
            path,
            l.path,
        ))),
{
    lemma_first_stop(locks, path, deep, tokens, true);
    lemma_first_stop(locks, path, deep, tokens, false);
    let r = first_stop(locks, path, deep, tokens, true);
    let b = first_stop(locks, path, deep, tokens, false);
    if r < locks.len() {
        assert(refuses(locks[r], path, deep, tokens));
    } else {
        assert forall|k: int| 0 <= k < locks.len() implies !refuses(
            #[trigger] locks[k],
            path,
            deep,
            tokens,
        ) by {
            assert(!stops(locks[k], path, deep, tokens, true));
        }
        if b < locks.len() {
            assert(blocks_at(locks[b], path, tokens));
        } else {
            assert forall|k: int| 0 <= k < locks.len() implies !blocks_at(
                #[trigger] locks[k],
                path,
                tokens,
            ) by {
                assert(!stops(locks[k], path, deep, tokens, false));
            }
        }
    }
}

/// Where `find_lock` points.
pub proof fn lemma_find_lock(locks: Seq<LockModel>, token: LockToken)
    ensures
        0 <= find_lock(locks, token) <= locks.len(),
        forall|k: int| 0 <= k < find_lock(locks, token) ==> (#[trigger] locks[k]).token != token,
        find_lock(locks, token) < locks.len() ==> locks[find_lock(locks, token)].token == token,
    decreases locks.len(),
{
    if locks.len() == 0 || locks[0].token == token {
    } else {
        let t = locks.skip(1);
        lemma_find_lock(t, token);
        assert forall|k: int| 0 <= k < find_lock(locks, token) implies (#[trigger] locks[k]).token
            != token by {
            if k > 0 {
                assert(locks[k] == t[k - 1]);
            }
        }
        if find_lock(locks, token) < locks.len() {
            assert(locks[find_lock(locks, token)] == t[find_lock(t, token)]);
        }
    }
}

/// The first lock with a token is where `find_lock` points.
pub proof fn lemma_find_lock_is(locks: Seq<LockModel>, token: LockToken, j: int)
    requires
        0 <= j <= locks.len(),
        forall|k: int| 0 <= k < j ==> (#[trigger] locks[k]).token != token,
        j < locks.len() ==> locks[j].token == token,
    ensures
        find_lock(locks, token) == j,
{
    lemma_find_lock(locks, token);
    let f = find_lock(locks, token);
    if f < j {
        assert(locks[f].token != token);
    } else if f > j {
        assert(locks[j].token != token);
    }
}

/// In a registry every lock is found by its token.
pub proof fn lemma_find_own_lock(s: LockState, k: int)
    requires
        state_wf(s),
        0 <= k < s.locks.len(),
    ensures
        find_lock(s.locks, s.locks[k].token) == k,
{
    assert forall|j: int| 0 <= j < k implies (#[trigger] s.locks[j]).token != s.locks[k].token by {
        assert(s.locks[j].token != s.locks[k].token && compatible(s.locks[j], s.locks[k]));
    }
    lemma_find_lock_is(s.locks, s.locks[k].token, k);
}

/// A release that names a lock of another path is refused and changes
/// nothing: the lock stands as before, so that every request is judged as
/// before.
pub proof fn lemma_foreign_unlock_forbidden(s: LockState, k: int, path: Seq<Seq<u8>>)
    requires
        state_wf(s),
        0 <= k < s.locks.len(),
        s.locks[k].path != path,
    ensures
        unlock_spec(s, path, s.locks[k].token) == (
            Err::<(), UnlockFault>(UnlockFault::Forbidden),
            s,
        ),
{
    lemma_find_own_lock(s, k);
}

/// A lock that is released by its own path and token is gone, the others
/// stay, and the invariant holds on.
pub proof fn lemma_unlock_removes(s: LockState, k: int)
    requires
        state_wf(s),
        0 <= k < s.locks.len(),
    ensures
        unlock_spec(s, s.locks[k].path, s.locks[k].token) == (
            Ok::<(), UnlockFault>(()),
            LockState { locks: s.locks.remove(k), next: s.next },
        ),
        state_wf(LockState { locks: s.locks.remove(k), next: s.next }),
        forall|j: int|
            0 <= j < s.locks.remove(k).len() ==> (#[trigger] s.locks.remove(k)[j]).token
                != s.locks[k].token,
{
    lemma_find_own_lock(s, k);
    lemma_remove_keeps_wf(s, k);
    let t = s.locks.remove(k);
    assert forall|j: int| 0 <= j < t.len() implies (#[trigger] t[j]).token != s.locks[k].token by {
        if j < k {
            assert(t[j] == s.locks[j]);
            assert(s.locks[j].token != s.locks[k].token && compatible(s.locks[j], s.locks[k]));
        } else {
            assert(t[j] == s.locks[j + 1]);
            assert(s.locks[k].token != s.locks[j + 1].token && compatible(
                s.locks[k],
                s.locks[j + 1],
            ));
        }
    }
}

/// Every release and every renewal keeps the invariant.
pub proof fn lemma_unlock_refresh_keep_wf(
    s: LockState,
    path: Seq<Seq<u8>>,
    token: LockToken,
    deadline: Option<u64>,
)
    requires
        state_wf(s),
    ensures
        state_wf(unlock_spec(s, path, token).1),
        state_wf(refresh_spec(s, token, deadline).1),
{
    lemma_find_lock(s.locks, token);
    let k = find_lock(s.locks, token);
    if k < s.locks.len() {
        lemma_remove_keeps_wf(s, k);
        lemma_update_keeps_wf(s, k, deadline);
    }
}

/// A replaced deadline keeps the invariant.
pub proof fn lemma_update_keeps_wf(s: LockState, k: int, deadline: Option<u64>)
    requires
        state_wf(s),
        0 <= k < s.locks.len(),
    ensures
        state_wf(
            LockState {
                locks: s.locks.update(k, LockModel { deadline, ..s.locks[k] }),
                next: s.next,
            },
        ),
{
    let t = s.locks.update(k, LockModel { deadline, ..s.locks[k] });
    assert forall|i: int, j: int| #![trigger t[i], t[j]] 0 <= i < j < t.len() implies t[i].token
        != t[j].token && compatible(t[i], t[j]) by {
        assert(s.locks[i].token != s.locks[j].token && compatible(s.locks[i], s.locks[j]));
    }
    assert forall|i: int| 0 <= i < t.len() implies (#[trigger] t[i]).token.id < s.next by {
        assert(s.locks[i].token.id < s.next);
    }
}

/// Taking a lock away keeps the invariant.
pub proof fn lemma_remove_keeps_wf(s: LockState, k: int)
    requires
        state_wf(s),
        0 <= k < s.locks.len(),
    ensures
        state_wf(LockState { locks: s.locks.remove(k), next: s.next }),
{
    let t = s.locks.remove(k);
    assert forall|i: int, j: int| #![trigger t[i], t[j]] 0 <= i < j < t.len() implies t[i].token
        != t[j].token && compatible(t[i], t[j]) by {
        let a = if i < k {
            i
        } else {
            i + 1
        };
        let b = if j < k {
            j
        } else {
            j + 1
        };
        assert(t[i] == s.locks[a]);
        assert(t[j] == s.locks[b]);
        assert(s.locks[a].token != s.locks[b].token && compatible(s.locks[a], s.locks[b]));
    }
    assert forall|i: int| 0 <= i < t.len() implies (#[trigger] t[i]).token.id < s.next by {
        let a = if i < k {
            i
        } else {
            i + 1
        };
        assert(t[i] == s.locks[a]);
    }
}

/// A granted lock keeps the invariant, carries a token that no lock had, and
/// leaves the locks that stood untouched.
pub proof fn lemma_lock_keeps_wf(
    s: LockState,
    path: Seq<Seq<u8>>,
    deep: bool,
    shared: bool,
    deadline: Option<u64>,
)
    requires
        state_wf(s),
    ensures
        state_wf(lock_spec(s, path, deep, shared, deadline).1),
        lock_spec(s, path, deep, shared, deadline).0 matches Ok(l) ==> {
            &&& forall|k: int| 0 <= k < s.locks.len() ==> (#[trigger] s.locks[k]).token != l.token
            &&& lock_spec(s, path, deep, shared, deadline).1.locks.last() == l
            &&& lock_spec(s, path, deep, shared, deadline).1.locks.drop_last() == s.locks
        },
{
    let c = candidate(s, path, deep, shared, deadline);
    let out = lock_spec(s, path, deep, shared, deadline);
    if out.0 is Ok {
        let t = out.1.locks;
        assert(t == s.locks.push(c));
        assert(t.drop_last() =~= s.locks);
        assert forall|i: int, j: int| #![trigger t[i], t[j]] 0 <= i < j < t.len() implies t[i].token
            != t[j].token && compatible(t[i], t[j]) by {
            if j < s.locks.len() {
                assert(t[i] == s.locks[i]);
                assert(t[j] == s.locks[j]);
                assert(s.locks[i].token != s.locks[j].token && compatible(
                    s.locks[i],
                    s.locks[j],
                ));
            } else {
                assert(t[i] == s.locks[i]);
                assert(t[j] == c);
                assert(compatible(s.locks[i], c));
            }
        }
        assert forall|i: int| 0 <= i < t.len() implies (#[trigger] t[i]).token.id < out.1.next by {
            if i < s.locks.len() {
                assert(t[i] == s.locks[i]);
            }
        }
    }
}

/// A lock that stands.
#[derive(Debug, PartialEq, Eq)]
pub struct DavLock {
    pub token: LockToken,
    pub path: DavPath,
    pub deep: bool,
    pub shared: bool,
    pub deadline: Option<u64>,
}

impl View for DavLock {
    type V = LockModel;

    open spec fn view(&self) -> LockModel {
        LockModel {
            token: self.token,
            path: self.path@.segments,
            deep: self.deep,
            shared: self.shared,
            deadline: self.deadline,
        }
    }
}

impl Clone for DavLock {
    fn clone(&self) -> (r: DavLock)
        ensures
            r@ == self@,
            r.path@ == self.path@,
    {
        DavLock {
            token: self.token,
            path: self.path.clone(),
            deep: self.deep,
            shared: self.shared,
            deadline: self.deadline,
        }
    }
}

impl DavLock {
    /// Whether the lock protects the node at `path`.
    pub fn covers(&self, path: &DavPath) -> (b: bool)
        ensures
            b == covers(self@, path@.segments),
    {
        self.path.same_node(path) || (self.deep && self.path.is_ancestor_of(path))
    }

    /// Whether the lock has ended at the second `now`.
    pub fn is_expired(&self, now: u64) -> (b: bool)
        ensures
            b == expired(self@, now),
    {
        match self.deadline {
            Some(d) => d <= now,
            None => false,
        }
    }
}

/// What a judgement returns, as the contracts see it: the lock that stands
/// in the way, if one does.
pub open spec fn refusal_view(r: Result<(), DavLock>) -> Option<LockModel> {
    match r {
        Ok(()) => None,
        Err(l) => Some(l@),
    }
}

/// What a grant returns, as the contracts see it.
pub open spec fn grant_view(r: Result<DavLock, LockFault>) -> Result<LockModel, LockFault> {
    match r {
        Ok(l) => Ok(l@),
        Err(e) => Err(e),
    }
}

/// What a renewal returns, as the contracts see it.
pub open spec fn renewal_view(r: Option<DavLock>) -> Option<LockModel> {
    match r {
        Some(l) => Some(l@),
        None => None,
    }
}

/// A lock registry, as the engine uses it. Whatever keeps the locks, it
/// judges, grants, releases and renews as the functions above say.
pub trait DavLockSystem {
    /// The locks that stand, and the next token.
    spec fn state(&self) -> LockState;

    /// Judges a request that presents `tokens` and would change the node at
    /// `path` and, if `deep`, the tree below it. A refusal names the lock
    /// that stands in the way.
    fn check(&self, path: &DavPath, deep: bool, tokens: &Vec<LockToken>) -> (r: Result<(), DavLock>)
        ensures
            refusal_view(r) == blocking(self.state().locks, path@.segments, deep, tokens@),
    ;

    /// Whether a lock with the token `token` protects the node at `path`.
    fn holds(&self, path: &DavPath, token: LockToken) -> (b: bool)
        ensures
            b == bound(self.state().locks, token, path@.segments),
    ;

    /// Asks for a lock on `path`. The lock is granted unless a lock that
    /// stands cannot stand together with it.
    fn lock(&mut self, path: &DavPath, deep: bool, shared: bool, deadline: Option<u64>) -> (r:
        Result<DavLock, LockFault>)
        ensures
            grant_view(r) == lock_spec(old(self).state(), path@.segments, deep, shared, deadline).0,
            final(self).state() == lock_spec(
                old(self).state(),
                path@.segments,
                deep,
                shared,
                deadline,
            ).1,
            r matches Ok(l) ==> l.path@ == path@,
    ;

    /// Releases the lock with the token `token`, which must stand on `path`.
    fn unlock(&mut self, path: &DavPath, token: LockToken) -> (r: Result<(), UnlockFault>)
        ensures
            (r, final(self).state()) == unlock_spec(old(self).state(), path@.segments, token),
    ;

    /// Gives the lock with the token `token` a new deadline.
    fn refresh(&mut self, token: LockToken, deadline: Option<u64>) -> (r: Option<DavLock>)
        ensures
            (renewal_view(r), final(self).state()) == refresh_spec(
                old(self).state(),
                token,
                deadline,
            ),
    ;
}

/// Whether `tokens` holds `token`.
pub fn has_token(tokens: &Vec<LockToken>, token: LockToken) -> (b: bool)
    ensures
        b == tokens@.contains(token),
{
    let n = tokens.len();
    let mut i: usize = 0;
    while i < n
        invariant
            i <= n,
            n == tokens.len(),
            forall|k: int| 0 <= k < i ==> tokens@[k] != token,
        decreases n - i,
    {
        if tokens[i].id == token.id {
            assert(tokens@[i as int] == token);
            return true;
        }
        i += 1;
    }
    false
}

} // verus!
