//! A lock registry that lives in memory.
use vstd::prelude::*;

use crate::davpath::DavPath;
use crate::ls::{
    candidate, compatible, covers, expired, has_token, holds_at, lemma_find_lock_is,
    lemma_first_stop_is, lemma_lock_keeps_wf, lemma_remove_keeps_wf, lemma_update_keeps_wf,
    locks_view, state_wf, stops, DavLock, DavLockSystem, LockFault, LockModel, LockState,
    LockToken, UnlockFault,
};

verus! {

/// The locks that have not ended at the second `now`, in their order.
pub open spec fn alive(locks: Seq<LockModel>, now: u64) -> Seq<LockModel> {
    locks.filter(|l: LockModel| !expired(l, now))
}

/// After the locks that have ended are taken away, no lock that stands has
/// ended, and every lock that stands stood before.
pub proof fn lemma_alive(locks: Seq<LockModel>, now: u64)
    ensures
        forall|k: int|
            0 <= k < alive(locks, now).len() ==> !expired(#[trigger] alive(locks, now)[k], now)
                && locks.contains(alive(locks, now)[k]),
        alive(locks, now).len() <= locks.len(),
    decreases locks.len(),
{
    reveal(Seq::filter);
    if locks.len() > 0 {
        let head = locks.drop_last();
        lemma_alive(head, now);
        assert forall|k: int| 0 <= k < alive(locks, now).len() implies !expired(
            #[trigger] alive(locks, now)[k],
            now,
        ) && locks.contains(alive(locks, now)[k]) by {
            if k < alive(head, now).len() {
                let l = alive(head, now)[k];
                assert(alive(locks, now)[k] == l);
                let j = choose|j: int| 0 <= j < head.len() && head[j] == l;
                assert(locks[j] == l);
            } else {
                assert(alive(locks, now)[k] == locks[locks.len() - 1]);
            }
        }
    }
}

proof fn lemma_alive_step(locks: Seq<LockModel>, c: int, now: u64)
    requires
        0 <= c < locks.len(),
    ensures
        alive(locks.take(c + 1), now) == if expired(locks[c], now) {
            alive(locks.take(c), now)
        } else {
            alive(locks.take(c), now).push(locks[c])
        },
{
    reveal(Seq::filter);
    let s = locks.take(c + 1);
    assert(s.drop_last() =~= locks.take(c));
    assert(s.last() == locks[c]);
}

/// The registry: the locks that stand, and the counter that tokens come from.
#[derive(Debug)]
pub struct MemLs {
    locks: Vec<DavLock>,
    next: u64,
}

impl View for MemLs {
    type V = LockState;

    closed spec fn view(&self) -> LockState {
        LockState { locks: locks_view(self.locks@), next: self.next }
    }
}

impl MemLs {
    #[verifier::type_invariant]
    spec fn inv(self) -> bool {
        state_wf(self@)
    }

    /// A registry without locks.
    pub fn new() -> (r: MemLs)
        ensures
            r@.locks.len() == 0,
            r@.next == 0,
            state_wf(r@),
    {
        let locks: Vec<DavLock> = Vec::new();
        MemLs { locks, next: 0 }
    }

    /// The number of locks that stand.
    pub fn len(&self) -> (n: usize)
        ensures
            n == self@.locks.len(),
    {
        self.locks.len()
    }

    /// The lock at `index`, oldest first.
    pub fn get(&self, index: usize) -> (l: &DavLock)
        requires
            index < self@.locks.len(),
        ensures
            l@ == self@.locks[index as int],
    {
        &self.locks[index]
    }

    /// Takes away the locks that have ended at the second `now`; the others
    /// stay in their order.
    pub fn expire(&mut self, now: u64)
        ensures
            final(self)@.locks == alive(old(self)@.locks, now),
            final(self)@.next == old(self)@.next,
            state_wf(final(self)@),
    {
        proof {
            use_type_invariant(&*self);
            reveal(Seq::filter);
        }
        let ghost pre = self@;
        let ghost mut seen: int = 0;
        let mut i: usize = 0;
        let mut locks: Vec<DavLock> = Vec::new();
        std::mem::swap(&mut locks, &mut self.locks);
        proof {
            assert(pre.locks.take(0) =~= Seq::<LockModel>::empty());
            assert(locks_view(locks@).take(0) =~= Seq::<LockModel>::empty());
            assert(locks_view(locks@).skip(0) =~= pre.locks.skip(0));
        }
        while i < locks.len()
            invariant
                i <= locks.len(),
                0 <= seen <= pre.locks.len(),
                state_wf(LockState { locks: locks_view(locks@), next: pre.next }),
                self.next == pre.next,
                locks_view(locks@).take(i as int) == alive(pre.locks.take(seen), now),
                locks_view(locks@).skip(i as int) == pre.locks.skip(seen),
            decreases locks.len() - i,
        {
            let ghost cur = locks_view(locks@);
            proof {
                assert(cur.len() == locks.len());
                assert(cur.skip(i as int).len() == cur.len() - i);
                assert(pre.locks.skip(seen).len() == pre.locks.len() - seen);
                assert(cur.skip(i as int)[0] == cur[i as int]);
                assert(pre.locks.skip(seen)[0] == pre.locks[seen]);
                assert(cur[i as int] == pre.locks[seen]);
                assert(cur[i as int] == locks@[i as int]@);
                lemma_alive_step(pre.locks, seen, now);
            }
            if locks[i].is_expired(now) {
                proof {
                    lemma_remove_keeps_wf(LockState { locks: cur, next: pre.next }, i as int);
                    assert(locks_view(locks@.remove(i as int)) =~= cur.remove(i as int));
                    assert(cur.remove(i as int).take(i as int) =~= cur.take(i as int));
                    assert(cur.remove(i as int).skip(i as int) =~= cur.skip(i as int).skip(1));
                    assert(pre.locks.skip(seen).skip(1) =~= pre.locks.skip(seen + 1));
                }
                let _ = locks.remove(i);
            } else {
                proof {
                    assert(cur.take(i + 1) =~= cur.take(i as int).push(cur[i as int]));
                    assert(cur.skip(i + 1) =~= cur.skip(i as int).skip(1));
                    assert(pre.locks.skip(seen).skip(1) =~= pre.locks.skip(seen + 1));
                }
                i += 1;
            }
            proof {
                seen = seen + 1;
            }
        }
        proof {
            let cur = locks_view(locks@);
            assert(cur.skip(i as int).len() == 0);
            assert(seen == pre.locks.len());
            assert(pre.locks.take(seen) =~= pre.locks);
            assert(cur.take(i as int) =~= cur);
        }
        self.locks = locks;
    }
}

impl DavLockSystem for MemLs {
    open spec fn state(&self) -> LockState {
        self@
    }

    /// Whether a lock with the token `token` protects the node at `path`.
    fn holds(&self, path: &DavPath, token: LockToken) -> (b: bool) {
        let n = self.locks.len();
        let mut i: usize = 0;
        while i < n
            invariant
                i <= n,
                n == self.locks.len(),
                forall|k: int|
                    0 <= k < i ==> !((#[trigger] self@.locks[k]).token == token && covers(
                        self@.locks[k],
                        path@.segments,
                    )),
            decreases n - i,
        {
            assert(self@.locks[i as int] == self.locks@[i as int]@);
            if self.locks[i].token.id == token.id && self.locks[i].covers(path) {
                return true;
            }
            i += 1;
        }
        false
    }

    /// Judges a request that presents `tokens` and would change the node at
    /// `path` and, if `deep`, the tree below it. A refusal names the lock
    /// that stands in the way.
    fn check(&self, path: &DavPath, deep: bool, tokens: &Vec<LockToken>) -> (r: Result<
        (),
        DavLock,
    >) {
        let n = self.locks.len();
        let mut i: usize = 0;
        let mut holds = false;
        let mut waiting: Option<usize> = None;
        let ghost locks = self@.locks;
        let ghost p = path@.segments;
        let ghost t = tokens@;
        while i < n
            invariant
                i <= n,
                n == self.locks.len(),
                n == locks.len(),
                locks == self@.locks,
                p == path@.segments,
                t == tokens@,
                forall|k: int| 0 <= k < i ==> !stops(#[trigger] locks[k], p, deep, t, true),
                holds == exists|k: int| 0 <= k < i && holds_at(#[trigger] locks[k], p, t),
                match waiting {
                    Some(j) => j < i && stops(locks[j as int], p, deep, t, false) && forall|k: int|
                        0 <= k < j ==> !stops(#[trigger] locks[k], p, deep, t, false),
                    None => forall|k: int|
                        0 <= k < i ==> !stops(#[trigger] locks[k], p, deep, t, false),
                },
            decreases n - i,
        {
            assert(locks[i as int] == self.locks@[i as int]@);
            let l = &self.locks[i];
            let held = has_token(tokens, l.token);
            let at = l.covers(path);
            let below = deep && path.is_ancestor_of(&l.path);
            if !held {
                if (at && !l.shared) || below {
                    proof {
                        assert(stops(locks[i as int], p, deep, t, true));
                        lemma_first_stop_is(locks, p, deep, t, true, i as int);
                    }
                    return Err(l.clone());
                }
                if at && waiting.is_none() {
                    assert(stops(locks[i as int], p, deep, t, false));
                    waiting = Some(i);
                }
            } else if at {
                assert(holds_at(locks[i as int], p, t));
                holds = true;
            }
            i += 1;
        }
        proof {
            lemma_first_stop_is(locks, p, deep, t, true, n as int);
        }
        match waiting {
            Some(j) => {
                proof {
                    lemma_first_stop_is(locks, p, deep, t, false, j as int);
                }
                if holds {
                    Ok(())
                } else {
                    assert(locks[j as int] == self.locks@[j as int]@);
                    Err(self.locks[j].clone())
                }
            },
            None => {
                proof {
                    lemma_first_stop_is(locks, p, deep, t, false, n as int);
                }
                Ok(())
            },
        }
    }

    /// Asks for a lock on `path`. The lock is granted unless a lock that
    /// stands cannot stand together with it.
    fn lock(&mut self, path: &DavPath, deep: bool, shared: bool, deadline: Option<u64>) -> (r:
        Result<DavLock, LockFault>) {
        proof {
            use_type_invariant(&*self);
            lemma_lock_keeps_wf(self@, path@.segments, deep, shared, deadline);
        }
        let ghost c = candidate(self@, path@.segments, deep, shared, deadline);
        let ghost pre = self@;
        let n = self.locks.len();
        let mut i: usize = 0;
        while i < n
            invariant
                i <= n,
                n == self.locks.len(),
                pre == self@,
                state_wf(pre),
                c == candidate(pre, path@.segments, deep, shared, deadline),
                forall|k: int| 0 <= k < i ==> compatible(#[trigger] pre.locks[k], c),
            decreases n - i,
        {
            assert(pre.locks[i as int] == self.locks@[i as int]@);
            let l = &self.locks[i];
            let reached = if deep {
                path.is_ancestor_of(&l.path)
            } else {
                path.same_node(&l.path)
            };
            if (l.covers(path) || reached) && !(l.shared && shared) {
                assert(!compatible(pre.locks[i as int], c));
                return Err(LockFault::Conflict);
            }
            i += 1;
        }
        if self.next == u64::MAX {
            return Err(LockFault::Exhausted);
        }
        let lock = DavLock {
            token: LockToken { id: self.next },
            path: path.clone(),
            deep,
            shared,
            deadline,
        };
        let granted = lock.clone();
        let mut locks: Vec<DavLock> = Vec::new();
        std::mem::swap(&mut locks, &mut self.locks);
        locks.push(lock);
        proof {
            assert(locks_view(locks@) =~= pre.locks.push(c));
        }
        self.next = self.next + 1;
        self.locks = locks;
        Ok(granted)
    }

    /// Releases the lock with the token `token`, which must stand on `path`.
    fn unlock(&mut self, path: &DavPath, token: LockToken) -> (r: Result<(), UnlockFault>) {
        proof {
            use_type_invariant(&*self);
        }
        let ghost pre = self@;
        let n = self.locks.len();
        let mut i: usize = 0;
        while i < n
            invariant
                i <= n,
                n == self.locks.len(),
                pre == self@,
                pre == old(self)@,
                state_wf(pre),
                forall|k: int| 0 <= k < i ==> (#[trigger] pre.locks[k]).token != token,
            decreases n - i,
        {
            assert(pre.locks[i as int] == self.locks@[i as int]@);
            if self.locks[i].token.id == token.id {
                assert(pre.locks[i as int].token == token);
                proof {
                    lemma_find_lock_is(pre.locks, token, i as int);
                }
                if !self.locks[i].path.same_node(path) {
                    assert(pre.locks[i as int].path != path@.segments);
                    return Err(UnlockFault::Forbidden);
                }
                assert(pre.locks[i as int].path == path@.segments);
                proof {
                    lemma_remove_keeps_wf(pre, i as int);
                    assert(locks_view(self.locks@.remove(i as int)) =~= pre.locks.remove(i as int));
                }
                let mut locks: Vec<DavLock> = Vec::new();
                std::mem::swap(&mut locks, &mut self.locks);
                let _ = locks.remove(i);
                self.locks = locks;
                proof {
                    assert(self@.locks == pre.locks.remove(i as int));
                    assert(self@ == (LockState {
                        locks: pre.locks.remove(i as int),
                        next: pre.next,
                    }));
                }
                return Ok(());
            }
            i += 1;
        }
        proof {
            lemma_find_lock_is(pre.locks, token, n as int);
        }
        Err(UnlockFault::NotFound)
    }

    /// Gives the lock with the token `token` a new deadline.
    fn refresh(&mut self, token: LockToken, deadline: Option<u64>) -> (r: Option<DavLock>) {
        proof {
            use_type_invariant(&*self);
        }
        let ghost pre = self@;
        let n = self.locks.len();
        let mut i: usize = 0;
        while i < n
            invariant
                i <= n,
                n == self.locks.len(),
                pre == self@,
                pre == old(self)@,
                state_wf(pre),
                forall|k: int| 0 <= k < i ==> (#[trigger] pre.locks[k]).token != token,
            decreases n - i,
        {
            assert(pre.locks[i as int] == self.locks@[i as int]@);
            if self.locks[i].token.id == token.id {
                assert(pre.locks[i as int].token == token);
                proof {
                    lemma_find_lock_is(pre.locks, token, i as int);
                }
                let mut renewed = self.locks[i].clone();
                renewed.deadline = deadline;
                let out = renewed.clone();
                assert(renewed@ == (LockModel { deadline, ..pre.locks[i as int] }));
                proof {
                    lemma_update_keeps_wf(pre, i as int, deadline);
                    assert(locks_view(self.locks@.update(i as int, renewed)) =~= pre.locks.update(
                        i as int,
                        renewed@,
                    ));
                }
                let mut locks: Vec<DavLock> = Vec::new();
                std::mem::swap(&mut locks, &mut self.locks);
                locks.set(i, renewed);
                self.locks = locks;
                proof {
                    assert(self@.locks == pre.locks.update(i as int, out@));
                    assert(self@ == (LockState {
                        locks: pre.locks.update(i as int, out@),
                        next: pre.next,
                    }));
                }
                return Some(out);
            }
            i += 1;
        }
        proof {
            lemma_find_lock_is(pre.locks, token, n as int);
        }
        None
    }
}

} // verus!
