//! The conditions that a request carries, and whether they hold.
use vstd::prelude::*;
use vstd::utf8::encode_utf8;

use crate::davpath::{bytes_eq, DavPath};
use crate::fs::{etag_of, DavMetaData, Metadata};
use crate::ls::{bound, DavLockSystem, LockModel, LockToken};

verus! {

/// One assertion about the state of a node.
#[derive(Debug, PartialEq, Eq)]
pub enum Assertion {
    /// The node exists.
    Exists,
    /// The node does not exist.
    Absent,
    /// The node exists and has this entity tag.
    ETagIs(Vec<u8>),
    /// The node exists and does not have this entity tag.
    ETagIsNot(Vec<u8>),
    /// A lock with this token stands and protects the node.
    Token(LockToken),
    /// No lock with this token stands and protects the node.
    NoToken(LockToken),
}

/// An assertion about the request target, or about the node of `resource`
/// where that is given.
#[derive(Debug, PartialEq, Eq)]
pub struct Condition {
    pub resource: Option<DavPath>,
    pub assertion: Assertion,
}

/// Conditions that must all hold.
#[derive(Debug, PartialEq, Eq)]
pub struct Conjunction {
    pub conditions: Vec<Condition>,
}

/// The conditions of a request: alternatives, one of which must hold.
#[derive(Debug, PartialEq, Eq)]
pub struct ConditionSet {
    pub alternatives: Vec<Conjunction>,
}

/// What is known of a node when the conditions are evaluated.
#[derive(Debug, PartialEq, Eq)]
pub struct Resource {
    pub path: DavPath,
    pub meta: Option<Metadata>,
}

/// Why a request may not proceed.
#[derive(Debug, Clone, Copy, PartialEq, Eq, Structural)]
pub enum Failure {
    PreconditionFailed,
    NotModified,
}

/// What the evaluation of the conditions comes to.
#[derive(Debug, PartialEq, Eq)]
pub enum Outcome {
    /// The request proceeds and carries these lock tokens.
    Proceed(Vec<LockToken>),
    /// The request ends here.
    Fail(Failure),
}

/// An assertion as the contracts see it.
pub enum AssertionModel {
    Exists,
    Absent,
    ETagIs(Seq<u8>),
    ETagIsNot(Seq<u8>),
    Token(LockToken),
    NoToken(LockToken),
}

/// A condition as the contracts see it: the segments of the path it is
/// about, if it names one, and its assertion.
pub struct ConditionModel {
    pub resource: Option<Seq<Seq<u8>>>,
    pub assertion: AssertionModel,
}

/// The state of a node: whether it exists, whether it is a collection, and
/// the bytes of its entity tag if it has one.
pub struct NodeState {
    pub exists: bool,
    pub collection: bool,
    pub etag: Option<Seq<u8>>,
}

/// What is known of a node, as the contracts see it.
pub struct ResourceModel {
    pub path: Seq<Seq<u8>>,
    pub state: NodeState,
}

/// An outcome as the contracts see it.
pub enum OutcomeModel {
    Proceed(Seq<LockToken>),
    Fail(Failure),
}

/// The state of a node that does not exist.
pub open spec fn no_node() -> NodeState {
    NodeState { exists: false, collection: false, etag: None }
}

impl View for Assertion {
    type V = AssertionModel;

    open spec fn view(&self) -> AssertionModel {
        match self {
            Assertion::Exists => AssertionModel::Exists,
            Assertion::Absent => AssertionModel::Absent,
            Assertion::ETagIs(t) => AssertionModel::ETagIs(t@),
            Assertion::ETagIsNot(t) => AssertionModel::ETagIsNot(t@),
            Assertion::Token(k) => AssertionModel::Token(*k),
            Assertion::NoToken(k) => AssertionModel::NoToken(*k),
        }
    }
}

impl View for Condition {
    type V = ConditionModel;

    open spec fn view(&self) -> ConditionModel {
        ConditionModel {
            resource: match self.resource {
                Some(p) => Some(p@.segments),
                None => None,
            },
            assertion: self.assertion@,
        }
    }
}

/// The models of a vector of conditions.
pub open spec fn conditions_view(v: Seq<Condition>) -> Seq<ConditionModel> {
    Seq::new(v.len(), |i: int| v[i]@)
}

impl View for Conjunction {
    type V = Seq<ConditionModel>;

    open spec fn view(&self) -> Seq<ConditionModel> {
        conditions_view(self.conditions@)
    }
}

/// The models of a vector of conjunctions.
pub open spec fn alternatives_view(v: Seq<Conjunction>) -> Seq<Seq<ConditionModel>> {
    Seq::new(v.len(), |i: int| v[i]@)
}

impl View for ConditionSet {
    type V = Seq<Seq<ConditionModel>>;

    open spec fn view(&self) -> Seq<Seq<ConditionModel>> {
        alternatives_view(self.alternatives@)
    }
}

/// The bytes of the entity tag of a node with the given metadata.
pub open spec fn etag_bytes(m: Metadata) -> Option<Seq<u8>> {
    match etag_of(m.is_dir, m.len, m.modified) {
        Some(text) => Some(encode_utf8(text)),
        None => None,
    }
}

/// The state of a node with the given metadata; without metadata the node
/// does not exist.
pub open spec fn node_of(meta: Option<Metadata>) -> NodeState {
    match meta {
        Some(m) => NodeState { exists: true, collection: m.is_dir, etag: etag_bytes(m) },
        None => no_node(),
    }
}

impl View for Resource {
    type V = ResourceModel;

    open spec fn view(&self) -> ResourceModel {
        ResourceModel { path: self.path@.segments, state: node_of(self.meta) }
    }
}

/// The models of a vector of resources.
pub open spec fn resources_view(v: Seq<Resource>) -> Seq<ResourceModel> {
    Seq::new(v.len(), |i: int| v[i]@)
}

impl View for Outcome {
    type V = OutcomeModel;

    open spec fn view(&self) -> OutcomeModel {
        match self {
            Outcome::Proceed(t) => OutcomeModel::Proceed(t@),
            Outcome::Fail(f) => OutcomeModel::Fail(*f),
        }
    }
}

/// The locks that a registry holds; none where there is no registry.
pub open spec fn locks_of<L: DavLockSystem>(ls: Option<&L>) -> Seq<LockModel> {
    match ls {
        Some(l) => l.state().locks,
        None => Seq::empty(),
    }
}

/// What is known of the node at `path`: the state that the first resource
/// with that path gives; a node of which nothing is known does not exist.
pub open spec fn state_of(facts: Seq<ResourceModel>, path: Seq<Seq<u8>>) -> NodeState
    decreases facts.len(),
{
    if facts.len() == 0 {
        no_node()
    } else if facts[0].path == path {
        facts[0].state
    } else {
        state_of(facts.skip(1), path)
    }
}

/// Whether an assertion speaks of what a node is not.
pub open spec fn is_no_match(a: AssertionModel) -> bool {
    a is Absent || a is ETagIsNot
}

/// Whether an assertion holds of a node in the given state, on the path
/// `scope`, under the given locks. Of a node that does not exist only
/// `Absent` holds among the assertions on its state.
pub open spec fn holds(
    a: AssertionModel,
    node: NodeState,
    locks: Seq<LockModel>,
    scope: Seq<Seq<u8>>,
) -> bool {
    match a {
        AssertionModel::Exists => node.exists,
        AssertionModel::Absent => !node.exists,
        AssertionModel::ETagIs(t) => node.exists && node.etag == Some(t),
        AssertionModel::ETagIsNot(t) => node.exists && node.etag != Some(t),
        AssertionModel::Token(k) => bound(locks, k, scope),
        AssertionModel::NoToken(k) => !bound(locks, k, scope),
    }
}

/// The path that a condition speaks of.
pub open spec fn scope_of(c: ConditionModel, target: Seq<Seq<u8>>) -> Seq<Seq<u8>> {
    match c.resource {
        Some(p) => p,
        None => target,
    }
}

/// Whether a condition holds, given what is known of the nodes.
pub open spec fn met(
    c: ConditionModel,
    facts: Seq<ResourceModel>,
    locks: Seq<LockModel>,
    target: Seq<Seq<u8>>,
) -> bool {
    holds(c.assertion, state_of(facts, scope_of(c, target)), locks, scope_of(c, target))
}

/// Whether every condition of the conjunction holds.
pub open spec fn satisfied(
    c: Seq<ConditionModel>,
    facts: Seq<ResourceModel>,
    locks: Seq<LockModel>,
    target: Seq<Seq<u8>>,
) -> bool {
    forall|i: int| 0 <= i < c.len() ==> met(#[trigger] c[i], facts, locks, target)
}

/// Whether the conjunction holds as far as it speaks of what a node is: only
/// assertions of what a node is not may fail.
pub open spec fn matched(
    c: Seq<ConditionModel>,
    facts: Seq<ResourceModel>,
    locks: Seq<LockModel>,
    target: Seq<Seq<u8>>,
) -> bool {
    forall|i: int|
        0 <= i < c.len() ==> is_no_match((#[trigger] c[i]).assertion) || met(
            c[i],
            facts,
            locks,
            target,
        )
}

/// The lock tokens that the conditions name, in their order.
pub open spec fn tokens_of(c: Seq<ConditionModel>) -> Seq<LockToken>
    decreases c.len(),
{
    if c.len() == 0 {
        Seq::empty()
    } else {
        match c.last().assertion {
            AssertionModel::Token(k) => tokens_of(c.drop_last()).push(k),
            AssertionModel::NoToken(k) => tokens_of(c.drop_last()).push(k),
            _ => tokens_of(c.drop_last()),
        }
    }
}

/// The lock tokens that the alternatives name, in their order.
pub open spec fn carried(alternatives: Seq<Seq<ConditionModel>>) -> Seq<LockToken>
    decreases alternatives.len(),
{
    if alternatives.len() == 0 {
        Seq::empty()
    } else {
        carried(alternatives.drop_last()) + tokens_of(alternatives.last())
    }
}

/// What the conditions come to. Without conditions the request proceeds and
/// carries nothing. With conditions it proceeds if one alternative is
/// satisfied, and then carries every token that the conditions name. If none
/// is satisfied the request fails: as not modified, if it only retrieves and
/// some alternative fails in nothing but what a node is not; otherwise as a
/// failed precondition.
pub open spec fn evaluate_spec(
    alternatives: Seq<Seq<ConditionModel>>,
    facts: Seq<ResourceModel>,
    locks: Seq<LockModel>,
    target: Seq<Seq<u8>>,
    retrieval: bool,
) -> OutcomeModel {
    if alternatives.len() == 0 {
        OutcomeModel::Proceed(Seq::empty())
    } else if exists|i: int|
        0 <= i < alternatives.len() && satisfied(#[trigger] alternatives[i], facts, locks, target) {
        OutcomeModel::Proceed(carried(alternatives))
    } else if retrieval && exists|i: int|
        0 <= i < alternatives.len() && matched(#[trigger] alternatives[i], facts, locks, target) {
        OutcomeModel::Fail(Failure::NotModified)
    } else {
        OutcomeModel::Fail(Failure::PreconditionFailed)
    }
}

/// The condition that the target has the entity tag `tag`.
pub open spec fn etag_condition(tag: Seq<u8>) -> ConditionModel {
    ConditionModel { resource: None, assertion: AssertionModel::ETagIs(tag) }
}

/// The condition that a lock with the token `token` protects the target.
pub open spec fn token_condition(token: LockToken) -> ConditionModel {
    ConditionModel { resource: None, assertion: AssertionModel::Token(token) }
}

/// A request whose only condition asks for an entity tag that the target
/// does not have fails its precondition, whether it retrieves or not.
pub proof fn lemma_etag_mismatch_fails(
    facts: Seq<ResourceModel>,
    locks: Seq<LockModel>,
    target: Seq<Seq<u8>>,
    retrieval: bool,
    tag: Seq<u8>,
)
    requires
        state_of(facts, target).etag != Some(tag),
    ensures
        evaluate_spec(seq![seq![etag_condition(tag)]], facts, locks, target, retrieval)
            == OutcomeModel::Fail(Failure::PreconditionFailed),
{
    let c = seq![etag_condition(tag)];
    let alternatives = seq![c];
    assert(c[0] == etag_condition(tag));
    assert(!met(c[0], facts, locks, target));
    assert(!is_no_match(c[0].assertion));
    assert forall|i: int| 0 <= i < alternatives.len() implies !satisfied(
        #[trigger] alternatives[i],
        facts,
        locks,
        target,
    ) && !matched(alternatives[i], facts, locks, target) by {
        assert(alternatives[i] == c);
    }
}

/// Conditions of which every alternative asks for something that does not
/// hold of what a node is never let a request proceed, and never end it as
/// not modified.
pub proof fn lemma_unmatched_fails(
    alternatives: Seq<Seq<ConditionModel>>,
    facts: Seq<ResourceModel>,
    locks: Seq<LockModel>,
    target: Seq<Seq<u8>>,
    retrieval: bool,
)
    requires
        alternatives.len() > 0,
        forall|i: int|
            0 <= i < alternatives.len() ==> !matched(#[trigger] alternatives[i], facts, locks, target),
    ensures
        evaluate_spec(alternatives, facts, locks, target, retrieval) == OutcomeModel::Fail(
            Failure::PreconditionFailed,
        ),
{
    assert forall|i: int| 0 <= i < alternatives.len() implies !satisfied(
        #[trigger] alternatives[i],
        facts,
        locks,
        target,
    ) by {
        let c = alternatives[i];
        assert(!matched(c, facts, locks, target));
        let j = choose|j: int|
            0 <= j < c.len() && !(is_no_match((#[trigger] c[j]).assertion) || met(
                c[j],
                facts,
                locks,
                target,
            ));
        assert(!met(c[j], facts, locks, target));
    }
}

/// The metadata that the first resource with the path `path` gives.
pub fn find_meta(facts: &Vec<Resource>, path: &DavPath) -> (meta: Option<Metadata>)
    ensures
        node_of(meta) == state_of(resources_view(facts@), path@.segments),
{
    let n = facts.len();
    let mut i: usize = 0;
    let ghost all = resources_view(facts@);
    proof {
        assert(all.skip(0) =~= all);
    }
    while i < n
        invariant
            i <= n,
            n == facts.len(),
            all == resources_view(facts@),
            state_of(all, path@.segments) == state_of(all.skip(i as int), path@.segments),
        decreases n - i,
    {
        proof {
            assert(all.skip(i as int)[0] == facts@[i as int]@);
            assert(all.skip(i as int).skip(1) =~= all.skip(i + 1));
        }
        if facts[i].path.same_node(path) {
            return facts[i].meta;
        }
        i += 1;
    }
    None
}

/// Whether the node with the given metadata has the entity tag `tag`.
fn has_etag(m: &Metadata, tag: &Vec<u8>) -> (b: bool)
    ensures
        b == (etag_bytes(*m) == Some(tag@)),
{
    match m.etag() {
        Some(e) => bytes_eq(e.as_str().as_bytes(), tag.as_slice()),
        None => false,
    }
}

/// Whether the assertion holds of a node with the given metadata.
pub fn assertion_holds<L: DavLockSystem>(
    a: &Assertion,
    meta: Option<Metadata>,
    ls: Option<&L>,
    scope: &DavPath,
) -> (b: bool)
    ensures
        b == holds(a@, node_of(meta), locks_of(ls), scope@.segments),
{
    match a {
        Assertion::Exists => meta.is_some(),
        Assertion::Absent => meta.is_none(),
        Assertion::ETagIs(t) => match meta {
            Some(m) => has_etag(&m, t),
            None => false,
        },
        Assertion::ETagIsNot(t) => match meta {
            Some(m) => !has_etag(&m, t),
            None => false,
        },
        Assertion::Token(k) => match ls {
            Some(l) => l.holds(scope, *k),
            None => {
                assert(!bound(Seq::<LockModel>::empty(), *k, scope@.segments));
                false
            },
        },
        Assertion::NoToken(k) => match ls {
            Some(l) => !l.holds(scope, *k),
            None => {
                assert(!bound(Seq::<LockModel>::empty(), *k, scope@.segments));
                true
            },
        },
    }
}

/// Whether the condition holds, given what is known of the nodes.
pub fn condition_met<L: DavLockSystem>(
    c: &Condition,
    facts: &Vec<Resource>,
    ls: Option<&L>,
    target: &DavPath,
) -> (b: bool)
    ensures
        b == met(c@, resources_view(facts@), locks_of(ls), target@.segments),
{
    let scope = match &c.resource {
        Some(p) => p,
        None => target,
    };
    let meta = find_meta(facts, scope);
    assertion_holds(&c.assertion, meta, ls, scope)
}

/// Judges one alternative: whether it is satisfied, and whether it holds as
/// far as it speaks of what a node is.
pub fn judge<L: DavLockSystem>(
    c: &Conjunction,
    facts: &Vec<Resource>,
    ls: Option<&L>,
    target: &DavPath,
) -> (r: (bool, bool))
    ensures
        r.0 == satisfied(c@, resources_view(facts@), locks_of(ls), target@.segments),
        r.1 == matched(c@, resources_view(facts@), locks_of(ls), target@.segments),
{
    let ghost f = resources_view(facts@);
    let ghost locks = locks_of(ls);
    let ghost t = target@.segments;
    let ghost model = c@;
    let n = c.conditions.len();
    let mut i: usize = 0;
    let mut full = true;
    let mut part = true;
    while i < n
        invariant
            i <= n,
            n == c.conditions.len(),
            model == c@,
            f == resources_view(facts@),
            locks == locks_of(ls),
            t == target@.segments,
            full == forall|k: int| 0 <= k < i ==> met(#[trigger] model[k], f, locks, t),
            part == forall|k: int|
                0 <= k < i ==> is_no_match((#[trigger] model[k]).assertion) || met(
                    model[k],
                    f,
                    locks,
                    t,
                ),
        decreases n - i,
    {
        assert(model[i as int] == c.conditions@[i as int]@);
        let ok = condition_met(&c.conditions[i], facts, ls, target);
        if !ok {
            full = false;
            let soft = match &c.conditions[i].assertion {
                Assertion::Absent => true,
                Assertion::ETagIsNot(_) => true,
                _ => false,
            };
            if !soft {
                part = false;
            }
        }
        i += 1;
    }
    (full, part)
}

/// The lock tokens that the conditions name, in their order.
pub fn carried_tokens(set: &ConditionSet) -> (tokens: Vec<LockToken>)
    ensures
        tokens@ == carried(set@),
{
    let mut tokens: Vec<LockToken> = Vec::new();
    let n = set.alternatives.len();
    let mut i: usize = 0;
    let ghost alts = set@;
    proof {
        assert(alts.take(0) =~= Seq::<Seq<ConditionModel>>::empty());
    }
    while i < n
        invariant
            i <= n,
            n == set.alternatives.len(),
            alts == set@,
            tokens@ == carried(alts.take(i as int)),
        decreases n - i,
    {
        let c = &set.alternatives[i];
        let m = c.conditions.len();
        let mut j: usize = 0;
        let ghost list = alts[i as int];
        let ghost before = tokens@;
        proof {
            assert(list == conditions_view(c.conditions@));
            assert(list.take(0) =~= Seq::<ConditionModel>::empty());
            assert(before + Seq::<LockToken>::empty() =~= before);
        }
        while j < m
            invariant
                j <= m,
                m == c.conditions.len(),
                list == conditions_view(c.conditions@),
                tokens@ == before + tokens_of(list.take(j as int)),
            decreases m - j,
        {
            proof {
                let next = list.take(j + 1);
                assert(next.drop_last() =~= list.take(j as int));
                assert(next.last() == c.conditions@[j as int]@);
            }
            match &c.conditions[j].assertion {
                Assertion::Token(k) => {
                    tokens.push(*k);
                    proof {
                        assert(tokens@ =~= before + tokens_of(list.take(j + 1)));
                    }
                },
                Assertion::NoToken(k) => {
                    tokens.push(*k);
                    proof {
                        assert(tokens@ =~= before + tokens_of(list.take(j + 1)));
                    }
                },
                _ => {},
            }
            j += 1;
        }
        proof {
            assert(list.take(m as int) =~= list);
            let next = alts.take(i + 1);
            assert(next.drop_last() =~= alts.take(i as int));
            assert(next.last() == alts[i as int]);
        }
        i += 1;
    }
    proof {
        assert(alts.take(n as int) =~= alts);
    }
    tokens
}

/// Evaluates the conditions of a request on `target`. `facts` holds what is
/// known of the target and of every other node that the conditions speak
/// of; `ls` is the lock registry, if there is one; `retrieval` says whether
/// the request only retrieves.
pub fn evaluate<L: DavLockSystem>(
    set: &ConditionSet,
    facts: &Vec<Resource>,
    ls: Option<&L>,
    target: &DavPath,
    retrieval: bool,
) -> (out: Outcome)
    ensures
        out@ == evaluate_spec(
            set@,
            resources_view(facts@),
            locks_of(ls),
            target@.segments,
            retrieval,
        ),
{
    let n = set.alternatives.len();
    if n == 0 {
        return Outcome::Proceed(Vec::new());
    }
    let ghost alts = set@;
    let ghost f = resources_view(facts@);
    let ghost locks = locks_of(ls);
    let ghost t = target@.segments;
    let mut i: usize = 0;
    let mut soft = false;
    while i < n
        invariant
            i <= n,
            n == set.alternatives.len(),
            alts == set@,
            f == resources_view(facts@),
            locks == locks_of(ls),
            t == target@.segments,
            forall|k: int| 0 <= k < i ==> !satisfied(#[trigger] alts[k], f, locks, t),
            soft == exists|k: int| 0 <= k < i && matched(#[trigger] alts[k], f, locks, t),
        decreases n - i,
    {
        assert(alts[i as int] == set.alternatives@[i as int]@);
        let (full, part) = judge(&set.alternatives[i], facts, ls, target);
        if full {
            return Outcome::Proceed(carried_tokens(set));
        }
        if part {
            soft = true;
        }
        i += 1;
    }
    if retrieval && soft {
        Outcome::Fail(Failure::NotModified)
    } else {
        Outcome::Fail(Failure::PreconditionFailed)
    }
}

} // verus!
