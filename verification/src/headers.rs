//! The headers that carry conditions: lists of entity tags, and the lists
//! of conditions of WebDAV.
use vstd::prelude::*;
use vstd::slice::{slice_subrange, slice_to_vec};

use crate::conditional::{
    alternatives_view, conditions_view, etag_condition, Assertion, AssertionModel, Condition,
    ConditionModel, ConditionSet, Conjunction,
};
use crate::davpath::{bytes_eq, parse_spec, DavPath, PathModel};
use crate::ls::LockToken;
use crate::percent::opt_view;
use crate::token::parse_token_spec;

verus! {

/// The space.
pub const SPACE: u8 = 32;

/// The horizontal tab.
pub const TAB: u8 = 9;

/// The double quote.
pub const QUOTE: u8 = 34;

/// The comma.
pub const COMMA: u8 = 44;

/// The byte `*`.
pub const STAR: u8 = 42;

/// A list of entity tags as a header names it: any tag at all, or the tags
/// that are listed.
#[derive(Debug, PartialEq, Eq)]
pub enum TagList {
    Any,
    Tags(Vec<Vec<u8>>),
}

/// A list of entity tags as the contracts see it.
pub enum TagListModel {
    Any,
    Tags(Seq<Seq<u8>>),
}

/// The byte sequences of a vector of byte vectors.
pub open spec fn tags_view(v: Seq<Vec<u8>>) -> Seq<Seq<u8>> {
    Seq::new(v.len(), |i: int| v[i]@)
}

impl View for TagList {
    type V = TagListModel;

    open spec fn view(&self) -> TagListModel {
        match self {
            TagList::Any => TagListModel::Any,
            TagList::Tags(v) => TagListModel::Tags(tags_view(v@)),
        }
    }
}

/// What an optional list of tags holds.
pub open spec fn tag_list_view(r: Option<TagList>) -> Option<TagListModel> {
    match r {
        Some(l) => Some(l@),
        None => None,
    }
}

/// Whether the byte is white space between the parts of a header.
pub open spec fn is_ws(b: u8) -> bool {
    b == SPACE || b == TAB
}

/// The first position at or behind `pos` that holds no white space.
pub open spec fn skip_ws(s: Seq<u8>, pos: int) -> int
    decreases s.len() - pos,
{
    if 0 <= pos < s.len() && is_ws(s[pos]) {
        skip_ws(s, pos + 1)
    } else {
        pos
    }
}

/// The first position at or behind `pos` that holds the byte `b`; the
/// length of `s` if there is none.
pub open spec fn find(s: Seq<u8>, pos: int, b: u8) -> int
    decreases s.len() - pos,
{
    if 0 <= pos < s.len() && s[pos] != b {
        find(s, pos + 1, b)
    } else {
        pos
    }
}

/// Where the quoted part of an entity tag at `pos` begins: behind the mark
/// `W/` of a weak tag, if there is one.
pub open spec fn tag_open(s: Seq<u8>, pos: int) -> int {
    if 0 <= pos && pos + 1 < s.len() && s[pos] == 87 && s[pos + 1] == 47 {
        pos + 2
    } else {
        pos
    }
}

/// The entity tag at `pos`: what stands between two quotes, and the
/// position behind the second. A weak tag counts as the tag it holds.
pub open spec fn tag_at(s: Seq<u8>, pos: int) -> Option<(Seq<u8>, int)> {
    let q = tag_open(s, pos);
    if 0 <= q < s.len() && s[q] == QUOTE {
        let e = find(s, q + 1, QUOTE);
        if e < s.len() {
            Some((s.subrange(q + 1, e), e + 1))
        } else {
            None
        }
    } else {
        None
    }
}

/// `head` put in front of the tags that `tail` holds, if it holds any.
pub open spec fn with_tags(head: Seq<Seq<u8>>, tail: Option<Seq<Seq<u8>>>) -> Option<
    Seq<Seq<u8>>,
> {
    match tail {
        Some(t) => Some(head + t),
        None => None,
    }
}

/// The entity tags from `pos` on: one tag, then either nothing more, or a
/// comma and more tags; white space may stand around each tag.
pub open spec fn tags_from(s: Seq<u8>, pos: int) -> Option<Seq<Seq<u8>>>
    decreases s.len() - pos,
{
    if 0 <= pos < s.len() {
        match tag_at(s, skip_ws(s, pos)) {
            None => None,
            Some((tag, behind)) => {
                let next = skip_ws(s, behind);
                if next >= s.len() {
                    Some(seq![tag])
                } else if s[next] == COMMA {
                    proof {
                        lemma_skip_ws(s, pos);
                        lemma_tag_at(s, skip_ws(s, pos));
                        lemma_skip_ws(s, behind);
                    }
                    with_tags(seq![tag], tags_from(s, next + 1))
                } else {
                    None
                }
            },
        }
    } else {
        None
    }
}

/// The list of entity tags that a header value names: a lone `*`, or tags
/// with commas between them.
pub open spec fn parse_tags_spec(s: Seq<u8>) -> Option<TagListModel> {
    let first = skip_ws(s, 0);
    if first < s.len() && s[first] == STAR && skip_ws(s, first + 1) >= s.len() {
        Some(TagListModel::Any)
    } else {
        match tags_from(s, 0) {
            Some(tags) => Some(TagListModel::Tags(tags)),
            None => None,
        }
    }
}

/// The path of a URL: the URL itself if it begins with a separator;
/// otherwise what follows scheme and authority, or the root if nothing
/// follows them.
pub open spec fn url_path(url: Seq<u8>) -> Option<Seq<u8>> {
    if url.len() > 0 && url[0] == 47 {
        Some(url)
    } else {
        let colon = find(url, 0, 58);
        if 0 < colon && colon + 2 < url.len() && url[colon + 1] == 47 && url[colon + 2] == 47 {
            let slash = find(url, colon + 3, 47);
            if slash < url.len() {
                Some(url.skip(slash))
            } else {
                Some(seq![47u8])
            }
        } else {
            None
        }
    }
}

/// Where `skip_ws` points: at or behind `pos`, within the text, behind
/// nothing but white space, and at no white space.
pub proof fn lemma_skip_ws(s: Seq<u8>, pos: int)
    requires
        0 <= pos <= s.len(),
    ensures
        pos <= skip_ws(s, pos) <= s.len(),
        skip_ws(s, pos) < s.len() ==> !is_ws(s[skip_ws(s, pos)]),
        forall|k: int| pos <= k < skip_ws(s, pos) ==> is_ws(#[trigger] s[k]),
    decreases s.len() - pos,
{
    if pos < s.len() && is_ws(s[pos]) {
        lemma_skip_ws(s, pos + 1);
    }
}

/// Where `find` points: at or behind `pos`, within the text, at the byte
/// unless there is none, and behind no such byte.
pub proof fn lemma_find(s: Seq<u8>, pos: int, b: u8)
    requires
        0 <= pos <= s.len(),
    ensures
        pos <= find(s, pos, b) <= s.len(),
        find(s, pos, b) < s.len() ==> s[find(s, pos, b)] == b,
        forall|k: int| pos <= k < find(s, pos, b) ==> #[trigger] s[k] != b,
    decreases s.len() - pos,
{
    if pos < s.len() && s[pos] != b {
        lemma_find(s, pos + 1, b);
    }
}

/// An entity tag ends behind where it began, and within the text.
pub proof fn lemma_tag_at(s: Seq<u8>, pos: int)
    requires
        0 <= pos <= s.len(),
    ensures
        tag_at(s, pos) matches Some((tag, behind)) ==> pos + 2 <= behind <= s.len(),
{
    let q = tag_open(s, pos);
    if 0 <= q < s.len() && s[q] == QUOTE {
        lemma_find(s, q + 1, QUOTE);
    }
}

/// The first position at or behind `pos` that holds no white space.
pub fn skip_spaces(s: &[u8], pos: usize) -> (r: usize)
    requires
        pos <= s.len(),
    ensures
        r == skip_ws(s@, pos as int),
        pos <= r <= s.len(),
{
    let mut i: usize = pos;
    while i < s.len() && (s[i] == SPACE || s[i] == TAB)
        invariant
            pos <= i <= s.len(),
            skip_ws(s@, pos as int) == skip_ws(s@, i as int),
        decreases s.len() - i,
    {
        i += 1;
    }
    i
}

/// The first position at or behind `pos` that holds the byte `b`.
pub fn find_byte(s: &[u8], pos: usize, b: u8) -> (r: usize)
    requires
        pos <= s.len(),
    ensures
        r == find(s@, pos as int, b),
        pos <= r <= s.len(),
{
    let mut i: usize = pos;
    while i < s.len() && s[i] != b
        invariant
            pos <= i <= s.len(),
            find(s@, pos as int, b) == find(s@, i as int, b),
        decreases s.len() - i,
    {
        i += 1;
    }
    i
}

/// The entity tag at `pos` and the position behind it.
pub fn read_tag(s: &[u8], pos: usize) -> (r: Option<(Vec<u8>, usize)>)
    requires
        pos <= s.len(),
    ensures
        match r {
            Some((tag, behind)) => tag_at(s@, pos as int) == Some((tag@, behind as int))
                && pos < behind <= s.len(),
            None => tag_at(s@, pos as int) is None,
        },
{
    let n = s.len();
    let q = if n >= 2 && pos < n - 1 && s[pos] == 87 && s[pos + 1] == 47 {
        pos + 2
    } else {
        pos
    };
    if q < n && s[q] == QUOTE {
        let e = find_byte(s, q + 1, QUOTE);
        if e < n {
            Some((slice_to_vec(slice_subrange(s, q + 1, e)), e + 1))
        } else {
            None
        }
    } else {
        None
    }
}

/// The list of entity tags that the header value `s` names, if it names
/// one.
pub fn parse_tags(s: &[u8]) -> (r: Option<TagList>)
    ensures
        tag_list_view(r) == parse_tags_spec(s@),
{
    let n = s.len();
    let first = skip_spaces(s, 0);
    if first < n && s[first] == STAR && skip_spaces(s, first + 1) >= n {
        return Some(TagList::Any);
    }
    let mut tags: Vec<Vec<u8>> = Vec::new();
    let mut pos: usize = 0;
    proof {
        assert(tags_view(tags@) =~= Seq::<Seq<u8>>::empty());
        match tags_from(s@, 0) {
            Some(t) => {
                assert(Seq::<Seq<u8>>::empty() + t =~= t);
            },
            None => {},
        }
    }
    loop
        invariant
            pos <= n,
            n == s.len(),
            parse_tags_spec(s@) == match tags_from(s@, 0) {
                Some(t) => Some(TagListModel::Tags(t)),
                None => None,
            },
            tags_from(s@, 0) == with_tags(tags_view(tags@), tags_from(s@, pos as int)),
        decreases n - pos,
    {
        if pos >= n {
            return None;
        }
        let start = skip_spaces(s, pos);
        match read_tag(s, start) {
            None => {
                return None;
            },
            Some((tag, behind)) => {
                let next = skip_spaces(s, behind);
                let ghost before = tags_view(tags@);
                let ghost model = tag@;
                tags.push(tag);
                proof {
                    assert(tags_view(tags@) =~= before + seq![model]);
                }
                if next >= n {
                    return Some(TagList::Tags(tags));
                } else if s[next] == COMMA {
                    proof {
                        match tags_from(s@, next + 1) {
                            Some(t) => {
                                assert(before + (seq![model] + t) =~= (before + seq![model]) + t);
                            },
                            None => {},
                        }
                    }
                    pos = next + 1;
                } else {
                    return None;
                }
            },
        }
    }
}

/// The path of the URL `url`, if it has one.
pub fn path_of_url(url: &[u8]) -> (r: Option<Vec<u8>>)
    ensures
        opt_view(r) == url_path(url@),
{
    let n = url.len();
    if n > 0 && url[0] == 47 {
        return Some(slice_to_vec(url));
    }
    let colon = find_byte(url, 0, 58);
    if 0 < colon && n >= 3 && colon < n - 2 && url[colon + 1] == 47 && url[colon + 2] == 47 {
        let slash = find_byte(url, colon + 3, 47);
        if slash < n {
            proof {
                assert(url@.skip(slash as int) =~= url@.subrange(slash as int, n as int));
            }
            Some(slice_to_vec(slice_subrange(url, slash, n)))
        } else {
            let mut root: Vec<u8> = Vec::new();
            root.push(47);
            proof {
                assert(root@ =~= seq![47u8]);
            }
            Some(root)
        }
    } else {
        None
    }
}

/// Whether the word `Not` stands at `pos`.
pub open spec fn is_not(s: Seq<u8>, pos: int) -> bool {
    0 <= pos && pos + 2 < s.len() && s[pos] == 78 && s[pos + 1] == 111 && s[pos + 2] == 116
}

/// The assertion at `pos` and the position behind it: a lock token between
/// `<` and `>`, or an entity tag between `[` and `]`; the word `Not` in
/// front turns the assertion into its opposite.
pub open spec fn assertion_at(s: Seq<u8>, pos: int) -> Option<(AssertionModel, int)> {
    let negate = is_not(s, pos);
    let p = if negate {
        skip_ws(s, pos + 3)
    } else {
        pos
    };
    if 0 <= p < s.len() && s[p] == 60 {
        let e = find(s, p + 1, 62);
        if e < s.len() {
            match parse_token_spec(s.subrange(p + 1, e)) {
                Some(t) => Some(
                    (
                        if negate {
                            AssertionModel::NoToken(t)
                        } else {
                            AssertionModel::Token(t)
                        },
                        e + 1,
                    ),
                ),
                None => None,
            }
        } else {
            None
        }
    } else if 0 <= p < s.len() && s[p] == 91 {
        match tag_at(s, p + 1) {
            Some((tag, behind)) => if behind < s.len() && s[behind] == 93 {
                Some(
                    (
                        if negate {
                            AssertionModel::ETagIsNot(tag)
                        } else {
                            AssertionModel::ETagIs(tag)
                        },
                        behind + 1,
                    ),
                )
            } else {
                None
            },
            None => None,
        }
    } else {
        None
    }
}

/// `head` put in front of the conditions that `tail` holds, if it holds
/// any.
pub open spec fn with_conditions(
    head: Seq<ConditionModel>,
    tail: Option<(Seq<ConditionModel>, int)>,
) -> Option<(Seq<ConditionModel>, int)> {
    match tail {
        Some((rest, end)) => Some((head + rest, end)),
        None => None,
    }
}

/// The conditions of a list from `pos` on, each about the node of
/// `resource`, and the position behind the `)` that closes the list.
pub open spec fn conditions_from(s: Seq<u8>, pos: int, resource: Option<Seq<Seq<u8>>>) -> Option<
    (Seq<ConditionModel>, int),
>
    decreases s.len() - pos,
{
    if 0 <= pos < s.len() {
        let p = skip_ws(s, pos);
        if p < s.len() && s[p] == 41 {
            Some((Seq::empty(), p + 1))
        } else {
            match assertion_at(s, p) {
                None => None,
                Some((assertion, behind)) => {
                    proof {
                        lemma_skip_ws(s, pos);
                        lemma_assertion_at(s, p);
                    }
                    with_conditions(
                        seq![ConditionModel { resource, assertion }],
                        conditions_from(s, behind, resource),
                    )
                },
            }
        }
    } else {
        None
    }
}

/// The resource that the URL between the `<` at `pos` and the next `>`
/// names, and the position behind that `>`.
pub open spec fn resource_at(s: Seq<u8>, pos: int) -> Option<(PathModel, int)> {
    let e = find(s, pos + 1, 62);
    if 0 <= pos && e < s.len() {
        match url_path(s.subrange(pos + 1, e)) {
            Some(path) => match parse_spec(path) {
                Ok(p) => Some((p, e + 1)),
                Err(_) => None,
            },
            None => None,
        }
    } else {
        None
    }
}

/// `head` put in front of the lists that `tail` holds, if it holds any.
pub open spec fn with_lists(
    head: Seq<Seq<ConditionModel>>,
    tail: Option<Seq<Seq<ConditionModel>>>,
) -> Option<Seq<Seq<ConditionModel>>> {
    match tail {
        Some(t) => Some(head + t),
        None => None,
    }
}

/// The lists of conditions from `pos` on. A URL between `<` and `>` names
/// the resource that the lists behind it speak of; a list stands between
/// `(` and `)` and holds at least one condition.
pub open spec fn lists_from(s: Seq<u8>, pos: int, resource: Option<Seq<Seq<u8>>>) -> Option<
    Seq<Seq<ConditionModel>>,
>
    decreases s.len() - pos,
{
    let p = skip_ws(s, pos);
    if !(0 <= pos <= s.len()) {
        None
    } else if p >= s.len() {
        Some(Seq::empty())
    } else if s[p] == 60 {
        match resource_at(s, p) {
            Some((path, behind)) => {
                proof {
                    lemma_skip_ws(s, pos);
                    lemma_find(s, p + 1, 62);
                }
                lists_from(s, behind, Some(path.segments))
            },
            None => None,
        }
    } else if s[p] == 40 {
        match conditions_from(s, p + 1, resource) {
            Some((conditions, behind)) => if conditions.len() > 0 {
                proof {
                    lemma_skip_ws(s, pos);
                    lemma_conditions_from(s, p + 1, resource);
                }
                with_lists(seq![conditions], lists_from(s, behind, resource))
            } else {
                None
            },
            None => None,
        }
    } else {
        None
    }
}

/// The alternatives that the value of an `If` header names: at least one
/// list of conditions.
pub open spec fn parse_if_spec(s: Seq<u8>) -> Option<Seq<Seq<ConditionModel>>> {
    match lists_from(s, 0, None) {
        Some(lists) => if lists.len() > 0 {
            Some(lists)
        } else {
            None
        },
        None => None,
    }
}

/// The segments of the path that conditions speak of, if one is named.
pub open spec fn scope_view(resource: Option<DavPath>) -> Option<Seq<Seq<u8>>> {
    match resource {
        Some(p) => Some(p@.segments),
        None => None,
    }
}

/// What an optional vector of conjunctions holds.
pub open spec fn lists_view(r: Option<Vec<Conjunction>>) -> Option<Seq<Seq<ConditionModel>>> {
    match r {
        Some(v) => Some(alternatives_view(v@)),
        None => None,
    }
}

/// An assertion ends behind where it began, and within the text.
pub proof fn lemma_assertion_at(s: Seq<u8>, pos: int)
    requires
        0 <= pos <= s.len(),
    ensures
        assertion_at(s, pos) matches Some((a, behind)) ==> pos < behind <= s.len(),
{
    let negate = is_not(s, pos);
    let p = if negate {
        skip_ws(s, pos + 3)
    } else {
        pos
    };
    if negate {
        lemma_skip_ws(s, pos + 3);
    }
    if 0 <= p < s.len() {
        lemma_find(s, p + 1, 62);
        lemma_tag_at(s, p + 1);
    }
}

/// A list ends behind where it began, and within the text.
pub proof fn lemma_conditions_from(s: Seq<u8>, pos: int, resource: Option<Seq<Seq<u8>>>)
    requires
        0 <= pos <= s.len(),
    ensures
        conditions_from(s, pos, resource) matches Some((c, behind)) ==> pos < behind <= s.len(),
    decreases s.len() - pos,
{
    if pos < s.len() {
        let p = skip_ws(s, pos);
        lemma_skip_ws(s, pos);
        if p < s.len() && s[p] == 41 {
        } else {
            lemma_assertion_at(s, p);
            match assertion_at(s, p) {
                None => {},
                Some((assertion, behind)) => {
                    lemma_conditions_from(s, behind, resource);
                },
            }
        }
    }
}

fn clone_scope(resource: &Option<DavPath>) -> (r: Option<DavPath>)
    ensures
        scope_view(r) == scope_view(*resource),
{
    match resource {
        Some(p) => Some(p.clone()),
        None => None,
    }
}

fn read_assertion(s: &[u8], pos: usize) -> (r: Option<(Assertion, usize)>)
    requires
        pos <= s.len(),
    ensures
        match r {
            Some((a, behind)) => assertion_at(s@, pos as int) == Some((a@, behind as int))
                && pos < behind <= s.len(),
            None => assertion_at(s@, pos as int) is None,
        },
{
    let n = s.len();
    let negate = n >= 3 && pos < n - 2 && s[pos] == 78 && s[pos + 1] == 111 && s[pos + 2] == 116;
    let p = if negate {
        skip_spaces(s, pos + 3)
    } else {
        pos
    };
    proof {
        lemma_assertion_at(s@, pos as int);
    }
    if p < n && s[p] == 60 {
        let e = find_byte(s, p + 1, 62);
        if e < n {
            match LockToken::parse(slice_subrange(s, p + 1, e)) {
                Some(t) => {
                    let a = if negate {
                        Assertion::NoToken(t)
                    } else {
                        Assertion::Token(t)
                    };
                    Some((a, e + 1))
                },
                None => None,
            }
        } else {
            None
        }
    } else if p < n && s[p] == 91 {
        match read_tag(s, p + 1) {
            Some((tag, behind)) => {
                if behind < n && s[behind] == 93 {
                    let a = if negate {
                        Assertion::ETagIsNot(tag)
                    } else {
                        Assertion::ETagIs(tag)
                    };
                    Some((a, behind + 1))
                } else {
                    None
                }
            },
            None => None,
        }
    } else {
        None
    }
}

fn read_conditions(s: &[u8], start: usize, resource: &Option<DavPath>) -> (r: Option<
    (Vec<Condition>, usize),
>)
    requires
        start <= s.len(),
    ensures
        match r {
            Some((c, behind)) => conditions_from(s@, start as int, scope_view(*resource)) == Some(
                (conditions_view(c@), behind as int),
            ) && start < behind <= s.len(),
            None => conditions_from(s@, start as int, scope_view(*resource)) is None,
        },
{
    let n = s.len();
    let ghost scope = scope_view(*resource);
    let mut conditions: Vec<Condition> = Vec::new();
    let mut pos: usize = start;
    proof {
        assert(conditions_view(conditions@) =~= Seq::<ConditionModel>::empty());
        match conditions_from(s@, start as int, scope) {
            Some((rest, end)) => {
                assert(Seq::<ConditionModel>::empty() + rest =~= rest);
            },
            None => {},
        }
    }
    loop
        invariant
            start <= pos <= n,
            n == s.len(),
            scope == scope_view(*resource),
            conditions_from(s@, start as int, scope) == with_conditions(
                conditions_view(conditions@),
                conditions_from(s@, pos as int, scope),
            ),
        decreases n - pos,
    {
        if pos >= n {
            return None;
        }
        let p = skip_spaces(s, pos);
        if p < n && s[p] == 41 {
            proof {
                assert(conditions_view(conditions@) + Seq::<ConditionModel>::empty()
                    =~= conditions_view(conditions@));
            }
            return Some((conditions, p + 1));
        }
        match read_assertion(s, p) {
            None => {
                return None;
            },
            Some((assertion, behind)) => {
                let ghost before = conditions_view(conditions@);
                let c = Condition { resource: clone_scope(resource), assertion };
                let ghost model = c@;
                conditions.push(c);
                proof {
                    assert(model == ConditionModel { resource: scope, assertion: assertion@ });
                    assert(conditions_view(conditions@) =~= before + seq![model]);
                    match conditions_from(s@, behind as int, scope) {
                        Some((rest, end)) => {
                            assert(before + (seq![model] + rest) =~= (before + seq![model])
                                + rest);
                        },
                        None => {},
                    }
                }
                pos = behind;
            },
        }
    }
}

fn read_resource(s: &[u8], pos: usize) -> (r: Option<(DavPath, usize)>)
    requires
        pos < s.len(),
    ensures
        match r {
            Some((p, behind)) => resource_at(s@, pos as int) == Some((p@, behind as int))
                && pos < behind <= s.len(),
            None => resource_at(s@, pos as int) is None,
        },
{
    let n = s.len();
    let e = find_byte(s, pos + 1, 62);
    if e >= n {
        return None;
    }
    match path_of_url(slice_subrange(s, pos + 1, e)) {
        Some(path) => match DavPath::parse(path.as_slice()) {
            Ok(p) => Some((p, e + 1)),
            Err(_) => None,
        },
        None => None,
    }
}

/// The alternatives that the value `s` of an `If` header names, if it names
/// any.
pub fn parse_if(s: &[u8]) -> (r: Option<Vec<Conjunction>>)
    ensures
        lists_view(r) == parse_if_spec(s@),
{
    let n = s.len();
    let mut lists: Vec<Conjunction> = Vec::new();
    let mut resource: Option<DavPath> = None;
    let mut pos: usize = 0;
    proof {
        assert(alternatives_view(lists@) =~= Seq::<Seq<ConditionModel>>::empty());
        match lists_from(s@, 0, None) {
            Some(t) => {
                assert(Seq::<Seq<ConditionModel>>::empty() + t =~= t);
            },
            None => {},
        }
    }
    loop
        invariant
            pos <= n,
            n == s.len(),
            lists_from(s@, 0, None) == with_lists(
                alternatives_view(lists@),
                lists_from(s@, pos as int, scope_view(resource)),
            ),
        decreases n - pos,
    {
        let p = skip_spaces(s, pos);
        if p >= n {
            proof {
                assert(alternatives_view(lists@) + Seq::<Seq<ConditionModel>>::empty()
                    =~= alternatives_view(lists@));
            }
            if lists.len() > 0 {
                return Some(lists);
            } else {
                return None;
            }
        }
        if s[p] == 60 {
            match read_resource(s, p) {
                Some((path, behind)) => {
                    resource = Some(path);
                    pos = behind;
                },
                None => {
                    return None;
                },
            }
        } else if s[p] == 40 {
            match read_conditions(s, p + 1, &resource) {
                Some((conditions, behind)) => {
                    if conditions.len() == 0 {
                        return None;
                    }
                    let ghost before = alternatives_view(lists@);
                    let ghost model = conditions_view(conditions@);
                    lists.push(Conjunction { conditions });
                    proof {
                        assert(alternatives_view(lists@) =~= before + seq![model]);
                        match lists_from(s@, behind as int, scope_view(resource)) {
                            Some(t) => {
                                assert(before + (seq![model] + t) =~= (before + seq![model]) + t);
                            },
                            None => {},
                        }
                    }
                    pos = behind;
                },
                None => {
                    return None;
                },
            }
        } else {
            return None;
        }
    }
}

/// The condition that the assertion holds of the request target.
pub open spec fn unscoped(assertion: AssertionModel) -> ConditionModel {
    ConditionModel { resource: None, assertion }
}

/// What a list of tags that must not match asks for: that the target does
/// not exist, or that it has none of the tags.
pub open spec fn none_match_conditions(list: Option<TagListModel>) -> Seq<ConditionModel> {
    match list {
        None => Seq::empty(),
        Some(TagListModel::Any) => seq![unscoped(AssertionModel::Absent)],
        Some(TagListModel::Tags(tags)) => Seq::new(
            tags.len(),
            |i: int| unscoped(AssertionModel::ETagIsNot(tags[i])),
        ),
    }
}

/// What a list of tags that must match asks for: that the target exists,
/// or, one alternative for each tag, that it has that tag.
pub open spec fn match_alternatives(list: Option<TagListModel>) -> Seq<Seq<ConditionModel>> {
    match list {
        None => seq![Seq::empty()],
        Some(TagListModel::Any) => seq![seq![unscoped(AssertionModel::Exists)]],
        Some(TagListModel::Tags(tags)) => Seq::new(
            tags.len(),
            |i: int| seq![unscoped(AssertionModel::ETagIs(tags[i]))],
        ),
    }
}

/// Every alternative with `more` added to it.
pub open spec fn each_and(alternatives: Seq<Seq<ConditionModel>>, more: Seq<ConditionModel>) -> Seq<
    Seq<ConditionModel>,
> {
    Seq::new(alternatives.len(), |i: int| alternatives[i] + more)
}

/// `first` with each of the alternatives added to it in turn.
pub open spec fn and_each(first: Seq<ConditionModel>, alternatives: Seq<Seq<ConditionModel>>) -> Seq<
    Seq<ConditionModel>,
> {
    Seq::new(alternatives.len(), |j: int| first + alternatives[j])
}

/// The alternatives that hold exactly if one of `a` and one of `b` hold:
/// every alternative of `a` joined with every alternative of `b`.
pub open spec fn product(a: Seq<Seq<ConditionModel>>, b: Seq<Seq<ConditionModel>>) -> Seq<
    Seq<ConditionModel>,
>
    decreases a.len(),
{
    if a.len() == 0 {
        Seq::empty()
    } else {
        product(a.drop_last(), b) + and_each(a.last(), b)
    }
}

/// The conditions of a request with the given lists of tags that must and
/// must not match and the given lists of conditions. What the lists of tags
/// ask for must hold, and one of the lists of conditions must hold with it.
pub open spec fn combine(
    if_match: Option<TagListModel>,
    if_none_match: Option<TagListModel>,
    lists: Option<Seq<Seq<ConditionModel>>>,
) -> Seq<Seq<ConditionModel>> {
    if if_match is None && if_none_match is None {
        match lists {
            Some(l) => l,
            None => Seq::empty(),
        }
    } else {
        let entity = each_and(match_alternatives(if_match), none_match_conditions(if_none_match));
        match lists {
            Some(l) => product(entity, l),
            None => entity,
        }
    }
}

/// The conditions that the headers `If-Match`, `If-None-Match` and `If` of
/// a request name; none if one of them is there and cannot be read.
pub open spec fn conditions_spec(
    if_match: Option<Seq<u8>>,
    if_none_match: Option<Seq<u8>>,
    if_header: Option<Seq<u8>>,
) -> Option<Seq<Seq<ConditionModel>>> {
    let m = match if_match {
        Some(raw) => parse_tags_spec(raw),
        None => None,
    };
    let n = match if_none_match {
        Some(raw) => parse_tags_spec(raw),
        None => None,
    };
    let l = match if_header {
        Some(raw) => parse_if_spec(raw),
        None => None,
    };
    if (if_match is Some && m is None) || (if_none_match is Some && n is None) || (if_header
        is Some && l is None) {
        None
    } else {
        Some(combine(m, n, l))
    }
}

/// The bytes of a header value that may be missing.
pub open spec fn raw_view(raw: Option<&[u8]>) -> Option<Seq<u8>> {
    match raw {
        Some(r) => Some(r@),
        None => None,
    }
}

/// What an optional set of conditions holds.
pub open spec fn set_view(r: Option<ConditionSet>) -> Option<Seq<Seq<ConditionModel>>> {
    match r {
        Some(set) => Some(set@),
        None => None,
    }
}

/// A header that asks for one entity tag, and nothing else, is the one
/// condition that the target has that tag.
pub proof fn lemma_single_if_match(tag: Seq<u8>)
    ensures
        combine(Some(TagListModel::Tags(seq![tag])), None, None) == seq![seq![etag_condition(tag)]],
{
    let m = match_alternatives(Some(TagListModel::Tags(seq![tag])));
    let n = none_match_conditions(None);
    let e = each_and(m, n);
    assert(e.len() == 1);
    assert(e[0] =~= seq![etag_condition(tag)]);
    assert(e =~= seq![seq![etag_condition(tag)]]);
}

/// Without headers there are no conditions.
pub proof fn lemma_no_headers()
    ensures
        conditions_spec(None, None, None) == Some(Seq::<Seq<ConditionModel>>::empty()),
{
}

fn clone_condition(c: &Condition) -> (r: Condition)
    ensures
        r@ == c@,
{
    let assertion = match &c.assertion {
        Assertion::Exists => Assertion::Exists,
        Assertion::Absent => Assertion::Absent,
        Assertion::ETagIs(t) => Assertion::ETagIs(slice_to_vec(t.as_slice())),
        Assertion::ETagIsNot(t) => Assertion::ETagIsNot(slice_to_vec(t.as_slice())),
        Assertion::Token(k) => Assertion::Token(*k),
        Assertion::NoToken(k) => Assertion::NoToken(*k),
    };
    Condition { resource: clone_scope(&c.resource), assertion }
}

fn extend_cloned(out: &mut Vec<Condition>, more: &Vec<Condition>)
    ensures
        conditions_view(final(out)@) == conditions_view(old(out)@) + conditions_view(more@),
{
    let n = more.len();
    let mut i: usize = 0;
    let ghost start = conditions_view(out@);
    let ghost all = conditions_view(more@);
    proof {
        assert(start + all.take(0) =~= start);
    }
    while i < n
        invariant
            i <= n,
            n == more.len(),
            all == conditions_view(more@),
            conditions_view(out@) == start + all.take(i as int),
        decreases n - i,
    {
        let ghost before = conditions_view(out@);
        let c = clone_condition(&more[i]);
        out.push(c);
        proof {
            assert(conditions_view(out@) =~= before.push(all[i as int]));
            assert(before.push(all[i as int]) =~= start + all.take(i + 1));
        }
        i += 1;
    }
    proof {
        assert(all.take(n as int) =~= all);
    }
}

fn unscoped_condition(assertion: Assertion) -> (c: Condition)
    ensures
        c@ == unscoped(assertion@),
{
    Condition { resource: None, assertion }
}

fn none_match_of(list: &Option<TagList>) -> (r: Vec<Condition>)
    ensures
        conditions_view(r@) == none_match_conditions(tag_list_view(*list)),
{
    let mut out: Vec<Condition> = Vec::new();
    match list {
        None => {
            proof {
                assert(conditions_view(out@) =~= Seq::<ConditionModel>::empty());
            }
        },
        Some(TagList::Any) => {
            out.push(unscoped_condition(Assertion::Absent));
            proof {
                assert(conditions_view(out@) =~= seq![unscoped(AssertionModel::Absent)]);
            }
        },
        Some(TagList::Tags(tags)) => {
            let n = tags.len();
            let mut i: usize = 0;
            let ghost model = tags_view(tags@);
            while i < n
                invariant
                    i <= n,
                    n == tags.len(),
                    model == tags_view(tags@),
                    out.len() == i,
                    forall|k: int|
                        0 <= k < i ==> (#[trigger] out@[k])@ == unscoped(
                            AssertionModel::ETagIsNot(model[k]),
                        ),
                decreases n - i,
            {
                out.push(unscoped_condition(Assertion::ETagIsNot(slice_to_vec(tags[i].as_slice()))));
                i += 1;
            }
            proof {
                assert(conditions_view(out@) =~= Seq::new(
                    model.len(),
                    |i: int| unscoped(AssertionModel::ETagIsNot(model[i])),
                ));
            }
        },
    }
    out
}

fn match_of(list: &Option<TagList>) -> (r: Vec<Conjunction>)
    ensures
        alternatives_view(r@) == match_alternatives(tag_list_view(*list)),
{
    let mut out: Vec<Conjunction> = Vec::new();
    match list {
        None => {
            let conditions: Vec<Condition> = Vec::new();
            out.push(Conjunction { conditions });
            proof {
                assert(out@[0]@ =~= Seq::<ConditionModel>::empty());
                assert(alternatives_view(out@) =~= seq![Seq::<ConditionModel>::empty()]);
            }
        },
        Some(TagList::Any) => {
            let mut conditions: Vec<Condition> = Vec::new();
            conditions.push(unscoped_condition(Assertion::Exists));
            out.push(Conjunction { conditions });
            proof {
                assert(out@[0]@ =~= seq![unscoped(AssertionModel::Exists)]);
                assert(alternatives_view(out@) =~= seq![seq![unscoped(AssertionModel::Exists)]]);
            }
        },
        Some(TagList::Tags(tags)) => {
            let n = tags.len();
            let mut i: usize = 0;
            let ghost model = tags_view(tags@);
            while i < n
                invariant
                    i <= n,
                    n == tags.len(),
                    model == tags_view(tags@),
                    out.len() == i,
                    forall|k: int|
                        0 <= k < i ==> (#[trigger] out@[k])@ == seq![
                            unscoped(AssertionModel::ETagIs(model[k])),
                        ],
                decreases n - i,
            {
                let mut conditions: Vec<Condition> = Vec::new();
                conditions.push(
                    unscoped_condition(Assertion::ETagIs(slice_to_vec(tags[i].as_slice()))),
                );
                let c = Conjunction { conditions };
                proof {
                    assert(c@ =~= seq![unscoped(AssertionModel::ETagIs(model[i as int]))]);
                }
                out.push(c);
                i += 1;
            }
            proof {
                assert(alternatives_view(out@) =~= Seq::new(
                    model.len(),
                    |i: int| seq![unscoped(AssertionModel::ETagIs(model[i]))],
                ));
            }
        },
    }
    out
}

fn join(first: &Vec<Condition>, second: &Vec<Condition>) -> (c: Conjunction)
    ensures
        c@ == conditions_view(first@) + conditions_view(second@),
{
    let mut conditions: Vec<Condition> = Vec::new();
    extend_cloned(&mut conditions, first);
    extend_cloned(&mut conditions, second);
    proof {
        assert(Seq::<ConditionModel>::empty() + conditions_view(first@) =~= conditions_view(
            first@,
        ));
    }
    Conjunction { conditions }
}

fn product_of(a: &Vec<Conjunction>, b: &Vec<Conjunction>) -> (r: Vec<Conjunction>)
    ensures
        alternatives_view(r@) == product(alternatives_view(a@), alternatives_view(b@)),
{
    let mut out: Vec<Conjunction> = Vec::new();
    let ghost am = alternatives_view(a@);
    let ghost bm = alternatives_view(b@);
    let mut i: usize = 0;
    proof {
        assert(am.take(0) =~= Seq::<Seq<ConditionModel>>::empty());
        assert(alternatives_view(out@) =~= Seq::<Seq<ConditionModel>>::empty());
    }
    while i < a.len()
        invariant
            i <= a.len(),
            am == alternatives_view(a@),
            bm == alternatives_view(b@),
            alternatives_view(out@) == product(am.take(i as int), bm),
        decreases a.len() - i,
    {
        let ghost before = alternatives_view(out@);
        let ghost first = am[i as int];
        let mut j: usize = 0;
        proof {
            assert(before + and_each(first, bm).take(0) =~= before);
        }
        while j < b.len()
            invariant
                j <= b.len(),
                i < a.len(),
                am == alternatives_view(a@),
                bm == alternatives_view(b@),
                first == am[i as int],
                alternatives_view(out@) == before + and_each(first, bm).take(j as int),
            decreases b.len() - j,
        {
            let ghost so_far = alternatives_view(out@);
            let c = join(&a[i].conditions, &b[j].conditions);
            proof {
                assert(c@ == first + bm[j as int]);
            }
            out.push(c);
            proof {
                assert(alternatives_view(out@) =~= so_far.push(first + bm[j as int]));
                assert(so_far.push(first + bm[j as int]) =~= before + and_each(first, bm).take(
                    j + 1,
                ));
            }
            j += 1;
        }
        proof {
            assert(and_each(first, bm).take(b.len() as int) =~= and_each(first, bm));
            let next = am.take(i + 1);
            assert(next.drop_last() =~= am.take(i as int));
            assert(next.last() == first);
        }
        i += 1;
    }
    proof {
        assert(am.take(a.len() as int) =~= am);
    }
    out
}

fn each_and_of(alternatives: &Vec<Conjunction>, more: &Vec<Condition>) -> (r: Vec<Conjunction>)
    ensures
        alternatives_view(r@) == each_and(alternatives_view(alternatives@), conditions_view(more@)),
{
    let mut out: Vec<Conjunction> = Vec::new();
    let n = alternatives.len();
    let ghost model = alternatives_view(alternatives@);
    let mut i: usize = 0;
    while i < n
        invariant
            i <= n,
            n == alternatives.len(),
            model == alternatives_view(alternatives@),
            out.len() == i,
            forall|k: int|
                0 <= k < i ==> (#[trigger] out@[k])@ == model[k] + conditions_view(more@),
        decreases n - i,
    {
        out.push(join(&alternatives[i].conditions, more));
        i += 1;
    }
    proof {
        assert(alternatives_view(out@) =~= each_and(model, conditions_view(more@)));
    }
    out
}

/// The conditions that the values of the headers `If-Match`,
/// `If-None-Match` and `If` name; none if one of them cannot be read.
pub fn read_conditions_of(
    if_match: Option<&[u8]>,
    if_none_match: Option<&[u8]>,
    if_header: Option<&[u8]>,
) -> (r: Option<ConditionSet>)
    ensures
        set_view(r) == conditions_spec(
            raw_view(if_match),
            raw_view(if_none_match),
            raw_view(if_header),
        ),
{
    let m = match if_match {
        Some(raw) => {
            let list = parse_tags(raw);
            if list.is_none() {
                return None;
            }
            list
        },
        None => None,
    };
    let n = match if_none_match {
        Some(raw) => {
            let list = parse_tags(raw);
            if list.is_none() {
                return None;
            }
            list
        },
        None => None,
    };
    let l = match if_header {
        Some(raw) => {
            let lists = parse_if(raw);
            if lists.is_none() {
                return None;
            }
            lists
        },
        None => None,
    };
    if m.is_none() && n.is_none() {
        let alternatives = match l {
            Some(lists) => lists,
            None => {
                let none: Vec<Conjunction> = Vec::new();
                proof {
                    assert(alternatives_view(none@) =~= Seq::<Seq<ConditionModel>>::empty());
                }
                none
            },
        };
        return Some(ConditionSet { alternatives });
    }
    let more = none_match_of(&n);
    let first = match_of(&m);
    let entity = each_and_of(&first, &more);
    let alternatives = match l {
        Some(lists) => product_of(&entity, &lists),
        None => entity,
    };
    Some(ConditionSet { alternatives })
}

/// Whether the bytes of `text` stand in `s` at `pos`.
pub open spec fn stands_at(s: Seq<u8>, pos: int, text: Seq<u8>) -> bool {
    0 <= pos && pos + text.len() <= s.len() && s.subrange(pos, pos + text.len()) == text
}

/// Whether an item of a list ends at `pos`: the text ends there, or white
/// space or a comma stands there.
pub open spec fn item_ends(s: Seq<u8>, pos: int) -> bool {
    pos >= s.len() || (0 <= pos && (is_ws(s[pos]) || s[pos] == COMMA))
}

/// Whether the byte is a digit of base 10.
pub open spec fn is_digit(b: u8) -> bool {
    48 <= b <= 57
}

/// The first position at or behind `pos` that holds no digit.
pub open spec fn skip_digits(s: Seq<u8>, pos: int) -> int
    decreases s.len() - pos,
{
    if 0 <= pos < s.len() && is_digit(s[pos]) {
        skip_digits(s, pos + 1)
    } else {
        pos
    }
}

/// The number that digits of base 10 stand for; zero for no digits.
pub open spec fn decimal_of(s: Seq<u8>) -> int
    decreases s.len(),
{
    if s.len() == 0 {
        0
    } else {
        decimal_of(s.drop_last()) * 10 + (s.last() - 48)
    }
}

/// The text `infinity`.
pub open spec fn text_infinity() -> Seq<u8> {
    seq![105u8, 110u8, 102u8, 105u8, 110u8, 105u8, 116u8, 121u8]
}

/// The text `Infinite`.
pub open spec fn text_infinite() -> Seq<u8> {
    seq![73u8, 110u8, 102u8, 105u8, 110u8, 105u8, 116u8, 101u8]
}

/// The text `Second-`.
pub open spec fn text_second() -> Seq<u8> {
    seq![83u8, 101u8, 99u8, 111u8, 110u8, 100u8, 45u8]
}

/// Whether a lock is to reach down, as the value of a `Depth` header says
/// it: `0` for the node alone, `infinity` for the node and all below it.
pub open spec fn depth_spec(s: Seq<u8>) -> Option<bool> {
    let p = skip_ws(s, 0);
    if stands_at(s, p, seq![48u8]) && skip_ws(s, p + 1) >= s.len() {
        Some(false)
    } else if stands_at(s, p, text_infinity()) && skip_ws(s, p + 8) >= s.len() {
        Some(true)
    } else {
        None
    }
}

/// The seconds that the first item of a `Timeout` header asks for:
/// `Infinite` for a lock that does not end, or `Second-` and a number that
/// fits in 64 bits.
pub open spec fn timeout_spec(s: Seq<u8>) -> Option<Option<u64>> {
    let p = skip_ws(s, 0);
    if stands_at(s, p, text_infinite()) && item_ends(s, p + 8) {
        Some(None)
    } else if stands_at(s, p, text_second()) {
        let e = skip_digits(s, p + 7);
        let seconds = decimal_of(s.subrange(p + 7, e));
        if e > p + 7 && item_ends(s, e) && seconds <= u64::MAX {
            Some(Some(seconds as u64))
        } else {
            None
        }
    } else {
        None
    }
}

/// The path that the URL of a `Destination` header names.
pub open spec fn destination_spec(s: Seq<u8>) -> Option<PathModel> {
    match url_path(s) {
        Some(path) => match parse_spec(path) {
            Ok(p) => Some(p),
            Err(_) => None,
        },
        None => None,
    }
}

/// Where `skip_digits` points: at or behind `pos`, within the text, behind
/// nothing but digits, and at no digit.
pub proof fn lemma_skip_digits(s: Seq<u8>, pos: int)
    requires
        0 <= pos <= s.len(),
    ensures
        pos <= skip_digits(s, pos) <= s.len(),
        skip_digits(s, pos) < s.len() ==> !is_digit(s[skip_digits(s, pos)]),
        forall|k: int| pos <= k < skip_digits(s, pos) ==> is_digit(#[trigger] s[k]),
    decreases s.len() - pos,
{
    if pos < s.len() && is_digit(s[pos]) {
        lemma_skip_digits(s, pos + 1);
    }
}

fn text_at(s: &[u8], pos: usize, text: &[u8]) -> (b: bool)
    requires
        pos <= s.len(),
    ensures
        b == stands_at(s@, pos as int, text@),
{
    if text.len() > s.len() - pos {
        return false;
    }
    bytes_eq(slice_subrange(s, pos, pos + text.len()), text)
}

fn ends_item(s: &[u8], pos: usize) -> (b: bool)
    ensures
        b == item_ends(s@, pos as int),
{
    pos >= s.len() || s[pos] == SPACE || s[pos] == TAB || s[pos] == COMMA
}

/// Whether a lock is to reach down, as the value `s` of a `Depth` header
/// says it.
pub fn parse_depth(s: &[u8]) -> (r: Option<bool>)
    ensures
        r == depth_spec(s@),
{
    let p = skip_spaces(s, 0);
    let zero: [u8; 1] = [48];
    let infinity: [u8; 8] = [105, 110, 102, 105, 110, 105, 116, 121];
    proof {
        assert(zero@ =~= seq![48u8]);
        assert(infinity@ =~= text_infinity());
    }
    if text_at(s, p, zero.as_slice()) && skip_spaces(s, p + 1) >= s.len() {
        Some(false)
    } else if text_at(s, p, infinity.as_slice()) && skip_spaces(s, p + 8) >= s.len() {
        Some(true)
    } else {
        None
    }
}

/// The seconds that the first item of the value `s` of a `Timeout` header
/// asks for.
pub fn parse_timeout(s: &[u8]) -> (r: Option<Option<u64>>)
    ensures
        r == timeout_spec(s@),
{
    let n = s.len();
    let p = skip_spaces(s, 0);
    let infinite: [u8; 8] = [73, 110, 102, 105, 110, 105, 116, 101];
    let second: [u8; 7] = [83, 101, 99, 111, 110, 100, 45];
    proof {
        assert(infinite@ =~= text_infinite());
        assert(second@ =~= text_second());
    }
    if text_at(s, p, infinite.as_slice()) && ends_item(s, p + 8) {
        return Some(None);
    }
    if !text_at(s, p, second.as_slice()) {
        return None;
    }
    let start = p + 7;
    let mut i: usize = start;
    let mut value: u64 = 0;
    let mut fits = true;
    proof {
        lemma_skip_digits(s@, start as int);
        assert(s@.subrange(start as int, start as int) =~= Seq::<u8>::empty());
    }
    let ghost end = skip_digits(s@, start as int);
    let ghost digits = s@.subrange(start as int, end);
    while i < n && 48 <= s[i] && s[i] <= 57
        invariant
            start <= i <= n,
            n == s.len(),
            start <= end <= n,
            end == skip_digits(s@, start as int),
            skip_digits(s@, start as int) == skip_digits(s@, i as int),
            digits == s@.subrange(start as int, end),
            forall|k: int| start <= k < end ==> is_digit(#[trigger] s@[k]),
            fits ==> value == decimal_of(s@.subrange(start as int, i as int)),
            !fits ==> decimal_of(s@.subrange(start as int, i as int)) > u64::MAX,
        decreases n - i,
    {
        let d = (s[i] - 48) as u64;
        proof {
            lemma_skip_digits(s@, i as int);
            let done = s@.subrange(start as int, i as int);
            let next = s@.subrange(start as int, i + 1);
            assert(next.drop_last() =~= done);
            assert(next.last() == s@[i as int]);
            assert(decimal_of(next) == decimal_of(done) * 10 + d);
        }
        if fits {
            if value > (u64::MAX - d) / 10 {
                fits = false;
            } else {
                value = value * 10 + d;
            }
        }
        i += 1;
    }
    proof {
        lemma_skip_digits(s@, i as int);
        assert(i == end);
    }
    if i > start && ends_item(s, i) && fits {
        Some(Some(value))
    } else {
        None
    }
}

/// The path that the URL `s` of a `Destination` header names.
pub fn parse_destination(s: &[u8]) -> (r: Option<DavPath>)
    ensures
        match r {
            Some(p) => destination_spec(s@) == Some(p@),
            None => destination_spec(s@) is None,
        },
{
    match path_of_url(s) {
        Some(path) => match DavPath::parse(path.as_slice()) {
            Ok(p) => Some(p),
            Err(_) => None,
        },
        None => None,
    }
}

} // verus!
