//! Paths of the namespace: how a request target becomes a normalized path,
//! and how a path is written as a URL again.
use vstd::prelude::*;
use vstd::slice::{slice_subrange, slice_to_vec};
use vstd::string::StringSliceAdditionalSpecFns;

use crate::percent::{
    decode, encode, is_printable, lemma_decode_encode, lemma_encode_is_clean, percent_decode,
    percent_encode_into,
};

verus! {

/// The separator `/`.
pub const SLASH: u8 = 47;

/// The byte `.`.
pub const DOT: u8 = 46;

/// Why a request target is no path.
#[derive(Debug, Clone, Copy, PartialEq, Eq, Structural)]
pub enum ParseError {
    /// The target holds a byte that is not printable ASCII, does not start
    /// with a separator, holds a `%` without its two digits, or names a
    /// segment with a separator or a zero byte in it.
    InvalidPath,
    /// The target climbs above the root.
    ForbiddenPath,
}

/// A path as the contracts see it: the decoded segments from the root down,
/// and whether the path denotes a collection.
pub struct PathModel {
    pub segments: Seq<Seq<u8>>,
    pub collection: bool,
}

/// The segment `.`.
pub open spec fn is_dot(d: Seq<u8>) -> bool {
    d.len() == 1 && d[0] == DOT
}

/// The segment `..`.
pub open spec fn is_dotdot(d: Seq<u8>) -> bool {
    d.len() == 2 && d[0] == DOT && d[1] == DOT
}

/// Whether `d` can be the name of a node: not empty, neither `.` nor `..`,
/// and free of separators and zero bytes.
pub open spec fn valid_name(d: Seq<u8>) -> bool {
    &&& d.len() > 0
    &&& !is_dot(d)
    &&& !is_dotdot(d)
    &&& forall|i: int| 0 <= i < d.len() ==> #[trigger] d[i] != SLASH && d[i] != 0
}

/// Whether a path is normalized: every segment is a valid name, and the root
/// is a collection.
pub open spec fn path_wf(p: PathModel) -> bool {
    &&& forall|i: int| 0 <= i < p.segments.len() ==> valid_name(#[trigger] p.segments[i])
    &&& p.segments.len() == 0 ==> p.collection
}

/// The index of the first separator in `s`, or its length if it has none.
pub open spec fn first_slash(s: Seq<u8>) -> int
    decreases s.len(),
{
    if s.len() == 0 || s[0] == SLASH {
        0
    } else {
        1 + first_slash(s.skip(1))
    }
}

/// The pieces of `s` between its separators; one more than it has separators.
pub open spec fn split(s: Seq<u8>) -> Seq<Seq<u8>>
    decreases s.len(),
{
    let i = first_slash(s);
    if i < 0 || i >= s.len() {
        seq![s]
    } else {
        seq![s.take(i)] + split(s.skip(i + 1))
    }
}

/// Walks the raw pieces of a target from left to right, starting from the
/// segments in `stack`: each piece is decoded; an empty one and `.` are
/// passed over, `..` takes the last segment away, and any other must be a
/// valid name and is added.
pub open spec fn resolve(parts: Seq<Seq<u8>>, stack: Seq<Seq<u8>>) -> Result<
    Seq<Seq<u8>>,
    ParseError,
>
    decreases parts.len(),
{
    if parts.len() == 0 {
        Ok(stack)
    } else {
        match decode(parts[0]) {
            None => Err(ParseError::InvalidPath),
            Some(d) => if d.len() == 0 || is_dot(d) {
                resolve(parts.skip(1), stack)
            } else if is_dotdot(d) {
                if stack.len() == 0 {
                    Err(ParseError::ForbiddenPath)
                } else {
                    resolve(parts.skip(1), stack.drop_last())
                }
            } else if !valid_name(d) {
                Err(ParseError::InvalidPath)
            } else {
                resolve(parts.skip(1), stack.push(d))
            },
        }
    }
}

/// The path that a request target denotes, or why it denotes none. The
/// target is the path component of a URL: printable ASCII that starts with a
/// separator. It denotes a collection if it ends with a separator or names
/// the root.
pub open spec fn parse_spec(raw: Seq<u8>) -> Result<PathModel, ParseError> {
    if !is_printable(raw) || raw.len() == 0 || raw[0] != SLASH {
        Err(ParseError::InvalidPath)
    } else {
        match resolve(split(raw.skip(1)), Seq::empty()) {
            Err(e) => Err(e),
            Ok(segments) => Ok(
                PathModel { segments, collection: raw.last() == SLASH || segments.len() == 0 },
            ),
        }
    }
}

/// What follows the leading separator in the URL of a path.
pub open spec fn url_body(segments: Seq<Seq<u8>>, collection: bool) -> Seq<u8>
    decreases segments.len(),
{
    if segments.len() == 0 {
        Seq::empty()
    } else if segments.len() == 1 && !collection {
        encode(segments[0])
    } else {
        encode(segments[0]) + seq![SLASH] + url_body(segments.skip(1), collection)
    }
}

/// The URL of a path: a separator before each encoded segment, and one at
/// the end of a collection.
pub open spec fn render(p: PathModel) -> Seq<u8> {
    seq![SLASH] + url_body(p.segments, p.collection)
}

/// The same path, denoting a collection.
pub open spec fn with_slash(p: PathModel) -> PathModel {
    PathModel { segments: p.segments, collection: true }
}

/// The collection that holds the node of a path; the root holds itself.
pub open spec fn parent_of(p: PathModel) -> PathModel {
    if p.segments.len() == 0 {
        PathModel { segments: p.segments, collection: true }
    } else {
        PathModel { segments: p.segments.drop_last(), collection: true }
    }
}

/// Whether the node of `b` is that of `a` or lies below it.
pub open spec fn is_at_or_below(a: Seq<Seq<u8>>, b: Seq<Seq<u8>>) -> bool {
    a.len() <= b.len() && b.take(a.len() as int) == a
}

/// The segments of a vector of byte vectors.
pub open spec fn segs_view(v: Seq<Vec<u8>>) -> Seq<Seq<u8>> {
    Seq::new(v.len(), |i: int| v[i]@)
}

/// Where `first_slash` points: within the text, at a separator unless
/// there is none, and behind no separator.
pub proof fn lemma_first_slash(s: Seq<u8>)
    ensures
        0 <= first_slash(s) <= s.len(),
        forall|k: int| 0 <= k < first_slash(s) ==> #[trigger] s[k] != SLASH,
        first_slash(s) < s.len() ==> s[first_slash(s)] == SLASH,
    decreases s.len(),
{
    if s.len() == 0 || s[0] == SLASH {
    } else {
        let t = s.skip(1);
        lemma_first_slash(t);
        assert forall|k: int| 0 <= k < first_slash(s) implies #[trigger] s[k] != SLASH by {
            if k > 0 {
                assert(s[k] == t[k - 1]);
            }
        }
        if first_slash(s) < s.len() {
            assert(s[first_slash(s)] == t[first_slash(t)]);
        }
    }
}

/// The first separator is where `first_slash` points.
pub proof fn lemma_first_slash_is(s: Seq<u8>, j: int)
    requires
        0 <= j <= s.len(),
        forall|k: int| 0 <= k < j ==> #[trigger] s[k] != SLASH,
        j < s.len() ==> s[j] == SLASH,
    ensures
        first_slash(s) == j,
{
    lemma_first_slash(s);
    let f = first_slash(s);
    if f < j {
        assert(s[f] != SLASH);
    } else if f > j {
        assert(s[j] != SLASH);
    }
}

/// A piece without separators that stands before a separator is the first
/// piece of the whole.
pub proof fn lemma_split_first(a: Seq<u8>, b: Seq<u8>)
    requires
        forall|k: int| 0 <= k < a.len() ==> #[trigger] a[k] != SLASH,
    ensures
        split(a) == seq![a],
        split(a + seq![SLASH] + b) == seq![a] + split(b),
{
    lemma_first_slash_is(a, a.len() as int);
    let s = a + seq![SLASH] + b;
    assert forall|k: int| 0 <= k < a.len() implies #[trigger] s[k] != SLASH by {
        assert(s[k] == a[k]);
    }
    assert(s[a.len() as int] == SLASH);
    lemma_first_slash_is(s, a.len() as int);
    assert(s.take(a.len() as int) =~= a);
    assert(s.skip(a.len() as int + 1) =~= b);
}

/// The pieces of a rendered path resolve to its segments.
proof fn lemma_resolve_rendered(segments: Seq<Seq<u8>>, collection: bool, stack: Seq<Seq<u8>>)
    requires
        forall|i: int| 0 <= i < segments.len() ==> valid_name(#[trigger] segments[i]),
    ensures
        resolve(split(url_body(segments, collection)), stack) == Ok::<
            Seq<Seq<u8>>,
            ParseError,
        >(stack + segments),
    decreases segments.len(),
{
    let none = Seq::<u8>::empty();
    if segments.len() == 0 {
        lemma_split_first(none, none);
        let parts = seq![none];
        assert(split(none) == parts);
        assert(parts[0] == none);
        assert(decode(none) == Some(none));
        assert(parts.skip(1) =~= Seq::<Seq<u8>>::empty());
        assert(resolve(parts.skip(1), stack) == Ok::<Seq<Seq<u8>>, ParseError>(stack));
        assert(stack + segments =~= stack);
    } else {
        let name = segments[0];
        let e = encode(name);
        let rest = segments.skip(1);
        lemma_encode_is_clean(name);
        lemma_decode_encode(name);
        assert(valid_name(name));
        if segments.len() == 1 && !collection {
            lemma_split_first(e, none);
            let parts = seq![e];
            assert(parts[0] == e);
            assert(parts.skip(1) =~= Seq::<Seq<u8>>::empty());
            assert(resolve(parts.skip(1), stack.push(name)) == Ok::<Seq<Seq<u8>>, ParseError>(
                stack.push(name),
            ));
            assert(stack + segments =~= stack.push(name));
        } else {
            let tail = url_body(rest, collection);
            lemma_split_first(e, tail);
            let parts = seq![e] + split(tail);
            assert(parts[0] == e);
            assert(parts.skip(1) =~= split(tail));
            assert forall|i: int| 0 <= i < rest.len() implies valid_name(#[trigger] rest[i]) by {
                assert(rest[i] == segments[i + 1]);
            }
            lemma_resolve_rendered(rest, collection, stack.push(name));
            assert(stack.push(name) + rest =~= stack + segments);
        }
    }
}

/// What a rendered path looks like: printable, and closed by a separator
/// exactly if it denotes a collection or the root.
proof fn lemma_url_body_shape(segments: Seq<Seq<u8>>, collection: bool)
    requires
        forall|i: int| 0 <= i < segments.len() ==> valid_name(#[trigger] segments[i]),
    ensures
        is_printable(url_body(segments, collection)),
        segments.len() > 0 ==> url_body(segments, collection).len() > 0 && (url_body(
            segments,
            collection,
        ).last() == SLASH <==> collection),
        segments.len() == 0 ==> url_body(segments, collection).len() == 0,
    decreases segments.len(),
{
    if segments.len() > 0 {
        let name = segments[0];
        let e = encode(name);
        let rest = segments.skip(1);
        lemma_encode_is_clean(name);
        assert(valid_name(name));
        if segments.len() == 1 && !collection {
            assert(e.last() == e[e.len() - 1]);
        } else {
            assert forall|i: int| 0 <= i < rest.len() implies valid_name(#[trigger] rest[i]) by {
                assert(rest[i] == segments[i + 1]);
            }
            lemma_url_body_shape(rest, collection);
            let tail = url_body(rest, collection);
            let b = e + seq![SLASH] + tail;
            assert forall|i: int| 0 <= i < b.len() implies 32 <= #[trigger] b[i] <= 126 by {
                if i < e.len() {
                    assert(b[i] == e[i]);
                } else if i == e.len() {
                } else {
                    assert(b[i] == tail[i - e.len() - 1]);
                }
            }
            if rest.len() == 0 {
                assert(b.last() == SLASH);
            } else {
                assert(b.last() == tail.last());
            }
        }
    }
}

/// A normalized path is found again from its URL.
pub proof fn lemma_parse_render(p: PathModel)
    requires
        path_wf(p),
    ensures
        parse_spec(render(p)) == Ok::<PathModel, ParseError>(p),
{
    let body = url_body(p.segments, p.collection);
    let raw = render(p);
    lemma_url_body_shape(p.segments, p.collection);
    lemma_resolve_rendered(p.segments, p.collection, Seq::empty());
    assert(raw.skip(1) =~= body);
    assert(raw[0] == SLASH);
    assert forall|i: int| 0 <= i < raw.len() implies 32 <= #[trigger] raw[i] <= 126 by {
        if i > 0 {
            assert(raw[i] == body[i - 1]);
        }
    }
    assert(Seq::<Seq<u8>>::empty() + p.segments =~= p.segments);
    if p.segments.len() > 0 {
        assert(raw.last() == body.last());
    }
}

/// Whatever `resolve` accepts consists of valid names, if it started so.
pub proof fn lemma_resolve_valid(parts: Seq<Seq<u8>>, stack: Seq<Seq<u8>>)
    requires
        forall|i: int| 0 <= i < stack.len() ==> valid_name(#[trigger] stack[i]),
    ensures
        resolve(parts, stack) matches Ok(r) ==> forall|i: int|
            0 <= i < r.len() ==> valid_name(#[trigger] r[i]),
    decreases parts.len(),
{
    if parts.len() > 0 {
        match decode(parts[0]) {
            None => {},
            Some(d) => {
                if d.len() == 0 || is_dot(d) {
                    lemma_resolve_valid(parts.skip(1), stack);
                } else if is_dotdot(d) {
                    if stack.len() > 0 {
                        lemma_resolve_valid(parts.skip(1), stack.drop_last());
                    }
                } else if valid_name(d) {
                    lemma_resolve_valid(parts.skip(1), stack.push(d));
                }
            },
        }
    }
}

/// Every path that a target denotes is normalized.
pub proof fn lemma_parse_wf(raw: Seq<u8>)
    ensures
        parse_spec(raw) matches Ok(p) ==> path_wf(p),
{
    if is_printable(raw) && raw.len() > 0 && raw[0] == SLASH {
        lemma_resolve_valid(split(raw.skip(1)), Seq::empty());
    }
}

/// Normalizing is idempotent: the URL of the path that a target denotes
/// denotes that path.
pub proof fn lemma_parse_idempotent(raw: Seq<u8>)
    ensures
        parse_spec(raw) matches Ok(p) ==> parse_spec(render(p)) == Ok::<PathModel, ParseError>(p),
{
    lemma_parse_wf(raw);
    if let Ok(p) = parse_spec(raw) {
        lemma_parse_render(p);
    }
}

/// A forced separator is kept: the URL of a path that was made a collection
/// denotes that collection, whatever the path denoted before.
pub proof fn lemma_parse_render_with_slash(p: PathModel)
    requires
        path_wf(p),
    ensures
        parse_spec(render(with_slash(p))) == Ok::<PathModel, ParseError>(with_slash(p)),
        render(with_slash(p)).last() == SLASH,
{
    lemma_parse_render(with_slash(p));
    lemma_url_body_shape(p.segments, true);
    let body = url_body(p.segments, true);
    let raw = render(with_slash(p));
    if p.segments.len() > 0 {
        assert(raw.last() == body.last());
    }
}

/// Whether two byte vectors hold the same bytes.
pub fn bytes_eq(a: &[u8], b: &[u8]) -> (r: bool)
    ensures
        r == (a@ == b@),
{
    if a.len() != b.len() {
        return false;
    }
    let n = a.len();
    let mut i: usize = 0;
    while i < n
        invariant
            i <= n,
            n == a.len(),
            n == b.len(),
            forall|k: int| 0 <= k < i ==> a@[k] == b@[k],
        decreases n - i,
    {
        if a[i] != b[i] {
            return false;
        }
        i += 1;
    }
    proof {
        assert(a@ =~= b@);
    }
    true
}

fn is_printable_bytes(raw: &[u8]) -> (r: bool)
    ensures
        r == is_printable(raw@),
{
    let n = raw.len();
    let mut i: usize = 0;
    while i < n
        invariant
            i <= n,
            n == raw.len(),
            forall|k: int| 0 <= k < i ==> 32 <= #[trigger] raw@[k] <= 126,
        decreases n - i,
    {
        if raw[i] < 32 || raw[i] > 126 {
            return false;
        }
        i += 1;
    }
    true
}

fn is_valid_name(d: &Vec<u8>) -> (r: bool)
    ensures
        r == valid_name(d@),
{
    let n = d.len();
    if n == 0 {
        return false;
    }
    if n == 1 && d[0] == DOT {
        return false;
    }
    if n == 2 && d[0] == DOT && d[1] == DOT {
        return false;
    }
    let mut i: usize = 0;
    while i < n
        invariant
            i <= n,
            n == d.len(),
            forall|k: int| 0 <= k < i ==> #[trigger] d@[k] != SLASH && d@[k] != 0,
        decreases n - i,
    {
        if d[i] == SLASH || d[i] == 0 {
            return false;
        }
        i += 1;
    }
    true
}

fn split_parts(raw: &[u8], start: usize) -> (parts: Vec<Vec<u8>>)
    requires
        start <= raw.len(),
    ensures
        segs_view(parts@) == split(raw@.skip(start as int)),
{
    let mut parts: Vec<Vec<u8>> = Vec::new();
    let mut pos: usize = start;
    let n = raw.len();
    proof {
        assert(segs_view(parts@) + split(raw@.skip(start as int)) =~= split(
            raw@.skip(start as int),
        ));
    }
    loop
        invariant
            pos <= n,
            n == raw.len(),
            split(raw@.skip(start as int)) == segs_view(parts@) + split(raw@.skip(pos as int)),
        decreases n - pos,
    {
        let mut j: usize = pos;
        while j < n && raw[j] != SLASH
            invariant
                pos <= j <= n,
                n == raw.len(),
                forall|k: int| pos <= k < j ==> #[trigger] raw@[k] != SLASH,
            decreases n - j,
        {
            j += 1;
        }
        let piece = slice_to_vec(slice_subrange(raw, pos, j));
        let ghost s = raw@.skip(pos as int);
        let ghost before = segs_view(parts@);
        proof {
            assert forall|k: int| 0 <= k < j - pos implies #[trigger] s[k] != SLASH by {
                assert(s[k] == raw@[pos + k]);
            }
            lemma_first_slash_is(s, j - pos);
            assert(s.take(j - pos) =~= piece@);
        }
        parts.push(piece);
        proof {
            assert(segs_view(parts@) =~= before + seq![piece@]);
        }
        if j == n {
            proof {
                assert(s =~= piece@);
            }
            return parts;
        }
        proof {
            assert(s.skip(j - pos + 1) =~= raw@.skip(j + 1));
            assert(before + (seq![piece@] + split(raw@.skip(j + 1))) =~= (before + seq![piece@])
                + split(raw@.skip(j + 1)));
        }
        pos = j + 1;
    }
}

fn resolve_parts(parts: &Vec<Vec<u8>>) -> (r: Result<Vec<Vec<u8>>, ParseError>)
    ensures
        match r {
            Ok(v) => resolve(segs_view(parts@), Seq::empty()) == Ok::<Seq<Seq<u8>>, ParseError>(
                segs_view(v@),
            ),
            Err(e) => resolve(segs_view(parts@), Seq::empty()) == Err::<Seq<Seq<u8>>, ParseError>(
                e,
            ),
        },
{
    let mut stack: Vec<Vec<u8>> = Vec::new();
    let mut i: usize = 0;
    let ghost all = segs_view(parts@);
    proof {
        assert(all.skip(0) =~= all);
        assert(segs_view(stack@) =~= Seq::<Seq<u8>>::empty());
    }
    while i < parts.len()
        invariant
            i <= parts.len(),
            all == segs_view(parts@),
            resolve(all, Seq::empty()) == resolve(all.skip(i as int), segs_view(stack@)),
        decreases parts.len() - i,
    {
        let ghost rest = all.skip(i as int);
        let ghost st = segs_view(stack@);
        proof {
            assert(rest[0] == parts@[i as int]@);
            assert(rest.skip(1) =~= all.skip(i + 1));
        }
        let decoded = percent_decode(parts[i].as_slice());
        match decoded {
            None => {
                return Err(ParseError::InvalidPath);
            },
            Some(d) => {
                assert(decode(rest[0]) == Some(d@));
                let n = d.len();
                if n == 0 || (n == 1 && d[0] == DOT) {
                } else if n == 2 && d[0] == DOT && d[1] == DOT {
                    if stack.len() == 0 {
                        return Err(ParseError::ForbiddenPath);
                    }
                    stack.pop();
                    proof {
                        assert(segs_view(stack@) =~= st.drop_last());
                    }
                } else if !is_valid_name(&d) {
                    return Err(ParseError::InvalidPath);
                } else {
                    stack.push(d);
                    proof {
                        assert(segs_view(stack@) =~= st.push(d@));
                    }
                }
            },
        }
        i += 1;
    }
    proof {
        assert(all.skip(all.len() as int) =~= Seq::<Seq<u8>>::empty());
    }
    Ok(stack)
}

fn clone_segments(src: &Vec<Vec<u8>>, count: usize) -> (out: Vec<Vec<u8>>)
    requires
        count <= src.len(),
    ensures
        segs_view(out@) == segs_view(src@).take(count as int),
{
    let mut out: Vec<Vec<u8>> = Vec::new();
    let mut i: usize = 0;
    while i < count
        invariant
            i <= count,
            count <= src.len(),
            segs_view(out@) == segs_view(src@).take(i as int),
        decreases count - i,
    {
        let ghost before = segs_view(out@);
        let piece = slice_to_vec(src[i].as_slice());
        out.push(piece);
        proof {
            assert(segs_view(out@) =~= before.push(src@[i as int]@));
            assert(segs_view(src@).take(i + 1) =~= segs_view(src@).take(i as int).push(
                src@[i as int]@,
            ));
        }
        i += 1;
    }
    out
}

/// A normalized path of the namespace.
#[derive(Debug, PartialEq, Eq)]
pub struct DavPath {
    segments: Vec<Vec<u8>>,
    collection: bool,
}

impl View for DavPath {
    type V = PathModel;

    closed spec fn view(&self) -> PathModel {
        PathModel { segments: segs_view(self.segments@), collection: self.collection }
    }
}

impl Clone for DavPath {
    fn clone(&self) -> (r: DavPath)
        ensures
            r@ == self@,
    {
        proof {
            use_type_invariant(self);
            assert(segs_view(self.segments@).take(self.segments@.len() as int) =~= segs_view(
                self.segments@,
            ));
        }
        DavPath {
            segments: clone_segments(&self.segments, self.segments.len()),
            collection: self.collection,
        }
    }
}

impl DavPath {
    #[verifier::type_invariant]
    spec fn inv(self) -> bool {
        path_wf(self@)
    }

    /// The root of the namespace.
    pub fn root() -> (p: DavPath)
        ensures
            p@.segments.len() == 0,
            p@.collection,
    {
        let segments: Vec<Vec<u8>> = Vec::new();
        DavPath { segments, collection: true }
    }

    /// The path that the request target `raw` denotes.
    pub fn parse(raw: &[u8]) -> (r: Result<DavPath, ParseError>)
        ensures
            match r {
                Ok(p) => parse_spec(raw@) == Ok::<PathModel, ParseError>(p@),
                Err(e) => parse_spec(raw@) == Err::<PathModel, ParseError>(e),
            },
    {
        if !is_printable_bytes(raw) || raw.len() == 0 || raw[0] != SLASH {
            return Err(ParseError::InvalidPath);
        }
        let parts = split_parts(raw, 1);
        match resolve_parts(&parts) {
            Err(e) => Err(e),
            Ok(segments) => {
                let collection = raw[raw.len() - 1] == SLASH || segments.len() == 0;
                proof {
                    lemma_resolve_valid(split(raw@.skip(1)), Seq::empty());
                }
                Ok(DavPath { segments, collection })
            },
        }
    }

    /// The path that the request target `src` denotes.
    pub fn new(src: &str) -> (r: Result<DavPath, ParseError>)
        ensures
            match r {
                Ok(p) => parse_spec(src.spec_bytes()) == Ok::<PathModel, ParseError>(p@),
                Err(e) => parse_spec(src.spec_bytes()) == Err::<PathModel, ParseError>(e),
            },
    {
        DavPath::parse(src.as_bytes())
    }

    /// The path as a URL.
    pub fn as_url(&self) -> (out: Vec<u8>)
        ensures
            out@ == render(self@),
    {
        let mut out: Vec<u8> = Vec::new();
        out.push(SLASH);
        let n = self.segments.len();
        let mut i: usize = 0;
        let ghost segs = self@.segments;
        proof {
            assert(segs.skip(0) =~= segs);
            assert(out@ =~= seq![SLASH]);
        }
        while i < n
            invariant
                i <= n,
                n == self.segments.len(),
                segs == self@.segments,
                out@ + url_body(segs.skip(i as int), self.collection) == render(self@),
            decreases n - i,
        {
            let ghost before = out@;
            let ghost rest = segs.skip(i as int);
            proof {
                assert(rest[0] == self.segments@[i as int]@);
                assert(rest.skip(1) =~= segs.skip(i + 1));
            }
            percent_encode_into(self.segments[i].as_slice(), &mut out);
            if i + 1 == n && !self.collection {
                proof {
                    assert(url_body(segs.skip(i + 1), self.collection) =~= Seq::<u8>::empty());
                    assert(out@ + Seq::<u8>::empty() =~= before + url_body(rest, self.collection));
                }
            } else {
                out.push(SLASH);
                proof {
                    assert(out@ + url_body(segs.skip(i + 1), self.collection) =~= before
                        + url_body(rest, self.collection));
                }
            }
            i += 1;
        }
        proof {
            assert(out@ + Seq::<u8>::empty() =~= out@);
        }
        out
    }

    /// Whether the path denotes a collection.
    pub fn is_collection(&self) -> (b: bool)
        ensures
            b == self@.collection,
    {
        self.collection
    }

    /// Whether the path is the root.
    pub fn is_root(&self) -> (b: bool)
        ensures
            b == (self@.segments.len() == 0),
    {
        self.segments.len() == 0
    }

    /// The number of segments.
    pub fn depth(&self) -> (n: usize)
        ensures
            n == self@.segments.len(),
    {
        self.segments.len()
    }

    /// The segment at `index`, counted from the root.
    pub fn segment(&self, index: usize) -> (s: &[u8])
        requires
            index < self@.segments.len(),
        ensures
            s@ == self@.segments[index as int],
    {
        self.segments[index].as_slice()
    }

    /// The last segment, which names the node; the root has none.
    pub fn file_name(&self) -> (s: Option<&[u8]>)
        ensures
            match s {
                Some(name) => self@.segments.len() > 0 && name@ == self@.segments.last(),
                None => self@.segments.len() == 0,
            },
    {
        let n = self.segments.len();
        if n == 0 {
            None
        } else {
            Some(self.segments[n - 1].as_slice())
        }
    }

    /// Makes the path denote a collection, so that its URL ends with a
    /// separator.
    pub fn add_slash(&mut self)
        ensures
            final(self)@ == with_slash(old(self)@),
    {
        proof {
            use_type_invariant(&*self);
        }
        self.collection = true;
    }

    /// The collection that holds the node of the path.
    pub fn parent(&self) -> (p: DavPath)
        ensures
            p@ == parent_of(self@),
    {
        proof {
            use_type_invariant(self);
        }
        let n = self.segments.len();
        let keep = if n == 0 {
            0
        } else {
            n - 1
        };
        let segments = clone_segments(&self.segments, keep);
        proof {
            let all = segs_view(self.segments@);
            if n > 0 {
                assert(all.take(keep as int) =~= all.drop_last());
            } else {
                assert(all.take(0) =~= all);
            }
        }
        DavPath { segments, collection: true }
    }

    /// Whether both paths name the same node, whatever they say of its kind.
    pub fn same_node(&self, other: &DavPath) -> (b: bool)
        ensures
            b == (self@.segments == other@.segments),
    {
        proof {
            assert(self@.segments.len() == self.segments@.len());
            assert(other@.segments.len() == other.segments@.len());
        }
        if self.segments.len() != other.segments.len() {
            return false;
        }
        proof {
            let o = other@.segments;
            assert(o.take(o.len() as int) =~= o);
        }
        self.is_ancestor_of(other)
    }

    /// Whether the node of `other` is the node of this path or lies below it.
    pub fn is_ancestor_of(&self, other: &DavPath) -> (b: bool)
        ensures
            b == is_at_or_below(self@.segments, other@.segments),
    {
        let n = self.segments.len();
        if n > other.segments.len() {
            return false;
        }
        let ghost a = self@.segments;
        let ghost o = other@.segments;
        let mut i: usize = 0;
        while i < n
            invariant
                i <= n,
                n == self.segments.len(),
                n <= other.segments.len(),
                a == self@.segments,
                o == other@.segments,
                forall|k: int| 0 <= k < i ==> a[k] == o[k],
            decreases n - i,
        {
            if !bytes_eq(self.segments[i].as_slice(), other.segments[i].as_slice()) {
                proof {
                    assert(o.take(n as int)[i as int] == o[i as int]);
                }
                return false;
            }
            i += 1;
        }
        proof {
            assert(o.take(n as int) =~= a);
        }
        true
    }
}

} // verus!
