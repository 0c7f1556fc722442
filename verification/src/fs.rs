//! The values that a storage backend and the engine exchange.
use vstd::prelude::*;
use vstd::slice::slice_to_vec;
use vstd::string::StringExecFns;

verus! {

/// Outcomes that a storage backend reports. They are result codes more than
/// errors; the engine alone turns them into status codes.
#[derive(Debug, Clone, Copy, PartialEq, Eq, Structural)]
pub enum FsError {
    /// The operation is not implemented.
    NotImplemented,
    /// Something went wrong.
    GeneralFailure,
    /// Something was to be created, but it existed.
    Exists,
    /// File or directory not found.
    NotFound,
    /// Not allowed.
    Forbidden,
    /// Out of space.
    InsufficientStorage,
    /// A loop of symbolic links was met.
    LoopDetected,
    /// The path is too long.
    PathTooLong,
    /// The file that is stored is too large.
    TooLarge,
    /// The operation would cross a mount boundary.
    IsRemote,
}

/// The result type of storage operations.
pub type FsResult<T> = Result<T, FsError>;

impl FsError {
    /// The name of the variant, as it is shown to a reader.
    pub open spec fn name_spec(self) -> Seq<char> {
        match self {
            FsError::NotImplemented => "NotImplemented"@,
            FsError::GeneralFailure => "GeneralFailure"@,
            FsError::Exists => "Exists"@,
            FsError::NotFound => "NotFound"@,
            FsError::Forbidden => "Forbidden"@,
            FsError::InsufficientStorage => "InsufficientStorage"@,
            FsError::LoopDetected => "LoopDetected"@,
            FsError::PathTooLong => "PathTooLong"@,
            FsError::TooLarge => "TooLarge"@,
            FsError::IsRemote => "IsRemote"@,
        }
    }

    /// The text that stands for the error when it is shown.
    pub fn name(&self) -> (s: &'static str)
        ensures
            s@ == self.name_spec(),
    {
        match self {
            FsError::NotImplemented => "NotImplemented",
            FsError::GeneralFailure => "GeneralFailure",
            FsError::Exists => "Exists",
            FsError::NotFound => "NotFound",
            FsError::Forbidden => "Forbidden",
            FsError::InsufficientStorage => "InsufficientStorage",
            FsError::LoopDetected => "LoopDetected",
            FsError::PathTooLong => "PathTooLong",
            FsError::TooLarge => "TooLarge",
            FsError::IsRemote => "IsRemote",
        }
    }

    /// One description for all of them.
    pub fn description(&self) -> (s: &'static str)
        ensures
            s@ == "DavFileSystem error"@,
    {
        "DavFileSystem error"
    }
}

/// A property of a node.
#[derive(Debug, PartialEq, Eq)]
pub struct DavProp {
    /// Name of the property.
    pub name: String,
    /// XML prefix.
    pub prefix: Option<String>,
    /// XML namespace.
    pub namespace: Option<String>,
    /// Value of the property as raw XML.
    pub xml: Option<Vec<u8>>,
}

/// A property as the contracts see it.
pub struct PropModel {
    pub name: Seq<char>,
    pub prefix: Option<Seq<char>>,
    pub namespace: Option<Seq<char>>,
    pub xml: Option<Seq<u8>>,
}

/// What an optional byte vector holds.
pub open spec fn bytes_view(b: Option<Vec<u8>>) -> Option<Seq<u8>> {
    match b {
        Some(v) => Some(v@),
        None => None,
    }
}

impl View for DavProp {
    type V = PropModel;

    open spec fn view(&self) -> PropModel {
        PropModel {
            name: self.name@,
            prefix: text_view(self.prefix),
            namespace: text_view(self.namespace),
            xml: bytes_view(self.xml),
        }
    }
}

fn clone_text(s: &Option<String>) -> (r: Option<String>)
    ensures
        text_view(r) == text_view(*s),
{
    match s {
        Some(t) => Some(t.clone()),
        None => None,
    }
}

fn clone_bytes(b: &Option<Vec<u8>>) -> (r: Option<Vec<u8>>)
    ensures
        bytes_view(r) == bytes_view(*b),
{
    match b {
        Some(v) => Some(slice_to_vec(v.as_slice())),
        None => None,
    }
}

impl Clone for DavProp {
    fn clone(&self) -> (r: DavProp)
        ensures
            r@ == self@,
    {
        DavProp {
            name: self.name.clone(),
            prefix: clone_text(&self.prefix),
            namespace: clone_text(&self.namespace),
            xml: clone_bytes(&self.xml),
        }
    }
}

/// What a directory listing is to bring along for each entry.
#[derive(Debug, Clone, Copy, PartialEq, Eq, Structural)]
pub enum ReadDirMeta {
    /// The metadata of an entry is that of what a link points to.
    Data,
    /// The metadata of an entry is that of the link itself.
    DataSymlink,
    /// Nothing is fetched ahead; otherwise like `DataSymlink`.
    Plain,
}

/// How a file is to be opened.
#[derive(Debug, Clone, Copy, PartialEq, Eq)]
pub struct OpenOptions {
    /// open for reading
    pub read: bool,
    /// open for writing
    pub write: bool,
    /// open in write-append mode
    pub append: bool,
    /// truncate file first when writing
    pub truncate: bool,
    /// create file if it doesn't exist
    pub create: bool,
    /// must create new file, fail if it already exists.
    pub create_new: bool,
    /// write file total size
    pub size: Option<u64>,
}

impl OpenOptions {
    /// The options with every flag off and no size.
    pub open spec fn closed() -> OpenOptions {
        OpenOptions {
            read: false,
            write: false,
            append: false,
            truncate: false,
            create: false,
            create_new: false,
            size: None,
        }
    }

    /// Nothing is asked for.
    pub fn new() -> (o: OpenOptions)
        ensures
            o == OpenOptions::closed(),
    {
        OpenOptions {
            read: false,
            write: false,
            append: false,
            truncate: false,
            create: false,
            create_new: false,
            size: None,
        }
    }

    /// Reading, and nothing else.
    pub fn read() -> (o: OpenOptions)
        ensures
            o == (OpenOptions { read: true, ..OpenOptions::closed() }),
    {
        OpenOptions {
            read: true,
            write: false,
            append: false,
            truncate: false,
            create: false,
            create_new: false,
            size: None,
        }
    }

    /// Writing, and nothing else.
    pub fn write() -> (o: OpenOptions)
        ensures
            o == (OpenOptions { write: true, ..OpenOptions::closed() }),
    {
        OpenOptions {
            read: false,
            write: true,
            append: false,
            truncate: false,
            create: false,
            create_new: false,
            size: None,
        }
    }
}

impl Default for OpenOptions {
    fn default() -> (o: OpenOptions)
        ensures
            o == OpenOptions::closed(),
    {
        OpenOptions::new()
    }
}

/// The largest count of seconds whose microseconds fit in 64 bits.
pub const MAX_SECS: u64 = 18_446_744_073_708;

/// A point in time: the seconds since the epoch and the nanoseconds into the
/// running second. The nanoseconds stay below a second, and the seconds at or
/// below `MAX_SECS`, so that the time can be counted in microseconds.
#[derive(Debug, Clone, Copy, PartialEq, Eq)]
pub struct DavTime {
    secs: u64,
    nanos: u32,
}

impl DavTime {
    #[verifier::type_invariant]
    spec fn inv(self) -> bool {
        self.secs <= MAX_SECS && self.nanos < 1_000_000_000
    }

    /// The seconds since the epoch.
    pub closed spec fn secs_spec(self) -> u64 {
        self.secs
    }

    /// The nanoseconds into the running second.
    pub closed spec fn nanos_spec(self) -> u32 {
        self.nanos
    }

    /// The microseconds since the epoch.
    pub open spec fn micros_spec(self) -> int {
        self.secs_spec() * 1_000_000 + self.nanos_spec() / 1000
    }

    /// The time with the given seconds and nanoseconds, if it can be
    /// counted in microseconds.
    pub fn new(secs: u64, nanos: u32) -> (t: Option<DavTime>)
        ensures
            t.is_some() == (secs <= MAX_SECS && nanos < 1_000_000_000),
            t matches Some(time) ==> time.secs_spec() == secs && time.nanos_spec() == nanos,
    {
        if secs <= MAX_SECS && nanos < 1_000_000_000 {
            Some(DavTime { secs, nanos })
        } else {
            None
        }
    }

    /// The seconds since the epoch.
    #[verifier::when_used_as_spec(secs_spec)]
    pub fn secs(self) -> (s: u64)
        ensures
            s == self.secs_spec(),
            s <= MAX_SECS,
    {
        proof {
            use_type_invariant(self);
        }
        self.secs
    }

    /// The nanoseconds into the running second.
    #[verifier::when_used_as_spec(nanos_spec)]
    pub fn nanos(self) -> (n: u32)
        ensures
            n == self.nanos_spec(),
            n < 1_000_000_000,
    {
        proof {
            use_type_invariant(self);
        }
        self.nanos
    }

    /// The microseconds since the epoch.
    pub fn micros(self) -> (m: u64)
        ensures
            m == self.micros_spec(),
    {
        proof {
            use_type_invariant(self);
        }
        self.secs * 1_000_000 + (self.nanos / 1000) as u64
    }
}

/// The digit of base 16 that stands for `d`, in lower case.
pub open spec fn hex_char(d: int) -> char {
    if d == 0 {
        '0'
    } else if d == 1 {
        '1'
    } else if d == 2 {
        '2'
    } else if d == 3 {
        '3'
    } else if d == 4 {
        '4'
    } else if d == 5 {
        '5'
    } else if d == 6 {
        '6'
    } else if d == 7 {
        '7'
    } else if d == 8 {
        '8'
    } else if d == 9 {
        '9'
    } else if d == 10 {
        'a'
    } else if d == 11 {
        'b'
    } else if d == 12 {
        'c'
    } else if d == 13 {
        'd'
    } else if d == 14 {
        'e'
    } else {
        'f'
    }
}

/// The number `n` written in base 16, without leading zeros.
pub open spec fn hex_text(n: int) -> Seq<char>
    decreases n,
{
    if n < 16 {
        seq![hex_char(n)]
    } else {
        hex_text(n / 16).push(hex_char(n % 16))
    }
}

/// The entity tag of a node that was last changed `micros` microseconds
/// after the epoch: for a file that is not empty, its length and the time,
/// both in base 16, with a hyphen between them; otherwise the time alone.
pub open spec fn etag_text(is_file: bool, len: u64, micros: int) -> Seq<char> {
    if is_file && len > 0 {
        hex_text(len as int) + seq!['-'] + hex_text(micros)
    } else {
        hex_text(micros)
    }
}

/// The entity tag that is derived from the kind, the size and the time of
/// the last change of a node; there is none where the time is not known.
pub open spec fn etag_of(collection: bool, size: u64, mtime: FsResult<DavTime>) -> Option<
    Seq<char>,
> {
    match mtime {
        Ok(t) => Some(etag_text(!collection, size, t.micros_spec())),
        Err(_) => None,
    }
}

/// What an optional string holds.
pub open spec fn text_view(s: Option<String>) -> Option<Seq<char>> {
    match s {
        Some(t) => Some(t@),
        None => None,
    }
}

fn hex_str(d: u64) -> (s: &'static str)
    requires
        d < 16,
    ensures
        s@ == seq![hex_char(d as int)],
{
    proof {
        reveal_strlit("0");
        reveal_strlit("1");
        reveal_strlit("2");
        reveal_strlit("3");
        reveal_strlit("4");
        reveal_strlit("5");
        reveal_strlit("6");
        reveal_strlit("7");
        reveal_strlit("8");
        reveal_strlit("9");
        reveal_strlit("a");
        reveal_strlit("b");
        reveal_strlit("c");
        reveal_strlit("d");
        reveal_strlit("e");
        reveal_strlit("f");
    }
    let s = if d == 0 {
        "0"
    } else if d == 1 {
        "1"
    } else if d == 2 {
        "2"
    } else if d == 3 {
        "3"
    } else if d == 4 {
        "4"
    } else if d == 5 {
        "5"
    } else if d == 6 {
        "6"
    } else if d == 7 {
        "7"
    } else if d == 8 {
        "8"
    } else if d == 9 {
        "9"
    } else if d == 10 {
        "a"
    } else if d == 11 {
        "b"
    } else if d == 12 {
        "c"
    } else if d == 13 {
        "d"
    } else if d == 14 {
        "e"
    } else {
        "f"
    };
    proof {
        assert(s@ =~= seq![hex_char(d as int)]);
    }
    s
}

/// Appends `n` in base 16 to `out`.
pub fn push_hex(out: &mut String, n: u64)
    ensures
        final(out)@ == old(out)@ + hex_text(n as int),
    decreases n,
{
    if n >= 16 {
        push_hex(out, n / 16);
    }
    let ghost before = out@;
    out.append(hex_str(n % 16));
    proof {
        if n >= 16 {
            assert(before + seq![hex_char((n % 16) as int)] =~= old(out)@ + hex_text(n as int));
        }
    }
}

/// The entity tag of a node; see `etag_text`.
pub fn make_etag(is_file: bool, len: u64, time: DavTime) -> (tag: String)
    ensures
        tag@ == etag_text(is_file, len, time.micros_spec()),
{
    let micros = time.micros();
    let mut tag = String::new();
    if is_file && len > 0 {
        push_hex(&mut tag, len);
        proof {
            reveal_strlit("-");
        }
        tag.append("-");
    }
    push_hex(&mut tag, micros);
    proof {
        assert(tag@ =~= etag_text(is_file, len, time.micros_spec()));
    }
    tag
}

/// The metadata of a node: its kind, its length and some times.
pub trait DavMetaData {
    /// The size of the node.
    spec fn size(&self) -> u64;

    /// Whether the node is a collection.
    spec fn collection(&self) -> bool;

    /// The time of the last change, where the backend knows it.
    spec fn mtime(&self) -> FsResult<DavTime>;

    /// Size of the file.
    fn len(&self) -> (n: u64)
        ensures
            n == self.size(),
    ;

    /// The time of the last change.
    fn modified(&self) -> (t: FsResult<DavTime>)
        ensures
            t == self.mtime(),
    ;

    /// File or directory (that is, collection).
    fn is_dir(&self) -> (b: bool)
        ensures
            b == self.collection(),
    ;

    /// The entity tag, derived from kind, size and time of the last change.
    fn etag(&self) -> (tag: Option<String>)
        ensures
            text_view(tag) == etag_of(self.collection(), self.size(), self.mtime()),
    {
        match self.modified() {
            Ok(t) => Some(make_etag(self.is_file(), self.len(), t)),
            Err(_) => None,
        }
    }

    /// Whether this is a file and not a directory.
    fn is_file(&self) -> (b: bool)
        ensures
            b == !self.collection(),
    {
        !self.is_dir()
    }

    /// Whether this is a symbolic link. If a backend does not say, it is not.
    fn is_symlink(&self) -> (b: bool)
        default_ensures
            !b,
    {
        false
    }

    /// Last access time. If a backend does not say: not implemented.
    fn accessed(&self) -> (t: FsResult<DavTime>)
        default_ensures
            t == Err::<DavTime, FsError>(FsError::NotImplemented),
    {
        Err(FsError::NotImplemented)
    }

    /// Creation time. If a backend does not say: not implemented.
    fn created(&self) -> (t: FsResult<DavTime>)
        default_ensures
            t == Err::<DavTime, FsError>(FsError::NotImplemented),
    {
        Err(FsError::NotImplemented)
    }

    /// Time of the last change of status. If a backend does not say: not
    /// implemented.
    fn status_changed(&self) -> (t: FsResult<DavTime>)
        default_ensures
            t == Err::<DavTime, FsError>(FsError::NotImplemented),
    {
        Err(FsError::NotImplemented)
    }

    /// Whether the file can be executed. If a backend does not say: not
    /// implemented.
    fn executable(&self) -> (b: FsResult<bool>)
        default_ensures
            b == Err::<bool, FsError>(FsError::NotImplemented),
    {
        Err(FsError::NotImplemented)
    }
}

/// The metadata of a node as a plain value: what the engine keeps of a node
/// for the length of one request.
#[derive(Debug, Clone, Copy, PartialEq, Eq)]
pub struct Metadata {
    pub len: u64,
    pub modified: FsResult<DavTime>,
    pub is_dir: bool,
}

impl DavMetaData for Metadata {
    open spec fn size(&self) -> u64 {
        self.len
    }

    open spec fn collection(&self) -> bool {
        self.is_dir
    }

    open spec fn mtime(&self) -> FsResult<DavTime> {
        self.modified
    }

    fn len(&self) -> (n: u64) {
        self.len
    }

    fn modified(&self) -> (t: FsResult<DavTime>) {
        self.modified
    }

    fn is_dir(&self) -> (b: bool) {
        self.is_dir
    }
}

} // verus!
