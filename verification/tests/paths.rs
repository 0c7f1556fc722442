use dav_server::davpath::bytes_eq;
use dav_server::davpath::DavPath;
use dav_server::davpath::ParseError;
use dav_server::percent::hex_digit_of;
use dav_server::percent::hex_value_of;
use dav_server::percent::is_plain_byte;
use dav_server::percent::percent_decode;
use dav_server::percent::percent_encode;

fn path(raw: &str) -> DavPath {
    DavPath::new(raw).unwrap()
}

#[test]
fn root_is_a_collection_without_segments() {
    let p = path("/");
    assert!(p.is_root());
    assert!(p.is_collection());
    assert_eq!(p.depth(), 0);
    assert_eq!(p.file_name(), None);
    assert_eq!(p.as_url(), b"/".to_vec());
    assert_eq!(DavPath::root(), p);
}

#[test]
fn plain_path_keeps_its_segments() {
    let p = path("/foo/bar.txt");
    assert!(!p.is_collection());
    assert_eq!(p.depth(), 2);
    assert_eq!(p.segment(0), b"foo");
    assert_eq!(p.segment(1), b"bar.txt");
    assert_eq!(p.file_name(), Some(&b"bar.txt"[..]));
    assert_eq!(p.as_url(), b"/foo/bar.txt".to_vec());
}

#[test]
fn trailing_separator_marks_a_collection() {
    let p = path("/foo/bar/");
    assert!(p.is_collection());
    assert_eq!(p.depth(), 2);
    assert_eq!(p.as_url(), b"/foo/bar/".to_vec());
}

#[test]
fn dots_and_doubled_separators_are_normalized() {
    let p = path("/a/b/../c/./d//e/");
    assert_eq!(p.depth(), 4);
    assert_eq!(p.segment(0), b"a");
    assert_eq!(p.segment(1), b"c");
    assert_eq!(p.segment(2), b"d");
    assert_eq!(p.segment(3), b"e");
    assert!(p.is_collection());
    assert_eq!(p.as_url(), b"/a/c/d/e/".to_vec());
}

#[test]
fn trailing_dot_segments_do_not_mark_a_collection() {
    let p = path("/a/b/..");
    assert_eq!(p.depth(), 1);
    assert!(!p.is_collection());
    assert_eq!(p.as_url(), b"/a".to_vec());
    let q = path("/a/.");
    assert!(!q.is_collection());
    assert_eq!(q.as_url(), b"/a".to_vec());
}

#[test]
fn climbing_back_to_the_root_gives_the_root() {
    let p = path("/a/..");
    assert!(p.is_root());
    assert!(p.is_collection());
    assert_eq!(p.as_url(), b"/".to_vec());
}

#[test]
fn escapes_are_decoded_once() {
    let p = path("/a%20b/%41%2542");
    assert_eq!(p.segment(0), b"a b");
    assert_eq!(p.segment(1), b"A%42");
    assert_eq!(p.as_url(), b"/a%20b/A%2542".to_vec());
}

#[test]
fn lower_case_escapes_are_read_and_upper_case_written() {
    let p = path("/%c3%a9");
    assert_eq!(p.segment(0), &[0xc3u8, 0xa9u8][..]);
    assert_eq!(p.as_url(), b"/%C3%A9".to_vec());
}

#[test]
fn encoded_dots_count_as_dots() {
    assert_eq!(DavPath::new("/%2e%2e/x"), Err(ParseError::ForbiddenPath));
    let p = path("/a/%2e%2e/b");
    assert_eq!(p.as_url(), b"/b".to_vec());
    let q = path("/a/%2E/b");
    assert_eq!(q.as_url(), b"/a/b".to_vec());
}

#[test]
fn path_above_the_root_is_forbidden() {
    assert_eq!(DavPath::new("/.."), Err(ParseError::ForbiddenPath));
    assert_eq!(DavPath::new("/a/../.."), Err(ParseError::ForbiddenPath));
    assert_eq!(DavPath::new("/a/../../b"), Err(ParseError::ForbiddenPath));
}

#[test]
fn malformed_targets_are_invalid() {
    assert_eq!(DavPath::new(""), Err(ParseError::InvalidPath));
    assert_eq!(DavPath::new("a/b"), Err(ParseError::InvalidPath));
    assert_eq!(DavPath::new("/a%2fb"), Err(ParseError::InvalidPath));
    assert_eq!(DavPath::new("/a%00b"), Err(ParseError::InvalidPath));
    assert_eq!(DavPath::new("/a%zz"), Err(ParseError::InvalidPath));
    assert_eq!(DavPath::new("/a%2"), Err(ParseError::InvalidPath));
    assert_eq!(DavPath::new("/a%"), Err(ParseError::InvalidPath));
    assert_eq!(DavPath::parse(b"/a\x01b"), Err(ParseError::InvalidPath));
    assert_eq!(DavPath::parse(b"/a\x7fb"), Err(ParseError::InvalidPath));
    assert_eq!(DavPath::parse(&[b'/', 0xc3, 0xa9]), Err(ParseError::InvalidPath));
}

#[test]
fn invalid_wins_over_forbidden_when_it_comes_first() {
    assert_eq!(DavPath::new("/%zz/../.."), Err(ParseError::InvalidPath));
    assert_eq!(DavPath::new("/../%zz"), Err(ParseError::ForbiddenPath));
}

#[test]
fn url_round_trips_through_parse() {
    let raws = [
        "/",
        "/a",
        "/a/",
        "/a/b/c.txt",
        "/a%20b/c%2Bd/",
        "/%25/%23%3F",
        "/x/..y/.z/...",
        "/~user/file-name_1.tar.gz",
    ];
    for raw in raws.iter() {
        let p = path(raw);
        let url = p.as_url();
        let again = DavPath::parse(&url).unwrap();
        assert_eq!(again, p);
        assert_eq!(again.as_url(), url);
    }
}

#[test]
fn every_byte_round_trips_in_a_segment() {
    for b in 1u8..=255u8 {
        if b == b'/' {
            continue;
        }
        let mut raw = b"/x".to_vec();
        raw.extend(percent_encode(&[b]));
        let p = DavPath::parse(&raw).unwrap();
        assert_eq!(p.segment(0), &[b'x', b][..]);
        assert_eq!(DavPath::parse(&p.as_url()).unwrap(), p);
    }
}

#[test]
fn added_separator_is_kept_by_the_url() {
    let mut p = path("/new/dir");
    assert!(!p.is_collection());
    assert_eq!(p.as_url(), b"/new/dir".to_vec());
    p.add_slash();
    assert!(p.is_collection());
    assert_eq!(p.as_url(), b"/new/dir/".to_vec());
    assert_eq!(DavPath::parse(&p.as_url()).unwrap(), p);
    p.add_slash();
    assert_eq!(p.as_url(), b"/new/dir/".to_vec());
}

#[test]
fn parent_is_the_holding_collection() {
    assert_eq!(path("/a/b").parent(), path("/a/"));
    assert_eq!(path("/a/b/").parent(), path("/a/"));
    assert_eq!(path("/a").parent(), path("/"));
    assert_eq!(path("/").parent(), path("/"));
}

#[test]
fn ancestors_and_same_nodes() {
    let a = path("/a/");
    let ab = path("/a/b");
    let abc = path("/a/b/c");
    let ax = path("/ax");
    assert!(a.is_ancestor_of(&ab));
    assert!(a.is_ancestor_of(&abc));
    assert!(a.is_ancestor_of(&a));
    assert!(!ab.is_ancestor_of(&a));
    assert!(!a.is_ancestor_of(&ax));
    assert!(path("/").is_ancestor_of(&abc));
    assert!(a.same_node(&path("/a")));
    assert!(!a.same_node(&ab));
    assert_ne!(a, path("/a"));
}

#[test]
fn clone_is_equal() {
    let p = path("/a%20b/c/");
    assert_eq!(p.clone(), p);
}

#[test]
fn percent_encode_exact_values() {
    assert_eq!(percent_encode(b"abc"), b"abc".to_vec());
    assert_eq!(percent_encode(b"a b"), b"a%20b".to_vec());
    assert_eq!(percent_encode(b"a/b"), b"a%2Fb".to_vec());
    assert_eq!(percent_encode(b"100%"), b"100%25".to_vec());
    assert_eq!(percent_encode(&[0u8, 255u8]), b"%00%FF".to_vec());
    assert_eq!(percent_encode(b"-._~!$&'()*+,;=:@"), b"-._~!$&'()*+,;=:@".to_vec());
    assert_eq!(percent_encode(b"?#[]"), b"%3F%23%5B%5D".to_vec());
    assert_eq!(percent_encode(b""), Vec::<u8>::new());
}

#[test]
fn percent_decode_exact_values() {
    assert_eq!(percent_decode(b"a%20b"), Some(b"a b".to_vec()));
    assert_eq!(percent_decode(b"%41%42"), Some(b"AB".to_vec()));
    assert_eq!(percent_decode(b"%fF"), Some(vec![255u8]));
    assert_eq!(percent_decode(b""), Some(Vec::new()));
    assert_eq!(percent_decode(b"%"), None);
    assert_eq!(percent_decode(b"%4"), None);
    assert_eq!(percent_decode(b"%4g"), None);
    assert_eq!(percent_decode(b"abc%"), None);
}

#[test]
fn decode_undoes_encode_on_all_bytes() {
    let all: Vec<u8> = (0u8..=255u8).collect();
    assert_eq!(percent_decode(&percent_encode(&all)), Some(all));
}

#[test]
fn hex_digits_and_values() {
    assert_eq!(hex_digit_of(0), b'0');
    assert_eq!(hex_digit_of(9), b'9');
    assert_eq!(hex_digit_of(10), b'A');
    assert_eq!(hex_digit_of(15), b'F');
    assert_eq!(hex_value_of(b'0'), Some(0));
    assert_eq!(hex_value_of(b'a'), Some(10));
    assert_eq!(hex_value_of(b'F'), Some(15));
    assert_eq!(hex_value_of(b'g'), None);
    assert_eq!(hex_value_of(b'/'), None);
    assert!(is_plain_byte(b'a'));
    assert!(is_plain_byte(b'~'));
    assert!(!is_plain_byte(b'/'));
    assert!(!is_plain_byte(b'%'));
    assert!(!is_plain_byte(b' '));
}

#[test]
fn bytes_eq_compares_contents() {
    assert!(bytes_eq(b"abc", b"abc"));
    assert!(!bytes_eq(b"abc", b"abd"));
    assert!(!bytes_eq(b"abc", b"ab"));
    assert!(bytes_eq(b"", b""));
}
