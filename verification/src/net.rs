use vstd::prelude::*;

use crate::error::RteError;
use crate::strutil::utf8_to_string;

verus! {

/// What `url::Url::parse` extracts from a URL string: the host and the path,
/// or nothing when the string does not parse as a URL with a host. A pure
/// function of the input string.
pub uninterp spec fn url_parts_of(s: Seq<char>) -> Option<(Seq<char>, Seq<char>)>;

/// Relies on url::Url::parse, Url::host_str and Url::path: for one input
/// string they always yield one host/path pair, or fail.
#[verifier::external_body]
pub(crate) fn split_url(s: &str) -> (r: Option<(String, String)>)
    ensures
        match r {
            Some(hp) => url_parts_of(s@) == Some((hp.0@, hp.1@)),
            None => url_parts_of(s@) is None,
        },
{
    match url::Url::parse(s) {
        Ok(u) => match u.host_str() {
            Some(h) => {
                let host = h.to_string();
                let path = u.path().to_string();
                Some((host, path))
            },
            None => None,
        },
        Err(_) => None,
    }
}

/// A byte that percent-encoding leaves as itself: an ASCII alphanumeric or
/// one of `-`, `.`, `_`, `~`.
pub open spec fn url_unreserved(b: u8) -> bool {
    (0x30 <= b <= 0x39) || (0x41 <= b <= 0x5a) || (0x61 <= b <= 0x7a) || b == 0x2d || b == 0x2e
        || b == 0x5f || b == 0x7e
}

/// The uppercase hexadecimal digit character for a value below sixteen.
pub open spec fn hex_char(d: nat) -> char {
    if d < 10 {
        crate::error::digit_char(d)
    } else if d == 10 {
        'A'
    } else if d == 11 {
        'B'
    } else if d == 12 {
        'C'
    } else if d == 13 {
        'D'
    } else if d == 14 {
        'E'
    } else {
        'F'
    }
}

/// The percent-encoded form of a byte sequence: each unreserved byte stands
/// as its own character, every other byte as `%` and two uppercase hex
/// digits.
pub open spec fn url_encoded_bytes(bytes: Seq<u8>) -> Seq<char>
    decreases bytes.len(),
{
    if bytes.len() == 0 {
        Seq::<char>::empty()
    } else {
        let b = bytes[0];
        (if url_unreserved(b) {
            seq![b as char]
        } else {
            seq!['%', hex_char((b / 16) as nat), hex_char((b % 16) as nat)]
        }) + url_encoded_bytes(bytes.drop_first())
    }
}

/// What `urlencoding::encode` returns: the percent-encoded form of the
/// string's UTF-8 bytes.
pub open spec fn url_encoded_of(s: Seq<char>) -> Seq<char> {
    url_encoded_bytes(vstd::utf8::encode_utf8(s))
}

/// Relies on urlencoding::encode: percent-encodes every byte of the UTF-8
/// form outside the unreserved set `A-Z a-z 0-9 - . _ ~` as `%` and two
/// uppercase hex digits, so a project path can stand as a single URL path
/// segment.
#[verifier::external_body]
pub(crate) fn url_encode(s: &str) -> (r: String)
    ensures
        r@ == url_encoded_of(s@),
{
    urlencoding::encode(s).into_owned()
}

/// The response body text used in error reports: the body decoded as UTF-8,
/// or empty if it is not text.
pub open spec fn body_text_of(body: Seq<u8>) -> Seq<char> {
    if vstd::utf8::valid_utf8(body) {
        vstd::utf8::decode_utf8(body)
    } else {
        Seq::<char>::empty()
    }
}

/// Applies the shared fetch contract to a response: a 2xx status hands the
/// body through; any other status is fatal, with the body text in the error.
pub fn check_response(url: &str, status: u16, body: Vec<u8>) -> (r: Result<Vec<u8>, RteError>)
    ensures
        match r {
            Ok(b) => 200 <= status < 300 && b@ == body@,
            Err(e) => !(200 <= status < 300) && (e matches RteError::Http {
                url: u,
                status: st,
                body: bt,
            } && u@ == url@ && st == status && bt@ == body_text_of(body@)),
        },
{
    if 200 <= status && status < 300 {
        Ok(body)
    } else {
        let text = match utf8_to_string(body.as_slice()) {
            Some(t) => t,
            None => String::new(),
        };
        Err(RteError::Http { url: url.to_owned(), status, body: text })
    }
}

/// A path with every leading slash removed, as `str::trim_start_matches('/')`
/// leaves it.
pub open spec fn trim_leading_slashes(s: Seq<char>) -> Seq<char>
    decreases s.len(),
{
    if s.len() > 0 && s[0] == '/' {
        trim_leading_slashes(s.drop_first())
    } else {
        s
    }
}

proof fn lemma_trim_leading_slashes(s: Seq<char>, k: int)
    requires
        0 <= k <= s.len(),
        forall|j: int| 0 <= j < k ==> s[j] == '/',
        k == s.len() || s[k as int] != '/',
    ensures
        trim_leading_slashes(s) == s.skip(k),
    decreases k,
{
    if k == 0 {
        assert(s.skip(0) =~= s);
    } else {
        assert(s[0] == '/');
        lemma_trim_leading_slashes(s.drop_first(), k - 1);
        assert(s.drop_first().skip(k - 1) =~= s.skip(k));
    }
}

/// Removes every leading slash, as `str::trim_start_matches('/')` does.
pub fn trim_slashes(s: &str) -> (r: String)
    ensures
        r@ == trim_leading_slashes(s@),
{
    let n = s.unicode_len();
    let mut k: usize = 0;
    while k < n && s.get_char(k) == '/'
        invariant
            n == s@.len(),
            0 <= k <= n,
            forall|j: int| 0 <= j < k ==> s@[j] == '/',
        decreases n - k,
    {
        k = k + 1;
    }
    proof {
        lemma_trim_leading_slashes(s@, k as int);
        assert(s@.subrange(k as int, n as int) =~= s@.skip(k as int));
    }
    s.substring_char(k, n).to_owned()
}

/// Splitting an optional `@ref` suffix off a project path, at the *last* `@`.
pub open spec fn ref_split(path: Seq<char>) -> (Seq<char>, Option<Seq<char>>) {
    match path.index_of_last('@') {
        Some(i) => (path.take(i), Some(path.skip(i + 1))),
        None => (path, None),
    }
}

/// Splits `path` at the last `@`, as the scheme-URL grammar asks: the part
/// before it is the project coordinate, the part after it the optional ref.
pub fn split_at_last_at(path: &str) -> (r: (String, Option<String>))
    ensures
        r.0@ == ref_split(path@).0,
        match (r.1, ref_split(path@).1) {
            (Some(a), Some(b)) => a@ == b,
            (None, None) => true,
            _ => false,
        },
{
    let n = path.unicode_len();
    match crate::strutil::rfind_char(path, '@') {
        Some(i) => {
            proof {
                path@.index_of_last_ensures('@');
                match path@.index_of_last('@') {
                    Some(j) => {
                        if j < i {
                            assert(path@[i as int] == '@');
                        }
                        if j > i {
                            assert(path@[j] != '@');
                        }
                        assert(j == i);
                    },
                    None => {
                        assert(path@.contains(path@[i as int]));
                        assert(false);
                    },
                }
                assert(path@.subrange(0, i as int) =~= path@.take(i as int));
                assert(path@.subrange(i + 1, n as int) =~= path@.skip(i + 1));
            }
            let before = path.substring_char(0, i).to_owned();
            let after = path.substring_char(i + 1, n).to_owned();
            (before, Some(after))
        },
        None => {
            proof {
                path@.index_of_last_ensures('@');
                match path@.index_of_last('@') {
                    Some(j) => {
                        assert(path@[j] != '@');
                        assert(false);
                    },
                    None => {},
                }
            }
            (path.to_owned(), None)
        },
    }
}

} // verus!
