//! Names of cache entries and recognition of cloud-optimized tiles, from a
//! tile's URL.
use vstd::prelude::*;
use vstd::string::StrSliceExecFns;
use vstd::string::StringSliceAdditionalSpecFns;

verus! {

/// The last segment of a URL's path, as the `url` crate parses it; `None`
/// when the text is not a URL with a hierarchical path.
pub uninterp spec fn url_last_segment(url: Seq<char>) -> Option<Seq<char>>;

/// `dir` joined with the relative file name `name`, as `std::path` joins them.
pub uninterp spec fn path_join(dir: Seq<char>, name: Seq<char>) -> Seq<char>;

pub open spec fn opt_str_view(o: Option<String>) -> Option<Seq<char>> {
    match o {
        Some(s) => Some(s@),
        None => None,
    }
}

/// Relies on `url::Url::parse`, `Url::path_segments` and the segments'
/// `last`: the last path segment of a parsed URL.
#[verifier::external_body]
fn last_path_segment(url: &str) -> (r: Option<String>)
    ensures
        opt_str_view(r) == url_last_segment(url@),
{
    url::Url::parse(url).ok().and_then(|u| u.path_segments().and_then(|s| s.last().map(String::from)))
}

/// Relies on `std::path::Path::join`: `dir` followed by the file name `name`.
#[verifier::external_body]
pub(crate) fn join_path(dir: &str, name: &str) -> (r: String)
    ensures
        r@ == path_join(dir@, name@),
{
    std::path::Path::new(dir).join(name).to_string_lossy().into_owned()
}

/// Relies on `FromIterator<char> for String`: the characters in order.
#[verifier::external_body]
fn string_from_chars(chars: Vec<char>) -> (r: String)
    ensures
        r@ == chars@,
{
    chars.into_iter().collect()
}

pub open spec fn safe_char(c: char) -> bool {
    ('a' <= c && c <= 'z') || ('A' <= c && c <= 'Z') || ('0' <= c && c <= '9') || c == '.' || c == '_'
        || c == '-'
}

/// `s` with every character but ASCII letters, digits, `.`, `_` and `-`
/// replaced by `_`.
pub open spec fn sanitize(s: Seq<char>) -> Seq<char> {
    Seq::new(s.len(), |i: int| if safe_char(s[i]) { s[i] } else { '_' })
}

pub open spec fn hex_alphabet() -> Seq<char> {
    seq!['0', '1', '2', '3', '4', '5', '6', '7', '8', '9', 'a', 'b', 'c', 'd', 'e', 'f']
}

/// The last `k` hexadecimal digits of `n`, most significant first.
pub open spec fn hex_digits(n: nat, k: nat) -> Seq<char>
    decreases k,
{
    if k == 0 {
        Seq::empty()
    } else {
        hex_digits(n / 16, (k - 1) as nat).push(hex_alphabet()[(n % 16) as int])
    }
}

pub open spec fn unnamed_prefix() -> Seq<char> {
    seq!['u', 'n', 'n', 'a', 'm', 'e', 'd', '_']
}

pub open spec fn laz_extension() -> Seq<char> {
    seq!['.', 'l', 'a', 'z']
}

/// The cache file name for a URL of `url_len` bytes: its last path segment,
/// sanitized, or `unnamed_<16 hex digits of url_len>.laz` when that is empty.
pub open spec fn cache_file_name_spec(url: Seq<char>, url_len: nat) -> Seq<char> {
    let seg = match url_last_segment(url) {
        Some(s) => sanitize(s),
        None => Seq::empty(),
    };
    if seg.len() == 0 {
        unnamed_prefix() + hex_digits(url_len, 16) + laz_extension()
    } else {
        seg
    }
}

fn push_hex(out: &mut Vec<char>, n: u64, k: usize)
    ensures
        final(out)@ == old(out)@ + hex_digits(n as nat, k as nat),
    decreases k,
{
    if k > 0 {
        push_hex(out, n / 16, k - 1);
        let alphabet: [char; 16] = [
            '0',
            '1',
            '2',
            '3',
            '4',
            '5',
            '6',
            '7',
            '8',
            '9',
            'a',
            'b',
            'c',
            'd',
            'e',
            'f',
        ];
        assert(alphabet@ =~= hex_alphabet());
        let ghost before = out@;
        out.push(alphabet[(n % 16) as usize]);
        assert(out@ =~= before + seq![hex_alphabet()[(n % 16) as int]]);
        assert(hex_digits(n as nat, k as nat) == hex_digits((n / 16) as nat, (k - 1) as nat).push(
            hex_alphabet()[(n % 16) as int],
        ));
        assert(old(out)@ + hex_digits(n as nat, k as nat) =~= old(out)@ + hex_digits(
            (n / 16) as nat,
            (k - 1) as nat,
        ) + seq![hex_alphabet()[(n % 16) as int]]);
    } else {
        assert(old(out)@ + hex_digits(n as nat, 0) =~= old(out)@);
    }
}

fn is_safe_char(c: char) -> (r: bool)
    ensures
        r == safe_char(c),
{
    ('a' <= c && c <= 'z') || ('A' <= c && c <= 'Z') || ('0' <= c && c <= '9') || c == '.' || c == '_'
        || c == '-'
}

/// The file name under which the tile at `url` is cached: the URL's last path
/// segment with unsafe characters replaced by `_`, or a name made from the
/// URL's length when nothing is left.
pub fn cache_file_name(url: &str) -> (r: String)
    ensures
        r@ == cache_file_name_spec(url@, url.spec_bytes().len()),
{
    let mut out: Vec<char> = Vec::new();
    match last_path_segment(url) {
        Some(seg) => {
            let s = seg.as_str();
            let n = s.unicode_len();
            let mut i: usize = 0;
            while i < n
                invariant
                    i <= n,
                    n == s@.len(),
                    s@ == seg@,
                    out@ == sanitize(s@).take(i as int),
                decreases n - i,
            {
                let c = s.get_char(i);
                let ghost before = out@;
                if is_safe_char(c) {
                    out.push(c);
                } else {
                    out.push('_');
                }
                assert(out@ =~= sanitize(s@).take(i + 1));
                i += 1;
            }
            assert(sanitize(s@).take(n as int) =~= sanitize(s@));
        },
        None => {},
    }
    let ghost seg_view: Seq<char> = match url_last_segment(url@) {
        Some(t) => sanitize(t),
        None => Seq::empty(),
    };
    assert(out@ =~= seg_view);
    if out.len() == 0 {
        let mut name: Vec<char> = Vec::new();
        name.push('u');
        name.push('n');
        name.push('n');
        name.push('a');
        name.push('m');
        name.push('e');
        name.push('d');
        name.push('_');
        assert(name@ =~= unnamed_prefix());
        let len: usize = url.as_bytes().len();
        assert(len as nat == url.spec_bytes().len());
        push_hex(&mut name, len as u64, 16);
        let ghost mid = name@;
        name.push('.');
        name.push('l');
        name.push('a');
        name.push('z');
        assert(name@ =~= mid + laz_extension());
        string_from_chars(name)
    } else {
        string_from_chars(out)
    }
}

/// The cache path of the tile at `url` inside the directory `cache_dir`.
pub fn cache_path_for_url(cache_dir: &str, url: &str) -> (r: String)
    ensures
        r@ == path_join(cache_dir@, cache_file_name_spec(url@, url.spec_bytes().len())),
{
    let name = cache_file_name(url);
    join_path(cache_dir, name.as_str())
}

pub open spec fn occurs_at(s: Seq<char>, pat: Seq<char>, i: int) -> bool {
    0 <= i && i + pat.len() <= s.len() && s.subrange(i, i + pat.len()) == pat
}

pub open spec fn copc_marker() -> Seq<char> {
    seq!['.', 'c', 'o', 'p', 'c', '.']
}

pub open spec fn copc_extension() -> Seq<char> {
    seq!['.', 'c', 'o', 'p', 'c', '.', 'l', 'a', 'z']
}

/// A URL names a cloud-optimized tile when it ends in `.copc.laz` or holds
/// `.copc.` anywhere.
pub open spec fn is_copc_url_spec(s: Seq<char>) -> bool {
    (s.len() >= 9 && occurs_at(s, copc_extension(), s.len() - 9)) || exists|i: int|
        occurs_at(s, copc_marker(), i)
}

fn occurs_at_exec(s: &str, n: usize, pat: &[char], i: usize) -> (r: bool)
    requires
        n == s@.len(),
    ensures
        r == occurs_at(s@, pat@, i as int),
{
    if pat.len() > n || i > n - pat.len() {
        return false;
    }
    let mut k: usize = 0;
    while k < pat.len()
        invariant
            k <= pat@.len(),
            i + pat@.len() <= n,
            n == s@.len(),
            forall|t: int| 0 <= t < k ==> s@[i + t] == pat@[t],
        decreases pat@.len() - k,
    {
        if s.get_char(i + k) != pat[k] {
            assert(s@.subrange(i as int, i + pat@.len())[k as int] != pat@[k as int]);
            return false;
        }
        k += 1;
    }
    assert(s@.subrange(i as int, i + pat@.len()) =~= pat@);
    true
}

/// Whether `url` names a cloud-optimized (hierarchical) tile.
pub fn is_copc_url(url: &str) -> (r: bool)
    ensures
        r == is_copc_url_spec(url@),
{
    let n = url.unicode_len();
    let extension: [char; 9] = ['.', 'c', 'o', 'p', 'c', '.', 'l', 'a', 'z'];
    let marker: [char; 6] = ['.', 'c', 'o', 'p', 'c', '.'];
    assert(extension@ =~= copc_extension());
    assert(marker@ =~= copc_marker());
    if n >= 9 && occurs_at_exec(url, n, extension.as_slice(), n - 9) {
        return true;
    }
    let mut i: usize = 0;
    while i < n
        invariant
            i <= n,
            n == url@.len(),
            marker@ == copc_marker(),
            forall|j: int| 0 <= j < i ==> !occurs_at(url@, copc_marker(), j),
        decreases n - i,
    {
        if occurs_at_exec(url, n, marker.as_slice(), i) {
            return true;
        }
        i += 1;
    }
    assert forall|j: int| !occurs_at(url@, copc_marker(), j) by {
        if 0 <= j < i {
        }
    }
    false
}

} // verus!
