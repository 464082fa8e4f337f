//! Path and URL helpers: sanitizing report directory segments, escaping
//! URL path segments, and building the URL a run's reports are served
//! under.
use vstd::prelude::*;

use vstd::string::StringSliceAdditionalSpecFns;

use crate::error::Error;

verus! {

/// What sanitizing turns a path segment into. The sanitizer's character
/// rules take pages; the result is a function of the segment alone.
pub uninterp spec fn sanitized_of(s: Seq<char>) -> Seq<char>;

/// Sanitizes one path segment (directory or file name) by replacing
/// characters invalid in file names with underscores.
///
/// Relies on sanitize_filename::sanitize_with_options with replacement
/// `_`, truncation on and the platform-independent (non-Windows)
/// character rules, so the result depends on the segment alone; every
/// `/` is among the replaced characters, so the result never holds one.
#[verifier::external_body]
pub fn sanitize_path_segment(segment: &str) -> (r: String)
    ensures
        r@ == sanitized_of(segment@),
        forall|i: int| 0 <= i < r@.len() ==> r@[i] != '/',
{
    let options = sanitize_filename::Options { windows: false, truncate: true, replacement: "_" };
    sanitize_filename::sanitize_with_options(segment, options)
}

/// The local path a list of raw segments maps to: each segment
/// sanitized, joined with `/`.
pub open spec fn local_path_of(segs: Seq<Seq<char>>) -> Seq<char>
    decreases segs.len(),
{
    if segs.len() == 0 {
        Seq::empty()
    } else if segs.len() == 1 {
        sanitized_of(segs[0])
    } else {
        local_path_of(segs.drop_last()) + seq!['/'] + sanitized_of(segs.last())
    }
}

/// Builds a relative filesystem path from raw name segments, sanitizing
/// each one.
pub fn new_local_path(segments: &[&str]) -> (r: String)
    ensures
        r@ == local_path_of(segments@.map_values(|s: &str| s@)),
{
    let ghost views = segments@.map_values(|s: &str| s@);
    let mut out = String::new();
    let n = segments.len();
    let mut i: usize = 0;
    proof {
        assert(views.take(0) =~= Seq::<Seq<char>>::empty());
        assert(out@ =~= local_path_of(views.take(0)));
    }
    while i < n
        invariant
            0 <= i <= n,
            n == segments@.len(),
            views == segments@.map_values(|s: &str| s@),
            out@ == local_path_of(views.take(i as int)),
        decreases n - i,
    {
        if i > 0 {
            out.append("/");
            proof {
                reveal_strlit("/");
                assert("/"@ =~= seq!['/']);
            }
        }
        let piece = sanitize_path_segment(segments[i]);
        out.append(piece.as_str());
        proof {
            assert(views.take(i + 1).drop_last() =~= views.take(i as int));
            assert(views.take(i + 1).last() == views[i as int]);
            assert(out@ =~= local_path_of(views.take(i + 1)));
        }
        i = i + 1;
    }
    proof {
        assert(views.take(n as int) =~= views);
    }
    out
}

/// Whether a byte is an ASCII letter or digit.
pub open spec fn is_alnum_byte(b: u8) -> bool {
    (0x30 <= b && b <= 0x39) || (0x41 <= b && b <= 0x5a) || (0x61 <= b && b <= 0x7a)
}

/// The uppercase hexadecimal digit for a value below sixteen.
pub open spec fn hex_digit(d: nat) -> char {
    if d < 10 {
        crate::text::digit_char(d)
    } else {
        (((d - 10) + 0x41) as u8) as char
    }
}

/// How percent-encoding writes one byte: letters and digits stand as
/// they are, every other byte becomes `%` and two uppercase hex digits.
pub open spec fn percent_byte(b: u8) -> Seq<char> {
    if is_alnum_byte(b) {
        seq![b as char]
    } else {
        seq!['%', hex_digit((b / 16) as nat), hex_digit((b % 16) as nat)]
    }
}

/// How percent-encoding writes a byte string.
pub open spec fn percent_chars(bs: Seq<u8>) -> Seq<char>
    decreases bs.len(),
{
    if bs.len() == 0 {
        Seq::empty()
    } else {
        percent_byte(bs[0]) + percent_chars(bs.drop_first())
    }
}

/// Relies on percent_encoding::percent_encode with the set that keeps
/// only ASCII letters and digits: every non-alphanumeric byte of the
/// input, and every non-ASCII byte, is written as `%` and two uppercase
/// hex digits.
#[verifier::external_body]
fn percent_encode_bytes(bytes: &[u8]) -> (r: String)
    ensures
        r@ == percent_chars(bytes@),
{
    percent_encoding::percent_encode(bytes, percent_encoding::NON_ALPHANUMERIC).to_string()
}

/// Escapes one URL path segment: every byte of its encoding that is not
/// an ASCII letter or digit is percent-encoded.
pub fn sanitize_url_path_segment(segment: &str) -> (r: String)
    ensures
        r@ == percent_chars(segment.spec_bytes()),
{
    percent_encode_bytes(segment.as_bytes())
}

/// What resolving an escaped segment against a base URL returns, when
/// the base parses and the segment resolves.
pub uninterp spec fn url_joined(base: Seq<char>, seg: Seq<char>) -> Option<Seq<char>>;

/// Relies on url::Url::parse and url::Url::join: both read only their
/// string arguments, so the joined URL's text is a function of the two
/// strings alone; parse or join failures are the error case.
#[verifier::external_body]
pub(crate) fn url_join(base: &str, seg: &str) -> (r: Option<String>)
    ensures
        match r {
            Some(u) => url_joined(base@, seg@) == Some(u@),
            None => url_joined(base@, seg@) == None::<Seq<char>>,
        },
{
    match url::Url::parse(base) {
        Ok(u) => match u.join(seg) {
            Ok(j) => Some(String::from(j.as_str())),
            Err(_) => None,
        },
        Err(_) => None,
    }
}

/// How one raw segment stands in a URL: its encoding percent-escaped.
pub open spec fn escaped_segment(s: Seq<char>) -> Seq<char> {
    percent_chars(vstd::utf8::encode_utf8(s))
}

/// The URL a chain of raw path segments resolves to, each escaped and
/// joined in turn, when every join succeeds.
pub open spec fn url_chain(base: Seq<char>, segs: Seq<Seq<char>>) -> Option<Seq<char>>
    decreases segs.len(),
{
    if segs.len() == 0 {
        Some(base)
    } else {
        match url_joined(base, escaped_segment(segs[0])) {
            None => None,
            Some(b2) => url_chain(b2, segs.drop_first()),
        }
    }
}

/// Appends a relative filesystem path to the reports base URL, escaping
/// each segment; fails exactly when the base does not parse as a URL or
/// a segment does not resolve against it.
pub fn reports_url(base: &str, segments: &[&str]) -> (r: Result<String, Error>)
    ensures
        match r {
            Ok(u) => url_chain(base@, segments@.map_values(|s: &str| s@)) == Some(u@),
            Err(e) => e == Error::UrlParse && url_chain(
                base@,
                segments@.map_values(|s: &str| s@),
            ) == None::<Seq<char>>,
        },
{
    let ghost views = segments@.map_values(|s: &str| s@);
    let mut cur = base.to_owned();
    let n = segments.len();
    let mut i: usize = 0;
    proof {
        assert(views.skip(0) =~= views);
    }
    while i < n
        invariant
            0 <= i <= n,
            n == segments@.len(),
            views == segments@.map_values(|s: &str| s@),
            url_chain(base@, views) == url_chain(cur@, views.skip(i as int)),
        decreases n - i,
    {
        let escaped = sanitize_url_path_segment(segments[i]);
        proof {
            assert(views.skip(i as int)[0] == views[i as int]);
            assert(escaped@ == escaped_segment(views[i as int]));
            assert(views.skip(i as int).drop_first() =~= views.skip(i + 1));
        }
        match url_join(cur.as_str(), escaped.as_str()) {
            Some(next) => {
                cur = next;
            },
            None => {
                return Err(Error::UrlParse);
            },
        }
        i = i + 1;
    }
    proof {
        assert(views.skip(n as int).len() == 0);
    }
    Ok(cur)
}

/// Two path pieces joined with a separator, as the filesystem library
/// writes them.
pub open spec fn path_join(a: Seq<char>, b: Seq<char>) -> Seq<char> {
    if a.len() == 0 {
        b
    } else if a.last() == '/' {
        a + b
    } else {
        a + seq!['/'] + b
    }
}

/// An already absolute path stands alone; a relative one is resolved
/// against the repository root.
pub open spec fn spec_relative_to_repo(root: Seq<char>, p: Seq<char>) -> Seq<char> {
    if p.len() > 0 && p[0] == '/' {
        p
    } else {
        path_join(root, p)
    }
}

/// Maps a possibly relative path to an absolute one under the checked
/// out repository root.
pub fn make_relative_to_repo(root: &str, p: &str) -> (r: Option<String>)
    ensures
        r matches Some(a) && a@ == spec_relative_to_repo(root@, p@),
{
    let plen = p.unicode_len();
    if plen > 0 && p.get_char(0) == '/' {
        Some(p.to_owned())
    } else {
        let rlen = root.unicode_len();
        let mut out = root.to_owned();
        if rlen > 0 {
            if root.get_char(rlen - 1) != '/' {
                out.append("/");
                proof {
                    reveal_strlit("/");
                    assert("/"@ =~= seq!['/']);
                }
            }
            out.append(p);
            proof {
                assert(root@.last() == root@[rlen - 1]);
                assert(out@ =~= spec_relative_to_repo(root@, p@));
            }
            Some(out)
        } else {
            Some(p.to_owned())
        }
    }
}

/// The colon-separated path list with each piece resolved against the
/// repository root.
pub open spec fn spec_resolved_list(root: Seq<char>, pieces: Seq<Seq<char>>) -> Seq<char>
    decreases pieces.len(),
{
    if pieces.len() == 0 {
        Seq::empty()
    } else if pieces.len() == 1 {
        spec_relative_to_repo(root, pieces[0])
    } else {
        spec_resolved_list(root, pieces.drop_last()) + seq![':'] + spec_relative_to_repo(
            root,
            pieces.last(),
        )
    }
}

/// The colon-separated pieces of a path list value.
pub open spec fn colon_pieces(v: Seq<char>) -> Seq<Seq<char>>
    decreases v.len(),
{
    let i = crate::parser::idx_of(v, ':');
    if 0 <= i < v.len() {
        seq![v.take(i)] + colon_pieces(v.skip(i + 1))
    } else {
        seq![v]
    }
}

/// Resolves every piece of a colon-separated path list against the
/// repository root, keeping the order and the separators.
pub fn resolve_path_list(root: &str, value: &str) -> (r: String)
    ensures
        r@ == spec_resolved_list(root@, colon_pieces(value@)),
{
    let len = value.unicode_len();
    let mut out = String::new();
    let mut start: usize = 0;
    let mut first = true;
    let ghost pieces = colon_pieces(value@);
    let ghost mut done: int = 0;
    proof {
        assert(value@.skip(0) =~= value@);
        assert(pieces.skip(0) =~= pieces);
        assert(pieces.take(0) =~= Seq::<Seq<char>>::empty());
        assert(out@ =~= spec_resolved_list(root@, pieces.take(0)));
    }
    loop
        invariant_except_break
            0 <= start <= len,
            len == value@.len(),
            pieces == colon_pieces(value@),
            0 <= done <= pieces.len(),
            first <==> done == 0,
            done < pieces.len(),
            colon_pieces(value@.skip(start as int)) =~= pieces.skip(done),
            out@ == spec_resolved_list(root@, pieces.take(done)),
        ensures
            out@ == spec_resolved_list(root@, pieces),
        decreases len - start,
    {
        let e = crate::parser::find_char(value, start, ':');
        proof {
            crate::parser::lemma_idx_of_is_from(value@, start as int, e as int, ':');
        }
        let piece = value.substring_char(start, e);
        proof {
            assert(piece@ =~= value@.skip(start as int).take(e - start));
        }
        let resolved = match make_relative_to_repo(root, piece) {
            Some(a) => a,
            None => String::new(),
        };
        if !first {
            out.append(":");
            proof {
                reveal_strlit(":");
                assert(":"@ =~= seq![':']);
            }
        }
        out.append(resolved.as_str());
        proof {
            let tail = value@.skip(start as int);
            assert(pieces.skip(done)[0] == tail.take(crate::parser::idx_of(tail, ':')));
            assert(pieces[done] == piece@);
            assert(pieces.take(done + 1).drop_last() =~= pieces.take(done));
            assert(pieces.take(done + 1).last() == pieces[done]);
            assert(out@ =~= spec_resolved_list(root@, pieces.take(done + 1)));
        }
        proof {
            done = done + 1;
        }
        first = false;
        if e >= len {
            proof {
                let tail = value@.skip(start as int);
                assert(crate::parser::idx_of(tail, ':') == tail.len());
                assert(colon_pieces(tail) =~= seq![tail]);
                assert(pieces.skip(done - 1).len() == 1);
                assert(done == pieces.len());
                assert(pieces.take(done) =~= pieces);
            }
            break ;
        }
        proof {
            let tail = value@.skip(start as int);
            let idx = crate::parser::idx_of(tail, ':');
            assert(colon_pieces(tail) =~= seq![tail.take(idx)] + colon_pieces(tail.skip(idx + 1)));
            assert(colon_pieces(tail) == pieces.skip(done - 1));
            assert(pieces.skip(done) =~= pieces.skip(done - 1).drop_first());
            assert((seq![tail.take(idx)] + colon_pieces(tail.skip(idx + 1))).drop_first()
                =~= colon_pieces(tail.skip(idx + 1)));
            assert(tail.skip(idx + 1) =~= value@.skip(e + 1));
            assert(colon_pieces(value@.skip(e + 1)) =~= pieces.skip(done));
        }
        start = e + 1;
    }
    out
}

} // verus!
