//! Byte-level path and reference helpers.

use vstd::prelude::*;

use crate::cases::UNDERSCORE;
use crate::template::is_reserved_path_byte;

verus! {

/// `/`
pub const SLASH: u8 = 47;

/// `\`
pub const BACKSLASH: u8 = 92;

pub open spec fn normalize_byte(b: u8) -> u8 {
    if b == BACKSLASH {
        SLASH
    } else {
        b
    }
}

/// The path with every backslash replaced by a forward slash.
pub open spec fn normalize_path_spec(s: Seq<u8>) -> Seq<u8> {
    Seq::new(s.len(), |i: int| normalize_byte(s[i]))
}

/// Normalizes a path string for cross-platform comparison: backslashes
/// become forward slashes.
pub fn normalize_path(path: &[u8]) -> (r: Vec<u8>)
    ensures
        r@ == normalize_path_spec(path@),
{
    let mut out: Vec<u8> = Vec::new();
    let mut p: usize = 0;
    while p < path.len()
        invariant
            p <= path.len(),
            out@ =~= normalize_path_spec(path@).take(p as int),
        decreases path.len() - p,
    {
        let b = path[p];
        out.push(
            if b == BACKSLASH {
                SLASH
            } else {
                b
            },
        );
        proof {
            assert(out@ =~= normalize_path_spec(path@).take(p + 1));
        }
        p += 1;
    }
    proof {
        assert(out@ =~= normalize_path_spec(path@));
    }
    out
}

/// `http://`
pub open spec fn http_prefix() -> Seq<u8> {
    seq![104u8, 116u8, 116u8, 112u8, 58u8, 47u8, 47u8]
}

/// `https://`
pub open spec fn https_prefix() -> Seq<u8> {
    seq![104u8, 116u8, 116u8, 112u8, 115u8, 58u8, 47u8, 47u8]
}

/// The reference names a remote archive rather than a path or a
/// configured template name.
pub open spec fn is_url_spec(s: Seq<u8>) -> bool {
    (s.len() >= 7 && s.subrange(0, 7) == http_prefix()) || (s.len() >= 8 && s.subrange(0, 8)
        == https_prefix())
}

/// A string is a URL when it starts with an HTTP or HTTPS scheme.
pub fn is_url(s: &[u8]) -> (r: bool)
    ensures
        r == is_url_spec(s@),
{
    let http = s.len() >= 7 && s[0] == 104 && s[1] == 116 && s[2] == 116 && s[3] == 112 && s[4]
        == 58 && s[5] == 47 && s[6] == 47;
    let https = s.len() >= 8 && s[0] == 104 && s[1] == 116 && s[2] == 116 && s[3] == 112 && s[4]
        == 115 && s[5] == 58 && s[6] == 47 && s[7] == 47;
    proof {
        if s@.len() >= 7 && s@.subrange(0, 7) == http_prefix() {
            assert(s@[0] == s@.subrange(0, 7)[0]);
            assert(s@[1] == s@.subrange(0, 7)[1]);
            assert(s@[2] == s@.subrange(0, 7)[2]);
            assert(s@[3] == s@.subrange(0, 7)[3]);
            assert(s@[4] == s@.subrange(0, 7)[4]);
            assert(s@[5] == s@.subrange(0, 7)[5]);
            assert(s@[6] == s@.subrange(0, 7)[6]);
        }
        if http {
            assert(s@.subrange(0, 7) =~= http_prefix());
        }
        if s@.len() >= 8 && s@.subrange(0, 8) == https_prefix() {
            assert(s@[0] == s@.subrange(0, 8)[0]);
            assert(s@[1] == s@.subrange(0, 8)[1]);
            assert(s@[2] == s@.subrange(0, 8)[2]);
            assert(s@[3] == s@.subrange(0, 8)[3]);
            assert(s@[4] == s@.subrange(0, 8)[4]);
            assert(s@[5] == s@.subrange(0, 8)[5]);
            assert(s@[6] == s@.subrange(0, 8)[6]);
            assert(s@[7] == s@.subrange(0, 8)[7]);
        }
        if https {
            assert(s@.subrange(0, 8) =~= https_prefix());
        }
    }
    http || https
}

/// A byte a file name may not contain: the reserved path bytes plus
/// path separators and ASCII control bytes.
pub open spec fn is_bad_filename_byte(b: u8) -> bool {
    is_reserved_path_byte(b) || b == SLASH || b == BACKSLASH || b < 32 || b == 127
}

pub open spec fn filename_byte(b: u8) -> u8 {
    if is_bad_filename_byte(b) {
        UNDERSCORE
    } else {
        b
    }
}

/// The file name with every invalid byte replaced by `_`.
pub open spec fn sanitize_filename_spec(s: Seq<u8>) -> Seq<u8> {
    Seq::new(s.len(), |i: int| filename_byte(s[i]))
}

/// Sanitizes a file name: the reserved bytes `< > : " | ? *`, path
/// separators and ASCII control bytes are each replaced by `_`.
pub fn sanitize_filename(filename: &[u8]) -> (r: Vec<u8>)
    ensures
        r@ == sanitize_filename_spec(filename@),
        forall|q: int| 0 <= q < r@.len() ==> !is_bad_filename_byte(#[trigger] r@[q]),
{
    let mut out: Vec<u8> = Vec::new();
    let mut p: usize = 0;
    while p < filename.len()
        invariant
            p <= filename.len(),
            out@ =~= sanitize_filename_spec(filename@).take(p as int),
            forall|q: int| 0 <= q < out@.len() ==> !is_bad_filename_byte(#[trigger] out@[q]),
        decreases filename.len() - p,
    {
        let b = filename[p];
        let c = if b == 60 || b == 62 || b == 58 || b == 34 || b == 124 || b == 63 || b == 42 || b
            == SLASH || b == BACKSLASH || b < 32 || b == 127 {
            UNDERSCORE
        } else {
            b
        };
        out.push(c);
        proof {
            assert(out@ =~= sanitize_filename_spec(filename@).take(p + 1));
        }
        p += 1;
    }
    proof {
        assert(out@ =~= sanitize_filename_spec(filename@));
    }
    out
}

} // verus!
