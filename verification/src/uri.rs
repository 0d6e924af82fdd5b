//! Deriving a filesystem path from a `file://` document identity, with
//! percent-decoding of escaped bytes.
use vstd::prelude::*;

use crate::text::lit_vec;
use crate::text::spec_starts_with;
use crate::text::starts_with_bytes;

verus! {

/// The value of one hexadecimal digit, if `b` is one.
pub open spec fn hex_nibble(b: u8) -> Option<u8> {
    if '0' as u8 <= b && b <= '9' as u8 {
        Some((b - '0' as u8) as u8)
    } else if 'a' as u8 <= b && b <= 'f' as u8 {
        Some((b - 'a' as u8 + 10) as u8)
    } else if 'A' as u8 <= b && b <= 'F' as u8 {
        Some((b - 'A' as u8 + 10) as u8)
    } else {
        None
    }
}

pub fn hex_nibble_exec(b: u8) -> (r: Option<u8>)
    ensures
        r == hex_nibble(b),
{
    if '0' as u8 <= b && b <= '9' as u8 {
        Some(b - '0' as u8)
    } else if 'a' as u8 <= b && b <= 'f' as u8 {
        Some(b - 'a' as u8 + 10)
    } else if 'A' as u8 <= b && b <= 'F' as u8 {
        Some(b - 'A' as u8 + 10)
    } else {
        None
    }
}

/// `s` with every `%XY` escape replaced by its byte; malformed escapes
/// pass through unchanged.
pub open spec fn percent_decode_seq(s: Seq<u8>) -> Seq<u8>
    decreases s.len(),
{
    if s.len() == 0 {
        Seq::empty()
    } else if s[0] == '%' as u8 && s.len() >= 3 && hex_nibble(s[1]) is Some && hex_nibble(s[2]) is Some {
        seq![((hex_nibble(s[1]).unwrap() * 16 + hex_nibble(s[2]).unwrap()) as u8)]
            + percent_decode_seq(s.skip(3))
    } else {
        seq![s[0]] + percent_decode_seq(s.skip(1))
    }
}

/// The scheme prefix of a file document identity.
pub open spec fn file_scheme() -> Seq<u8> {
    "file://"@.map_values(|c: char| c as u8)
}

/// The path named by a file identity: the identity without its scheme,
/// percent-decoded. Identities under another scheme have no path.
pub open spec fn spec_file_uri_to_path(u: Seq<u8>) -> Option<Seq<u8>> {
    if spec_starts_with(u, file_scheme()) {
        Some(percent_decode_seq(u.skip(file_scheme().len() as int)))
    } else {
        None
    }
}

/// Percent-decode a byte string.
pub fn percent_decode(s: &Vec<u8>) -> (r: Vec<u8>)
    ensures
        r@ == percent_decode_seq(s@),
{
    let mut out: Vec<u8> = Vec::new();
    let mut i: usize = 0;
    proof {
        assert(s@.skip(0) =~= s@);
    }
    while i < s.len()
        invariant
            i <= s@.len(),
            out@ + percent_decode_seq(s@.skip(i as int)) == percent_decode_seq(s@),
        decreases s@.len() - i,
    {
        let ghost rest = s@.skip(i as int);
        proof {
            assert(rest[0] == s@[i as int]);
            if rest.len() >= 3 {
                assert(rest[1] == s@[i + 1]);
                assert(rest[2] == s@[i + 2]);
            }
        }
        if s[i] == '%' as u8 && s.len() - i > 2 {
            let h1 = hex_nibble_exec(s[i + 1]);
            let h2 = hex_nibble_exec(s[i + 2]);
            match (h1, h2) {
                (Some(a), Some(b)) => {
                    out.push(a * 16 + b);
                    proof {
                        assert(rest.skip(3) =~= s@.skip(i + 3));
                        assert(percent_decode_seq(rest) == seq![((a * 16 + b) as u8)]
                            + percent_decode_seq(s@.skip(i + 3)));
                        assert(out@ + percent_decode_seq(s@.skip(i + 3)) =~= percent_decode_seq(
                            s@,
                        ));
                    }
                    i += 3;
                },
                _ => {
                    out.push(s[i]);
                    proof {
                        assert(rest.skip(1) =~= s@.skip(i + 1));
                        assert(percent_decode_seq(rest) == seq![s@[i as int]]
                            + percent_decode_seq(s@.skip(i + 1)));
                        assert(out@ + percent_decode_seq(s@.skip(i + 1)) =~= percent_decode_seq(
                            s@,
                        ));
                    }
                    i += 1;
                },
            }
        } else {
            proof {
                if rest[0] == '%' as u8 && rest.len() >= 3 {
                    assert(s@.len() - i > 2);
                }
            }
            out.push(s[i]);
            proof {
                assert(rest.skip(1) =~= s@.skip(i + 1));
                assert(percent_decode_seq(rest) == seq![s@[i as int]] + percent_decode_seq(
                    s@.skip(i + 1),
                ));
                assert(out@ + percent_decode_seq(s@.skip(i + 1)) =~= percent_decode_seq(s@));
            }
            i += 1;
        }
    }
    proof {
        assert(s@.skip(s@.len() as int) =~= Seq::<u8>::empty());
        assert(out@ =~= out@ + percent_decode_seq(s@.skip(s@.len() as int)));
    }
    out
}

/// The filesystem path a `file://` identity names, if it is one.
pub fn file_uri_to_path(uri: &Vec<u8>) -> (r: Option<Vec<u8>>)
    ensures
        match r {
            Some(p) => spec_file_uri_to_path(uri@) == Some(p@),
            None => spec_file_uri_to_path(uri@) is None,
        },
{
    proof {
        reveal_strlit("file://");
        assert("file://"@.len() == 7);
        assert(vstd::string::is_ascii("file://"));
    }
    let scheme = lit_vec("file://");
    if !starts_with_bytes(uri, &scheme) {
        return None;
    }
    let mut rest: Vec<u8> = Vec::new();
    let mut i: usize = 7;
    proof {
        assert(scheme@.len() == 7);
        assert(uri@.len() >= 7);
    }
    while i < uri.len()
        invariant
            7 <= i <= uri@.len(),
            rest@ == uri@.skip(7).take(i - 7),
        decreases uri@.len() - i,
    {
        rest.push(uri[i]);
        proof {
            assert(rest@ =~= uri@.skip(7).take(i + 1 - 7));
        }
        i += 1;
    }
    proof {
        assert(rest@ =~= uri@.skip(7));
    }
    Some(percent_decode(&rest))
}

} // verus!
