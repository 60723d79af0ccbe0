//! Note identities: an id is the MD5 digest, in hex, of the title joined
//! with a nanosecond timestamp.  The digest itself is named, not redefined;
//! the decimal rendering of the timestamp is verified here.

use vstd::prelude::*;
use crate::clock::now_nanos_opt;
use crate::strutil::push_chars;

verus! {

/// The lower-case hexadecimal MD5 digest of a string, as a function of its
/// characters alone.
pub uninterp spec fn md5_hex_of(s: Seq<char>) -> Seq<char>;

/// Relies on `md5::compute` and the digest's `LowerHex` form: sixteen
/// bytes, each printed as two lowercase hexadecimal digits, a pure function
/// of the input bytes.
#[verifier::external_body]
pub(crate) fn md5_hex(s: &str) -> (r: String)
    ensures
        r@ == md5_hex_of(s@),
        r@.len() == 32,
{
    format!("{:x}", md5::compute(s.as_bytes()))
}

/// The decimal digit character for `d`.
pub open spec fn digit_char(d: int) -> char {
    ((48 + d) as u8) as char
}

/// The decimal digits of a non-negative number, most significant first.
pub open spec fn dec_of(n: nat) -> Seq<char>
    decreases n,
{
    if n < 10 {
        seq![digit_char(n as int)]
    } else {
        dec_of(n / 10).push(digit_char((n % 10) as int))
    }
}

/// The decimal form of a signed number.
pub open spec fn dec_str_of(v: int) -> Seq<char> {
    if v < 0 {
        seq!['-'] + dec_of((-v) as nat)
    } else {
        dec_of(v as nat)
    }
}

fn push_dec_u64(out: &mut Vec<char>, n: u64)
    ensures
        final(out)@ == old(out)@ + dec_of(n as nat),
    decreases n,
{
    if n < 10 {
        out.push((48 + (n as u8)) as char);
    } else {
        push_dec_u64(out, n / 10);
        out.push((48 + ((n % 10) as u8)) as char);
        proof {
            assert(out@ =~= old(out)@ + dec_of(n as nat));
        }
    }
}

/// The decimal form of `v` as characters.
pub fn dec_chars_of(v: i64) -> (out: Vec<char>)
    ensures
        out@ == dec_str_of(v as int),
{
    let mut out: Vec<char> = Vec::new();
    if v >= 0 {
        push_dec_u64(&mut out, v as u64);
        proof {
            assert(Seq::<char>::empty() + dec_of((v as int) as nat) =~= dec_of((v as int) as nat));
        }
    } else {
        out.push('-');
        let mag: u64 = ((-1 - v) as u64) + 1;
        proof {
            assert(mag as int == -(v as int));
        }
        push_dec_u64(&mut out, mag);
        proof {
            assert(seq!['-'] + dec_of(mag as nat) =~= out@);
        }
    }
    out
}

/// A fresh note id: the digest of the title followed by the decimal
/// nanosecond timestamp (zero where the clock cannot say).
pub(crate) fn fresh_id(title: &str) -> (r: String)
    ensures
        r@.len() == 32,
        exists|n: int| r@ == md5_hex_of(title@ + #[trigger] dec_str_of(n)),
{
    let nanos: i64 = match now_nanos_opt() {
        Some(v) => v,
        None => 0,
    };
    let mut seed = title.to_owned();
    let digits = dec_chars_of(nanos);
    push_chars(&mut seed, &digits);
    let r = md5_hex(seed.as_str());
    proof {
        assert(seed@ == title@ + dec_str_of(nanos as int));
        assert(r@ == md5_hex_of(title@ + dec_str_of(nanos as int)));
    }
    r
}

} // verus!
