//! Rendering of error messages as ASCII bytes: a shared
//! `ERROR:<line>:<col>: ` prefix followed by a fixed text per error kind.

use vstd::prelude::*;
use vstd::string::StringSliceAdditionalSpecFns;

verus! {

/// Decimal digits of `n`, most significant first.
pub open spec fn dec_rep(n: nat) -> Seq<u8>
    decreases n,
{
    if n < 10 {
        seq![(48 + n) as u8]
    } else {
        dec_rep(n / 10).push((48 + n % 10) as u8)
    }
}

/// The bytes of `ERROR:<line>:<col>: `, the common head of every message.
pub open spec fn error_prefix(line: int, col: int) -> Seq<u8> {
    "ERROR:".spec_bytes() + dec_rep(line as nat) + ":".spec_bytes() + dec_rep(col as nat)
        + ": ".spec_bytes()
}

/// Append the bytes of an ASCII literal to `out`.
pub(crate) fn push_ascii(out: &mut Vec<u8>, s: &str)
    ensures
        final(out)@ == old(out)@ + s.spec_bytes(),
{
    let b = s.as_bytes();
    let mut j: usize = 0;
    while j < b.len()
        invariant
            j <= b@.len(),
            b@ == s.spec_bytes(),
            out@ == old(out)@ + b@.subrange(0, j as int),
        decreases b@.len() - j,
    {
        out.push(b[j]);
        proof {
            assert(out@ =~= old(out)@ + b@.subrange(0, j + 1 as int));
        }
        j = j + 1;
    }
    proof {
        assert(b@.subrange(0, b@.len() as int) =~= b@);
    }
}

/// Append the decimal digits of `n` to `out`.
pub(crate) fn push_number(out: &mut Vec<u8>, n: usize)
    ensures
        final(out)@ == old(out)@ + dec_rep(n as nat),
    decreases n,
{
    if n >= 10 {
        push_number(out, n / 10);
    }
    out.push((n % 10) as u8 + 48);
    proof {
        if n < 10 {
            assert(out@ =~= old(out)@ + dec_rep(n as nat));
        } else {
            assert(out@ =~= old(out)@ + dec_rep(n as nat));
        }
    }
}

/// Append `ERROR:<line>:<col>: ` to `out`.
pub(crate) fn push_prefix(out: &mut Vec<u8>, line: usize, col: usize)
    ensures
        final(out)@ == old(out)@ + error_prefix(line as int, col as int),
{
    push_ascii(out, "ERROR:");
    push_number(out, line);
    push_ascii(out, ":");
    push_number(out, col);
    push_ascii(out, ": ");
    proof {
        assert(out@ =~= old(out)@ + error_prefix(line as int, col as int));
    }
}

} // verus!
