//! Executable big-endian readers and writers, verified against the
//! big-endian model in [`crate::model`].

use vstd::prelude::*;

use crate::model::{be_enc, be_val, lemma_be_val_bound, lemma_pow256_concrete, lemma_pow256_increases, pow256};

verus! {

/// Appends the `n`-byte big-endian encoding of `v` to `out`.
pub(crate) fn push_be(out: &mut Vec<u8>, v: u64, n: usize)
    ensures
        final(out)@ == old(out)@ + be_enc(v as nat, n as nat),
    decreases n,
{
    if n == 0 {
        proof {
            assert(out@ =~= old(out)@ + be_enc(v as nat, 0));
        }
    } else {
        push_be(out, v / 256, n - 1);
        out.push((v % 256) as u8);
        proof {
            assert(out@ =~= old(out)@ + be_enc(v as nat, n as nat));
        }
    }
}

/// Reads the `n` bytes at `start` as a big-endian number.
pub(crate) fn read_be(data: &[u8], start: usize, n: usize) -> (v: u64)
    requires
        n <= 8,
        start + n <= usize::MAX,
        start + n <= data@.len(),
    ensures
        v as nat == be_val(data@.subrange(start as int, start as int + n as int)),
    decreases n,
{
    if n == 0 {
        proof {
            assert(data@.subrange(start as int, start as int).len() == 0);
        }
        0
    } else {
        let hi = read_be(data, start, n - 1);
        let b = data[start + (n - 1)];
        proof {
            let s = data@.subrange(start as int, start as int + n as int);
            assert(s.drop_last() =~= data@.subrange(start as int, start as int + n - 1));
            assert(s.last() == data@[start + n - 1]);
            lemma_be_val_bound(s.drop_last());
            lemma_pow256_increases((n - 1) as nat, 7);
            lemma_pow256_concrete();
            assert(hi * 256 + b <= (pow256(7) - 1) * 256 + 255) by (nonlinear_arith)
                requires
                    hi < pow256(7),
                    b <= 255,
            ;
        }
        hi * 256 + (b as u64)
    }
}

} // verus!
