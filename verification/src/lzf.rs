//! LZF decompression, as the snapshot format uses it for compressed strings.
//!
//! The input is a stream of control bytes: a control byte below 0x20 announces
//! a literal run, any other control byte a back-reference into the output
//! produced so far. Back-references are copied byte by byte, since their
//! source region may overlap the bytes being appended.
use vstd::prelude::*;
use crate::RdbError;

verus! {

/// `len` bytes appended one at a time from position `start` onward; each
/// appended byte may itself be read back before the copy is done.
pub open spec fn lzf_copy(out: Seq<u8>, start: int, len: nat) -> Seq<u8>
    recommends
        0 <= start < out.len(),
    decreases len,
{
    if len == 0 {
        out
    } else {
        lzf_copy(out.push(out[start]), start + 1, (len - 1) as nat)
    }
}

pub proof fn lemma_lzf_copy_len(out: Seq<u8>, start: int, len: nat)
    requires
        0 <= start < out.len(),
    ensures
        lzf_copy(out, start, len).len() == out.len() + len,
    decreases len,
{
    if len > 0 {
        lemma_lzf_copy_len(out.push(out[start]), start + 1, (len - 1) as nat);
    }
}

/// Appending one more byte extends the copy by the byte at `start + len` of
/// the copy so far.
pub proof fn lemma_lzf_copy_snoc(out: Seq<u8>, start: int, len: nat)
    requires
        0 <= start < out.len(),
    ensures
        lzf_copy(out, start, len + 1) == lzf_copy(out, start, len).push(
            lzf_copy(out, start, len)[start + len],
        ),
    decreases len,
{
    lemma_lzf_copy_len(out, start, len);
    if len == 0 {
        assert(lzf_copy(out, start, 1) == lzf_copy(out.push(out[start]), start + 1, 0));
    } else {
        lemma_lzf_copy_snoc(out.push(out[start]), start + 1, (len - 1) as nat);
    }
}

/// The decompressed output from `s[i..]`, appended to `out`; `None` when a
/// back-reference would reach before the start of the output or the input is
/// truncated.
pub open spec fn lzf_from(s: Seq<u8>, i: int, out: Seq<u8>) -> Option<Seq<u8>>
    decreases s.len() - i,
{
    if i < 0 || i >= s.len() {
        Some(out)
    } else {
        let ctrl = s[i];
        if ctrl < 32 {
            let ll = (ctrl as int) + 1;
            if i + 1 + ll <= s.len() {
                lzf_from(s, i + 1 + ll, out + s.subrange(i + 1, i + 1 + ll))
            } else {
                None
            }
        } else {
            let l0 = (ctrl >> 5) as int;
            let blen = if l0 == 7 {
                if i + 1 < s.len() {
                    7 + (s[i + 1] as int) + 2
                } else {
                    -1
                }
            } else {
                l0
            };
            let p = if l0 == 7 {
                i + 2
            } else {
                i + 1
            };
            if blen < 0 || p >= s.len() {
                None
            } else {
                let off = ((ctrl & 0x1f) as int) * 256 + (s[p] as int) + 1;
                if off > out.len() {
                    None
                } else {
                    lzf_from(s, p + 1, lzf_copy(out, out.len() - off, blen as nat))
                }
            }
        }
    }
}

/// The full decompression of `s`.
pub open spec fn lzf(s: Seq<u8>) -> Option<Seq<u8>> {
    lzf_from(s, 0, Seq::empty())
}

/// Decompress `l`; fails exactly when a back-reference indexes out of bounds
/// or the stream is truncated.
pub fn lzf_decode(l: &Vec<u8>) -> (r: Result<Vec<u8>, RdbError>)
    ensures
        r is Ok <==> lzf(l@) is Some,
        r matches Ok(out) ==> lzf(l@) == Some(out@),
        r matches Err(e) ==> e == RdbError::DecodeError,
{
    let mut out: Vec<u8> = Vec::new();
    let mut i: usize = 0;
    while i < l.len()
        invariant
            i <= l@.len(),
            lzf(l@) == lzf_from(l@, i as int, out@),
        decreases l@.len() - i,
    {
        let ctrl = l[i];
        if ctrl < 32 {
            let ll = ctrl as usize + 1;
            if ll > l.len() - i - 1 {
                return Err(RdbError::DecodeError);
            }
            let lit = crate::parser::copy_range(l, i + 1, i + 1 + ll);
            crate::parser::write_bytes(&mut out, &lit);
            i = i + 1 + ll;
        } else {
            let mut blen: usize = (ctrl >> 5) as usize;
            let mut p = i + 1;
            if blen == 7 {
                if p >= l.len() {
                    return Err(RdbError::DecodeError);
                }
                blen = 7 + l[p] as usize + 2;
                p = p + 1;
            }
            if p >= l.len() {
                return Err(RdbError::DecodeError);
            }
            let off = ((ctrl & 0x1f) as usize) * 256 + l[p] as usize + 1;
            if off > out.len() {
                return Err(RdbError::DecodeError);
            }
            let start = out.len() - off;
            let ghost base = out@;
            let mut k: usize = 0;
            while k < blen
                invariant
                    k <= blen,
                    0 <= start < base.len(),
                    start + blen <= base.len() + blen,
                    out@ == lzf_copy(base, start as int, k as nat),
                    out@.len() == base.len() + k,
                decreases blen - k,
            {
                proof {
                    lemma_lzf_copy_snoc(base, start as int, k as nat);
                    lemma_lzf_copy_len(base, start as int, (k + 1) as nat);
                }
                let cur = out.len();
                assert(start + k < cur);
                let b = out[start + k];
                out.push(b);
                k = k + 1;
            }
            assert(out@ == lzf_copy(base, start as int, blen as nat));
            i = p + 1;
        }
    }
    Ok(out)
}

} // verus!
