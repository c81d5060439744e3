//! Unsigned LEB128: the variable-width integer encoding used throughout the
//! canonical object format.

use vstd::prelude::*;

use crate::error::Error;

verus! {

/// The canonical (minimal) LEB128 encoding of `n`: seven payload bits per
/// byte, least-significant group first, the high bit set on every byte but
/// the last.
pub open spec fn leb128_spec(n: nat) -> Seq<u8>
    decreases n,
{
    if n < 128 {
        seq![n as u8]
    } else {
        seq![(n % 128 + 128) as u8] + leb128_spec(n / 128)
    }
}

/// `prefix` is an initial segment of `s`.
pub open spec fn starts_with(s: Seq<u8>, prefix: Seq<u8>) -> bool {
    prefix.len() <= s.len() && s.subrange(0, prefix.len() as int) == prefix
}

/// An encoding is never empty.
pub proof fn lemma_leb128_spec_len(n: nat)
    ensures
        1 <= leb128_spec(n).len(),
{
}

/// Appends the canonical LEB128 encoding of `v` to `out`.
pub fn leb128_write(out: &mut Vec<u8>, v: u64)
    ensures
        final(out)@ == old(out)@ + leb128_spec(v as nat),
    decreases v,
{
    if v < 128 {
        out.push(v as u8);
        assert(out@ =~= old(out)@ + leb128_spec(v as nat));
    } else {
        out.push((v % 128 + 128) as u8);
        let ghost mid = out@;
        leb128_write(out, v / 128);
        assert(out@ =~= old(out)@ + leb128_spec(v as nat));
    }
}

/// Reads one canonical LEB128 integer from `input` starting at `pos`.
///
/// On success returns the value together with the position just past its
/// encoding. Fails with `MalformedObject` on truncation, on a value that
/// does not fit in 64 bits, and on a non-minimal encoding. The contract is
/// exact in both directions: whenever some value's canonical encoding sits
/// at `pos`, that value (and nothing else) is returned.
pub fn leb128_read(input: &Vec<u8>, pos: usize) -> (r: Result<(u64, usize), Error>)
    requires
        pos <= input.len(),
    ensures
        match r {
            Ok((v, end)) => {
                &&& pos < end <= input.len()
                &&& input@.subrange(pos as int, end as int) == leb128_spec(v as nat)
                &&& end - pos == leb128_spec(v as nat).len()
            },
            Err(e) => {
                &&& e == Error::MalformedObject
                &&& forall|w: u64| !starts_with(input@.skip(pos as int), #[trigger] leb128_spec(w as nat))
            },
        },
    decreases input.len() - pos,
{
    if pos == input.len() {
        assert forall|w: u64| !starts_with(input@.skip(pos as int), #[trigger] leb128_spec(w as nat)) by {
            lemma_leb128_spec_len(w as nat);
        }
        return Err(Error::MalformedObject);
    }
    let b = input[pos];
    if b < 128 {
        assert(input@.subrange(pos as int, pos + 1) =~= leb128_spec(b as nat));
        Ok((b as u64, pos + 1))
    } else {
        match leb128_read(input, pos + 1) {
            Err(e) => {
                assert forall|w: u64| !starts_with(input@.skip(pos as int), #[trigger] leb128_spec(w as nat)) by {
                    if w >= 128 {
                        let tail = leb128_spec((w / 128) as nat);
                        if starts_with(input@.skip(pos as int), leb128_spec(w as nat)) {
                            assert(starts_with(input@.skip(pos + 1), leb128_spec(((w / 128) as u64) as nat))) by {
                                assert(leb128_spec(w as nat) == seq![(w as nat % 128 + 128) as u8] + tail);
                                assert(input@.skip(pos + 1).subrange(0, tail.len() as int)
                                    =~= input@.skip(pos as int).subrange(1, tail.len() as int + 1));
                                assert(input@.skip(pos as int).subrange(1, tail.len() as int + 1)
                                    =~= leb128_spec(w as nat).subrange(1, leb128_spec(w as nat).len() as int));
                                assert(leb128_spec(w as nat).subrange(1, leb128_spec(w as nat).len() as int) =~= tail);
                            }
                        }
                    } else {
                        if starts_with(input@.skip(pos as int), leb128_spec(w as nat)) {
                            assert(input@[pos as int] == leb128_spec(w as nat)[0]);
                        }
                    }
                }
                Err(e)
            },
            Ok((m, end)) => {
                let low: u64 = (b - 128) as u64;
                if m == 0 || m > (u64::MAX - low) / 128 {
                    assert forall|w: u64| !starts_with(input@.skip(pos as int), #[trigger] leb128_spec(w as nat)) by {
                        if starts_with(input@.skip(pos as int), leb128_spec(w as nat)) {
                            if w < 128 {
                                assert(input@[pos as int] == leb128_spec(w as nat)[0]);
                            } else {
                                let tail = leb128_spec((w / 128) as nat);
                                assert(starts_with(input@.skip(pos + 1), tail)) by {
                                    assert(input@.skip(pos + 1).subrange(0, tail.len() as int)
                                        =~= input@.skip(pos as int).subrange(1, tail.len() as int + 1));
                                    assert(input@.skip(pos as int).subrange(1, tail.len() as int + 1)
                                        =~= leb128_spec(w as nat).subrange(1, leb128_spec(w as nat).len() as int));
                                    assert(leb128_spec(w as nat).subrange(1, leb128_spec(w as nat).len() as int) =~= tail);
                                }
                                // uniqueness: the recursive parse pinned m to w / 128
                                lemma_leb128_prefix_free(input@, pos + 1, m as nat, (end - (pos + 1)) as nat, (w / 128) as nat);
                                assert(input@[pos as int] == leb128_spec(w as nat)[0]);
                                assert(b == w % 128 + 128);
                                assert(w == (w / 128) * 128 + w % 128) by (nonlinear_arith);
                                assert(m as nat * 128 + low as nat <= u64::MAX);
                                assert(m <= (u64::MAX - low) / 128);
                            }
                        }
                    }
                    Err(Error::MalformedObject)
                } else {
                    let v: u64 = m * 128 + low;
                    proof {
                        assert(m * 128 <= ((u64::MAX - low) / 128) * 128 <= u64::MAX - low) by (nonlinear_arith)
                            requires m <= (u64::MAX - low) / 128, low <= 127u64;
                        assert(v as nat / 128 == m as nat && v as nat % 128 == low as nat) by (nonlinear_arith)
                            requires v as nat == m as nat * 128 + low as nat, low < 128;
                        assert(v >= 128) by (nonlinear_arith)
                            requires v as nat == m as nat * 128 + low as nat, m >= 1;
                        assert(leb128_spec(v as nat) == seq![(v as nat % 128 + 128) as u8] + leb128_spec((v as nat) / 128));
                        assert(input@.subrange(pos as int, end as int) =~= seq![b] + input@.subrange(pos + 1, end as int));
                        assert(input@.subrange(pos as int, end as int) =~= leb128_spec(v as nat));
                    }
                    Ok((v, end))
                }
            },
        }
    }
}

/// Canonical encodings are prefix-free, so unambiguous: if the bytes of `s`
/// from `pos` for `len` bytes are `leb128_spec(m)`, and `leb128_spec(w)` is
/// also an initial segment of `s.skip(pos)`, then the two values agree.
pub proof fn lemma_leb128_prefix_free(s: Seq<u8>, pos: int, m: nat, len: nat, w: nat)
    requires
        0 <= pos <= s.len(),
        pos + len <= s.len(),
        s.subrange(pos, pos + len) == leb128_spec(m),
        leb128_spec(m).len() == len,
        starts_with(s.skip(pos), leb128_spec(w)),
    ensures
        m == w,
    decreases len,
{
    let sm = leb128_spec(m);
    let sw = leb128_spec(w);
    assert(s[pos] == sm[0]);
    assert(s.skip(pos).subrange(0, sw.len() as int) == sw);
    assert(s[pos] == sw[0]);
    if m < 128 && w < 128 {
        assert(m == sm[0] && w == sw[0]);
    } else if m >= 128 && w >= 128 {
        let tm = leb128_spec(m / 128);
        let tw = leb128_spec(w / 128);
        assert(s.subrange(pos + 1, pos + len) =~= sm.subrange(1, len as int));
        assert(sm.subrange(1, len as int) =~= tm);
        assert(starts_with(s.skip(pos + 1), tw)) by {
            assert(s.skip(pos + 1).subrange(0, tw.len() as int) =~= s.skip(pos).subrange(1, tw.len() as int + 1));
            assert(s.skip(pos).subrange(1, tw.len() as int + 1) =~= sw.subrange(1, sw.len() as int));
            assert(sw.subrange(1, sw.len() as int) =~= tw);
        }
        lemma_leb128_prefix_free(s, pos + 1, m / 128, (len - 1) as nat, w / 128);
        assert(m % 128 + 128 == sm[0] && w % 128 + 128 == sw[0]);
        assert(m == (m / 128) * 128 + m % 128) by (nonlinear_arith);
        assert(w == (w / 128) * 128 + w % 128) by (nonlinear_arith);
    } else if m < 128 {
        assert(m == sm[0]);
        assert(w % 128 + 128 == sw[0]);
    } else {
        assert(w == sw[0]);
        assert(m % 128 + 128 == sm[0]);
    }
}

} // verus!
