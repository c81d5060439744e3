//! The canonical object encoding: the exact bytes an object's digest is
//! computed over, and the byte layout stored in the key-value backend.
//!
//! ```text
//! object := leb128(|blob|) || blob || encoded_refs
//! encoded_refs := algo_name_nul || leb128(digest_size) || leb128(|refs|) || refs bytes
//! ```
//!
//! The algorithm name and digest width are embedded so a decoder validates
//! them before reading the fixed-width digests.

use vstd::prelude::*;

use crate::bytes::{append_bytes, copy_range};
use crate::digest::{Sha3Digest, DIGEST_SIZE};
use crate::error::Error;
use crate::varint::{leb128_spec, leb128_read, leb128_write, lemma_leb128_prefix_free, starts_with};

verus! {

/// The embedded algorithm name, `sha3-256` in ASCII, without the
/// terminating NUL.
pub open spec fn algo_name_spec() -> Seq<u8> {
    seq![115u8, 104u8, 97u8, 51u8, 45u8, 50u8, 53u8, 54u8]
}

/// The algorithm name as a vector.
pub fn algo_name_bytes() -> (r: Vec<u8>)
    ensures
        r@ == algo_name_spec(),
{
    let mut out: Vec<u8> = Vec::new();
    out.push(115);
    out.push(104);
    out.push(97);
    out.push(51);
    out.push(45);
    out.push(50);
    out.push(53);
    out.push(54);
    assert(out@ =~= algo_name_spec());
    out
}

/// The views of a sequence of digests.
pub open spec fn digests_view(refs: Seq<Sha3Digest>) -> Seq<Seq<u8>> {
    refs.map_values(|d: Sha3Digest| d@)
}

/// The mathematical content of a stored object: its blob bytes and the
/// digests of its children, in order.
#[verifier::ext_equal]
pub struct ObjectView {
    pub blob: Seq<u8>,
    pub refs: Seq<Seq<u8>>,
}

impl ObjectView {
    /// Well-typed: every reference is a full-width digest, and both counts
    /// fit the wire format's 64-bit lengths.
    pub open spec fn wf(self) -> bool {
        &&& forall|i: int| 0 <= i < self.refs.len() ==> (#[trigger] self.refs[i]).len() == DIGEST_SIZE
        &&& self.blob.len() <= u64::MAX
        &&& self.refs.len() <= u64::MAX
    }
}

/// The canonical reference block for `refs`.
pub open spec fn encode_refs_spec(refs: Seq<Seq<u8>>) -> Seq<u8> {
    algo_name_spec() + seq![0u8] + leb128_spec(DIGEST_SIZE as nat) + leb128_spec(refs.len()) + refs.flatten()
}

/// The canonical encoding of an object: blob length, blob bytes, then the
/// reference block.
pub open spec fn encode_object_spec(o: ObjectView) -> Seq<u8> {
    leb128_spec(o.blob.len()) + o.blob + encode_refs_spec(o.refs)
}

/// `s` is exactly the canonical encoding of the well-typed object `o`.
pub open spec fn is_encoding_of(s: Seq<u8>, o: ObjectView) -> bool {
    o.wf() && s == encode_object_spec(o)
}

/// Some well-typed object has `s` as its canonical encoding.
pub open spec fn decodable(s: Seq<u8>) -> bool {
    exists|o: ObjectView| is_encoding_of(s, o)
}

/// The unique object whose canonical encoding is `s` (meaningful only when
/// `decodable(s)`; unique by [`lemma_encoding_injective`]).
pub open spec fn decoded(s: Seq<u8>) -> ObjectView {
    choose|o: ObjectView| is_encoding_of(s, o)
}

/// In a flattening of fixed-width pieces, piece `j` occupies bytes
/// `j*w .. (j+1)*w`.
pub proof fn lemma_flatten_fixed_width(s: Seq<Seq<u8>>, w: nat)
    requires
        forall|i: int| 0 <= i < s.len() ==> (#[trigger] s[i]).len() == w,
    ensures
        s.flatten().len() == s.len() * w,
        forall|j: int| 0 <= j < s.len() ==> s.flatten().subrange(j * w, j * w + w) == s[j],
    decreases s.len(),
{
    if s.len() == 0 {
        assert(s.flatten() =~= Seq::<u8>::empty());
    } else {
        let rest = s.drop_first();
        assert(forall|i: int| 0 <= i < rest.len() ==> (#[trigger] rest[i]).len() == w);
        lemma_flatten_fixed_width(rest, w);
        assert(s.flatten() == s.first() + rest.flatten());
        assert(s[0].len() == w);
        assert(s.first() == s[0]);
        assert(s.flatten().len() == w + rest.flatten().len());
        assert(s.len() * w == w + rest.len() * w) by (nonlinear_arith)
            requires s.len() >= 1, rest.len() == s.len() - 1;
        assert forall|j: int| 0 <= j < s.len() implies s.flatten().subrange(j * w, j * w + w) == s[j] by {
            if j == 0 {
                assert(s.flatten().subrange(0, w as int) =~= s.first());
            } else {
                assert((j - 1) * w == j * w - w) by (nonlinear_arith);
                assert(0 <= (j - 1) * w && (j - 1) * w + w <= rest.flatten().len()) by (nonlinear_arith)
                    requires 0 < j < s.len(), rest.len() == s.len() - 1, rest.flatten().len() == rest.len() * w;
                assert(rest.flatten().subrange((j - 1) * w, (j - 1) * w + w) == rest[j - 1]);
                assert(s.flatten().subrange(j * w, j * w + w) =~= rest.flatten().subrange((j - 1) * w, (j - 1) * w + w));
                assert(rest[j - 1] == s[j]);
            }
        }
    }
}

/// Canonical encodings are injective: equal encodings mean equal objects.
/// With [`crate::digest::sha3_256_of`] applied on top, this is also why equal
/// `(blob, refs)` pairs produce equal digests and nothing else is claimed of
/// unequal ones.
pub proof fn lemma_encoding_injective(s: Seq<u8>, o1: ObjectView, o2: ObjectView)
    requires
        is_encoding_of(s, o1),
        is_encoding_of(s, o2),
    ensures
        o1 == o2,
{
    lemma_encoding_layout(s, o1);
    lemma_encoding_layout(s, o2);
    let lb1 = leb128_spec(o1.blob.len());
    let lb2 = leb128_spec(o2.blob.len());
    lemma_leb128_prefix_free(s, 0, o2.blob.len(), lb2.len(), o1.blob.len());
    // the leading varints agree, so the blob lengths and blobs agree
    assert(o1.blob.len() == o2.blob.len());
    let be = lb1.len() as int + o1.blob.len() as int;
    assert(o1.blob == o2.blob);
    let nl1 = leb128_spec(o1.refs.len());
    let nl2 = leb128_spec(o2.refs.len());
    lemma_leb128_prefix_free(s, be + 10, o2.refs.len(), nl2.len(), o1.refs.len());
    // and so do the reference counts and the digest bytes behind them
    assert(o1.refs.len() == o2.refs.len());
    let flat1 = o1.refs.flatten();
    let flat2 = o2.refs.flatten();
    assert(flat1 == flat2);
    lemma_flatten_fixed_width(o1.refs, DIGEST_SIZE as nat);
    lemma_flatten_fixed_width(o2.refs, DIGEST_SIZE as nat);
    assert forall|j: int| 0 <= j < o1.refs.len() implies o1.refs[j] == o2.refs[j] by {
        assert(o1.refs[j] == flat1.subrange(j * (DIGEST_SIZE as int), j * (DIGEST_SIZE as int) + (DIGEST_SIZE as int)));
        assert(o2.refs[j] == flat2.subrange(j * (DIGEST_SIZE as int), j * (DIGEST_SIZE as int) + (DIGEST_SIZE as int)));
    }
    assert(o1.refs =~= o2.refs);
    assert(o1 =~= o2);
}

/// Every well-typed object decodes back from its own canonical encoding:
/// the canonical round-trip law.
pub proof fn lemma_canonical_round_trip(o: ObjectView)
    requires
        o.wf(),
    ensures
        decodable(encode_object_spec(o)),
        decoded(encode_object_spec(o)) == o,
{
    let s = encode_object_spec(o);
    assert(is_encoding_of(s, o));
    lemma_encoding_injective(s, decoded(s), o);
}

/// Appends the canonical encoding of `(blob, refs)` to `out`.
pub fn encode_parts(out: &mut Vec<u8>, blob: &Vec<u8>, refs: &Vec<Sha3Digest>)
    requires
        blob@.len() <= u64::MAX,
        refs@.len() <= u64::MAX,
    ensures
        final(out)@ == old(out)@ + encode_object_spec(ObjectView { blob: blob@, refs: digests_view(refs@) }),
{
    leb128_write(out, blob.len() as u64);
    append_bytes(out, blob);
    let name = algo_name_bytes();
    append_bytes(out, &name);
    out.push(0u8);
    leb128_write(out, DIGEST_SIZE as u64);
    leb128_write(out, refs.len() as u64);
    let ghost before = out@;
    let ghost views = digests_view(refs@);
    let mut i: usize = 0;
    proof {
        assert(views.subrange(0, 0).flatten() =~= Seq::<u8>::empty());
        assert(out@ =~= before + views.subrange(0, 0).flatten());
    }
    while i < refs.len()
        invariant
            i <= refs.len(),
            views == digests_view(refs@),
            views.len() == refs@.len(),
            out@ == before + views.subrange(0, i as int).flatten(),
        decreases refs.len() - i,
    {
        append_bytes(out, refs[i].as_bytes());
        proof {
            let pre = views.subrange(0, i as int);
            let post = views.subrange(0, i + 1);
            assert(post.drop_last() =~= pre);
            assert(post.last() == views[i as int]);
            post.drop_last().lemma_flatten_and_flatten_alt_are_equivalent();
            post.lemma_flatten_and_flatten_alt_are_equivalent();
            assert(post.flatten_alt() == post.drop_last().flatten_alt() + post.last());
            assert(out@ =~= before + post.flatten());
        }
        i = i + 1;
    }
    proof {
        assert(views.subrange(0, views.len() as int) =~= views);
        let ov = ObjectView { blob: blob@, refs: views };
        assert(final(out)@ =~= old(out)@ + encode_object_spec(ov));
    }
}

/// The layout of a canonical encoding: where each piece of the encoded
/// object sits.
#[verifier::rlimit(50)]
proof fn lemma_encoding_layout(s: Seq<u8>, o: ObjectView)
    requires
        is_encoding_of(s, o),
    ensures
        ({
            let lb = leb128_spec(o.blob.len());
            let be = lb.len() as int + o.blob.len() as int;
            let nl = leb128_spec(o.refs.len());
            let nll = nl.len() as int;
            let flat = o.refs.flatten();
            &&& s.subrange(0, lb.len() as int) == lb
            &&& starts_with(s.skip(0), lb)
            &&& o.blob == s.subrange(lb.len() as int, be)
            &&& s.len() == be + 10 + nl.len() + flat.len()
            &&& forall|k: int| 0 <= k < 8 ==> s[be + k] == algo_name_spec()[k]
            &&& s[be + 8] == 0u8
            &&& s.subrange(be + 9, be + 10) == leb128_spec(DIGEST_SIZE as nat)
            &&& starts_with(s.skip(be + 9), leb128_spec(DIGEST_SIZE as nat))
            &&& s.subrange(be + 10, be + 10 + nll) == nl
            &&& starts_with(s.skip(be + 10), nl)
            &&& s.skip(be + 10 + nll) == flat
            &&& flat.len() == o.refs.len() * DIGEST_SIZE
        }),
{
    let lb = leb128_spec(o.blob.len());
    let be = lb.len() as int + o.blob.len() as int;
    let nl = leb128_spec(o.refs.len());
    let nll = nl.len() as int;
    let flat = o.refs.flatten();
    let rb = encode_refs_spec(o.refs);
    assert(leb128_spec(DIGEST_SIZE as nat) =~= seq![32u8]);
    assert(s.subrange(0, lb.len() as int) =~= lb);
    assert(s.skip(0) =~= s);
    assert(o.blob =~= s.subrange(lb.len() as int, be));
    assert(s.skip(be) =~= rb);
    assert(rb.len() == 10 + nl.len() + flat.len());
    assert forall|k: int| 0 <= k < 8 implies s[be + k] == algo_name_spec()[k] by {
        assert(s[be + k] == rb[k]);
    }
    assert(s[be + 8] == rb[8]);
    assert(s.subrange(be + 9, be + 10) =~= leb128_spec(DIGEST_SIZE as nat));
    assert(s.skip(be + 9).subrange(0, 1) =~= s.subrange(be + 9, be + 10));
    assert(s.subrange(be + 10, be + 10 + nll) =~= nl);
    assert(s.skip(be + 10).subrange(0, nll) =~= nl);
    assert(s.skip(be + 10 + nll) =~= flat);
    lemma_flatten_fixed_width(o.refs, DIGEST_SIZE as nat);
}

/// The layout facts for the unique object a decodable sequence encodes.
proof fn lemma_decodable_layout(s: Seq<u8>)
    requires
        decodable(s),
    ensures
        is_encoding_of(s, decoded(s)),
        ({
            let o = decoded(s);
            let lb = leb128_spec(o.blob.len());
            let be = lb.len() as int + o.blob.len() as int;
            let nl = leb128_spec(o.refs.len());
            let nll = nl.len() as int;
            let flat = o.refs.flatten();
            &&& s.subrange(0, lb.len() as int) == lb
            &&& starts_with(s.skip(0), lb)
            &&& o.blob == s.subrange(lb.len() as int, be)
            &&& s.len() == be + 10 + nll + flat.len()
            &&& forall|k: int| 0 <= k < 8 ==> s[be + k] == algo_name_spec()[k]
            &&& s[be + 8] == 0u8
            &&& s.subrange(be + 9, be + 10) == leb128_spec(DIGEST_SIZE as nat)
            &&& starts_with(s.skip(be + 9), leb128_spec(DIGEST_SIZE as nat))
            &&& s.subrange(be + 10, be + 10 + nll) == nl
            &&& starts_with(s.skip(be + 10), nl)
            &&& s.skip(be + 10 + nll) == flat
            &&& flat.len() == o.refs.len() * DIGEST_SIZE
        }),
{
    let o = decoded(s);
    assert(is_encoding_of(s, o));
    lemma_encoding_layout(s, o);
}

/// Decodes one canonical object encoding. The whole of `input` must be
/// consumed: trailing bytes are malformed.
///
/// The contract is exact in both directions: success returns precisely the
/// object `input` encodes, and failure means `input` encodes no well-typed
/// object at all.
#[verifier::rlimit(80)]
pub fn decode_parts(input: &Vec<u8>) -> (r: Result<(Vec<u8>, Vec<Sha3Digest>), Error>)
    ensures
        match r {
            Ok((blob, refs)) => is_encoding_of(input@, ObjectView { blob: blob@, refs: digests_view(refs@) }),
            Err(e) => e == Error::MalformedObject && !decodable(input@),
        },
{
    let ghost s = input@;
    // blob length
    let (blob_len, p1) = match leb128_read(input, 0) {
        Ok(v) => v,
        Err(e) => {
            proof {
                if decodable(s) {
                    lemma_decodable_layout(s);
                    let o = decoded(s);
                    let w64: u64 = o.blob.len() as u64;
                    assert(leb128_spec(w64 as nat) == leb128_spec(o.blob.len()));
                    assert(starts_with(s.skip(0), leb128_spec(w64 as nat)));
                }
            }
            return Err(e);
        },
    };
    proof {
        if decodable(s) {
            lemma_decodable_layout(s);
            let o = decoded(s);
            lemma_leb128_prefix_free(s, 0, blob_len as nat, (p1 - 0) as nat, o.blob.len());
            assert(blob_len as nat == o.blob.len());
            assert(p1 == leb128_spec(o.blob.len()).len());
        }
    }
    // the blob itself
    if blob_len > (input.len() - p1) as u64 {
        proof {
            if decodable(s) {
                lemma_decodable_layout(s);
                let o = decoded(s);
                crate::varint::lemma_leb128_spec_len(o.refs.len());
            }
        }
        return Err(Error::MalformedObject);
    }
    let blob_end: usize = p1 + blob_len as usize;
    let blob = copy_range(input, p1, blob_end);
    // the reference block head: algorithm name, NUL, digest width
    if input.len() - blob_end < 11 {
        proof {
            if decodable(s) {
                lemma_decodable_layout(s);
                let o = decoded(s);
                crate::varint::lemma_leb128_spec_len(o.refs.len());
            }
        }
        return Err(Error::MalformedObject);
    }
    proof {
        if decodable(s) {
            lemma_decodable_layout(s);
        }
        assert(algo_name_spec()[0] == 115u8 && algo_name_spec()[1] == 104u8 && algo_name_spec()[2] == 97u8
            && algo_name_spec()[3] == 51u8 && algo_name_spec()[4] == 45u8 && algo_name_spec()[5] == 50u8
            && algo_name_spec()[6] == 53u8 && algo_name_spec()[7] == 54u8);
    }
    if input[blob_end] != 115 || input[blob_end + 1] != 104 || input[blob_end + 2] != 97
        || input[blob_end + 3] != 51 || input[blob_end + 4] != 45 || input[blob_end + 5] != 50
        || input[blob_end + 6] != 53 || input[blob_end + 7] != 54 || input[blob_end + 8] != 0 {
        return Err(Error::MalformedObject);
    }
    let pos: usize = blob_end + 9;
    // the digest width
    let (width, p2) = match leb128_read(input, pos) {
        Ok(v) => v,
        Err(e) => {
            proof {
                if decodable(s) {
                    lemma_decodable_layout(s);
                    assert(starts_with(s.skip(pos as int), leb128_spec((DIGEST_SIZE as u64) as nat)));
                }
            }
            return Err(e);
        },
    };
    if width != DIGEST_SIZE as u64 {
        proof {
            if decodable(s) {
                lemma_decodable_layout(s);
                lemma_leb128_prefix_free(s, pos as int, width as nat, (p2 - pos) as nat, DIGEST_SIZE as nat);
            }
        }
        return Err(Error::MalformedObject);
    }
    proof {
        if decodable(s) {
            lemma_decodable_layout(s);
            lemma_leb128_prefix_free(s, pos as int, width as nat, (p2 - pos) as nat, DIGEST_SIZE as nat);
            assert(leb128_spec(DIGEST_SIZE as nat).len() == 1);
            assert(p2 == pos + 1);
        }
    }
    // the reference count
    let (count, p3) = match leb128_read(input, p2) {
        Ok(v) => v,
        Err(e) => {
            proof {
                if decodable(s) {
                    lemma_decodable_layout(s);
                    let o = decoded(s);
                    let w64: u64 = o.refs.len() as u64;
                    assert(leb128_spec(w64 as nat) == leb128_spec(o.refs.len()));
                    assert(starts_with(s.skip(p2 as int), leb128_spec(w64 as nat)));
                }
            }
            return Err(e);
        },
    };
    proof {
        if decodable(s) {
            lemma_decodable_layout(s);
            let o = decoded(s);
            lemma_leb128_prefix_free(s, p2 as int, count as nat, (p3 - p2) as nat, o.refs.len());
            assert(count as nat == o.refs.len());
            assert(p3 == p2 + leb128_spec(o.refs.len()).len());
        }
    }
    // exactly `count` fixed-width digests must remain
    let remaining: usize = input.len() - p3;
    if remaining % DIGEST_SIZE != 0 || count != (remaining / DIGEST_SIZE) as u64 {
        proof {
            if decodable(s) {
                lemma_decodable_layout(s);
                let o = decoded(s);
                assert(remaining == o.refs.len() * DIGEST_SIZE);
                assert(remaining as int % DIGEST_SIZE as int == 0 && remaining as int / DIGEST_SIZE as int == o.refs.len()) by (nonlinear_arith)
                    requires remaining == o.refs.len() * DIGEST_SIZE, DIGEST_SIZE > 0;
            }
        }
        return Err(Error::MalformedObject);
    }
    let n: usize = remaining / DIGEST_SIZE;
    proof {
        assert(n * DIGEST_SIZE == remaining && n * DIGEST_SIZE >= 0) by (nonlinear_arith)
            requires n as int == remaining as int / DIGEST_SIZE as int, remaining as int % DIGEST_SIZE as int == 0,
                remaining >= 0, DIGEST_SIZE > 0;
    }
    let mut refs: Vec<Sha3Digest> = Vec::new();
    let mut j: usize = 0;
    while j < n
        invariant
            j <= n,
            n * DIGEST_SIZE == input.len() - p3,
            p3 <= input.len(),
            s == input@,
            refs@.len() == j,
            forall|i: int| 0 <= i < j ==> (#[trigger] refs@[i])@ == s.subrange(
                p3 + i * DIGEST_SIZE, p3 + i * DIGEST_SIZE + DIGEST_SIZE),
        decreases n - j,
    {
        proof {
            assert(j * DIGEST_SIZE + DIGEST_SIZE <= n * DIGEST_SIZE) by (nonlinear_arith)
                requires j < n, DIGEST_SIZE > 0;
            assert(j * DIGEST_SIZE >= 0) by (nonlinear_arith)
                requires j >= 0, DIGEST_SIZE > 0;
        }
        let start: usize = p3 + j * DIGEST_SIZE;
        let chunk = copy_range(input, start, start + DIGEST_SIZE);
        let d = Sha3Digest::from_bytes(&chunk);
        refs.push(d);
        j = j + 1;
    }
    proof {
        let rv = digests_view(refs@);
        assert(forall|i: int| 0 <= i < rv.len() ==> (#[trigger] rv[i]).len() == DIGEST_SIZE);
        lemma_flatten_fixed_width(rv, DIGEST_SIZE as nat);
        let built = ObjectView { blob: blob@, refs: rv };
        assert(rv.flatten().len() == n * DIGEST_SIZE) by (nonlinear_arith)
            requires rv.flatten().len() == rv.len() * (DIGEST_SIZE as nat), rv.len() == n;
        assert(rv.flatten() =~= s.skip(p3 as int)) by {
            assert forall|x: int| 0 <= x < rv.flatten().len() implies rv.flatten()[x] == s.skip(p3 as int)[x] by {
                let q = x / DIGEST_SIZE as int;
                let off = x % DIGEST_SIZE as int;
                assert(x == q * DIGEST_SIZE + off && 0 <= off < DIGEST_SIZE && 0 <= q < n) by (nonlinear_arith)
                    requires 0 <= x < n * DIGEST_SIZE, q == x / DIGEST_SIZE as int, off == x % DIGEST_SIZE as int,
                        DIGEST_SIZE > 0;
                assert(rv.flatten().subrange(q * DIGEST_SIZE, q * DIGEST_SIZE + DIGEST_SIZE) == rv[q]);
                assert(rv.flatten()[x] == rv.flatten().subrange(q * DIGEST_SIZE, q * DIGEST_SIZE + DIGEST_SIZE)[off]);
                assert(rv[q] == refs@[q]@);
                assert(refs@[q]@ == s.subrange(p3 + q * DIGEST_SIZE, p3 + q * DIGEST_SIZE + DIGEST_SIZE));
                assert(s.subrange(p3 + q * DIGEST_SIZE, p3 + q * DIGEST_SIZE + DIGEST_SIZE)[off] == s[p3 + q * DIGEST_SIZE + off]);
                assert(s.skip(p3 as int)[x] == s[p3 + x]);
            }
        }
        // reassemble: the parsed pieces tile the whole input
        let tail = s.skip(blob_end as int);
        assert(tail =~= algo_name_spec() + seq![0u8] + leb128_spec(DIGEST_SIZE as nat) + leb128_spec(
            count as nat,
        ) + rv.flatten()) by {
            assert(leb128_spec(DIGEST_SIZE as nat) =~= seq![32u8]);
            assert(s.subrange(pos as int, p2 as int) == leb128_spec(width as nat));
            assert(s.subrange(p2 as int, p3 as int) == leb128_spec(count as nat));
            assert forall|x: int| 0 <= x < tail.len() implies tail[x] == (algo_name_spec() + seq![0u8]
                + leb128_spec(DIGEST_SIZE as nat) + leb128_spec(count as nat) + rv.flatten())[x] by {
                if x < 8 {
                } else if x == 8 {
                } else if x == 9 {
                    assert(tail[x] == s[pos as int]);
                    assert(s[pos as int] == s.subrange(pos as int, p2 as int)[0]);
                } else if x < 10 + (p3 - p2) {
                    assert(tail[x] == s[p2 + (x - 10)]);
                    assert(s[p2 + (x - 10)] == s.subrange(p2 as int, p3 as int)[x - 10]);
                } else {
                    assert(tail[x] == s[p3 + (x - 10 - (p3 - p2))]);
                    assert(rv.flatten()[x - 10 - (p3 - p2)] == s.skip(p3 as int)[x - 10 - (p3 - p2)]);
                }
            }
        }
        assert(s =~= leb128_spec(blob_len as nat) + blob@ + tail) by {
            assert(s.subrange(0, p1 as int) == leb128_spec(blob_len as nat));
            assert(blob@ == s.subrange(p1 as int, blob_end as int));
        }
        assert(is_encoding_of(s, built)) by {
            assert(built.wf());
            assert(encode_refs_spec(rv) == algo_name_spec() + seq![0u8] + leb128_spec(DIGEST_SIZE as nat)
                + leb128_spec(count as nat) + rv.flatten()) by {
                assert(rv.len() == count as nat);
            }
            assert(encode_object_spec(built) == leb128_spec(blob_len as nat) + blob@ + encode_refs_spec(rv)) by {
                assert(blob@.len() == blob_len as nat);
            }
        }
    }
    Ok((blob, refs))
}


} // verus!
