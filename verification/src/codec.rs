//! Canonical byte encoding of blob manifests.
//!
//! Numbers are written as fixed-width ASCII decimal (ten digits for 32-bit
//! values, twenty for 64-bit ones) and chunk ids as raw digest bytes, so the
//! encoding needs no separators or escaping and decodes unambiguously.

use vstd::prelude::*;

use vstd::arithmetic::div_mod::{lemma_fundamental_div_mod, lemma_mod_bound};

use crate::blob::{BlobId, BlobManifest, BlobManifestView};

verus! {

/// Ten to the `w`th power.
pub open spec fn pow10(w: nat) -> nat
    decreases w,
{
    if w == 0 {
        1
    } else {
        10 * pow10((w - 1) as nat)
    }
}

/// The ASCII digit for a value below ten.
pub open spec fn digit_byte(d: nat) -> u8 {
    (48 + d) as u8
}

/// True when every byte of `s` is an ASCII digit.
pub open spec fn all_digits(s: Seq<u8>) -> bool {
    forall|i: int| 0 <= i < s.len() ==> 48 <= #[trigger] s[i] <= 57
}

/// `n` written as exactly `w` ASCII decimal digits, most significant first.
pub open spec fn enc_dec(n: nat, w: nat) -> Seq<u8>
    decreases w,
{
    if w == 0 {
        Seq::empty()
    } else {
        enc_dec(n / 10, (w - 1) as nat) + seq![digit_byte(n % 10)]
    }
}

/// The value of a string of ASCII decimal digits, most significant first.
pub open spec fn dec_val(s: Seq<u8>) -> nat
    decreases s.len(),
{
    if s.len() == 0 {
        0
    } else {
        dec_val(s.drop_last()) * 10 + (if s.last() >= 48 {
            (s.last() - 48) as nat
        } else {
            0
        })
    }
}

/// Encoding then decoding a number below `pow10(w)` gives it back, as `w`
/// digits.
pub proof fn lemma_dec_roundtrip(n: nat, w: nat)
    requires
        n < pow10(w),
    ensures
        enc_dec(n, w).len() == w,
        all_digits(enc_dec(n, w)),
        dec_val(enc_dec(n, w)) == n,
    decreases w,
{
    if w == 0 {
    } else {
        let q = n / 10;
        let r = n % 10;
        lemma_fundamental_div_mod(n as int, 10);
        lemma_mod_bound(n as int, 10);
        assert(q < pow10((w - 1) as nat)) by {
            if q >= pow10((w - 1) as nat) {
                assert(n == 10 * q + r);
                assert(n >= 10 * pow10((w - 1) as nat)) by (nonlinear_arith)
                    requires
                        q >= pow10((w - 1) as nat),
                        n == 10 * q + r,
                        r >= 0,
                ;
            }
        }
        lemma_dec_roundtrip(q, (w - 1) as nat);
        let e = enc_dec(n, w);
        assert(e.drop_last() =~= enc_dec(q, (w - 1) as nat));
        assert(e.last() == digit_byte(r));
        assert(dec_val(e) == q * 10 + r);
        assert(n == 10 * q + r);
    }
}

/// A digit string's value dominates the value of any of its prefixes.
pub proof fn lemma_dec_val_prefix(s: Seq<u8>, i: int)
    requires
        0 <= i <= s.len(),
    ensures
        dec_val(s) >= dec_val(s.take(i)),
    decreases s.len() - i,
{
    if i == s.len() {
        assert(s.take(i) =~= s);
    } else {
        lemma_dec_val_prefix(s, i + 1);
        assert(s.take(i + 1).drop_last() =~= s.take(i));
        assert(dec_val(s.take(i + 1)) == dec_val(s.take(i)) * 10 + (if s.take(i + 1).last() >= 48 {
            (s.take(i + 1).last() - 48) as nat
        } else {
            0
        }));
        assert(dec_val(s.take(i)) * 10 >= dec_val(s.take(i))) by (nonlinear_arith);
    }
}

/// Writes `n` as exactly `w` ASCII decimal digits onto the end of `out`.
pub fn push_dec(out: &mut Vec<u8>, n: u64, w: usize)
    requires
        n < pow10(w as nat),
    ensures
        final(out)@ == old(out)@ + enc_dec(n as nat, w as nat),
    decreases w,
{
    if w == 0 {
        proof {
            assert(old(out)@ + enc_dec(n as nat, 0) =~= old(out)@);
        }
    } else {
        proof {
            lemma_fundamental_div_mod(n as int, 10);
            lemma_mod_bound(n as int, 10);
            if n / 10 >= pow10((w - 1) as nat) {
                assert(n >= 10 * pow10((w - 1) as nat)) by (nonlinear_arith)
                    requires
                        n / 10 >= pow10((w - 1) as nat),
                        n == 10 * (n / 10) + n % 10,
                        n % 10 >= 0,
                ;
            }
        }
        push_dec(out, n / 10, w - 1);
        out.push(48 + (n % 10) as u8);
        proof {
            assert(final(out)@ =~= old(out)@ + enc_dec(n as nat, w as nat));
        }
    }
}

/// Reads `w` ASCII decimal digits from `s` starting at `at`; `None` when a
/// byte is not a digit or the value exceeds `u64::MAX`.
pub fn read_dec(s: &[u8], at: usize, w: usize) -> (r: Option<u64>)
    requires
        at + w <= s@.len(),
    ensures
        match r {
            Some(n) => {
                &&& all_digits(s@.subrange(at as int, at + w))
                &&& n == dec_val(s@.subrange(at as int, at + w))
            },
            None => !(all_digits(s@.subrange(at as int, at + w)) && dec_val(
                s@.subrange(at as int, at + w),
            ) <= u64::MAX),
        },
{
    let ghost digits = s@.subrange(at as int, at + w);
    let slen = s.len();
    let mut acc: u64 = 0;
    let mut i: usize = 0;
    while i < w
        invariant
            0 <= i <= w,
            at + w <= slen == s@.len(),
            digits == s@.subrange(at as int, at + w),
            all_digits(digits.take(i as int)),
            acc == dec_val(digits.take(i as int)),
        decreases w - i,
    {
        let b = *vstd::slice::slice_index_get(s, at + i);
        proof {
            assert(digits[i as int] == s@[at + i]);
            assert(digits.take(i + 1).drop_last() =~= digits.take(i as int));
        }
        if b < 48 || b > 57 {
            return None;
        }
        let d = b - 48;
        if acc > (u64::MAX - (d as u64)) / 10 {
            proof {
                let upto = digits.take(i + 1);
                assert(dec_val(upto) == acc * 10 + d);
                assert(acc * 10 + d > u64::MAX) by (nonlinear_arith)
                    requires
                        acc > (u64::MAX - (d as u64)) / 10,
                        d < 10,
                        acc >= 0,
                ;
                lemma_dec_val_prefix(digits, i + 1);
            }
            return None;
        }
        acc = acc * 10 + (d as u64);
        i = i + 1;
    }
    proof {
        assert(digits.take(w as int) =~= digits);
    }
    Some(acc)
}

/// `pow10(10)` exceeds every 32-bit value.
pub proof fn lemma_pow10_10()
    ensures
        pow10(10) == 10000000000,
{
    assert(pow10(0) == 1);
    assert(pow10(1) == 10);
    assert(pow10(2) == 100);
    assert(pow10(3) == 1000);
    assert(pow10(4) == 10000);
    assert(pow10(5) == 100000);
    assert(pow10(6) == 1000000);
    assert(pow10(7) == 10000000);
    assert(pow10(8) == 100000000);
    assert(pow10(9) == 1000000000);
}

/// `pow10(20)` exceeds every 64-bit value.
pub proof fn lemma_pow10_20()
    ensures
        pow10(20) == 100000000000000000000,
{
    lemma_pow10_10();
    assert(pow10(11) == 10 * pow10(10));
    assert(pow10(12) == 10 * pow10(11));
    assert(pow10(13) == 10 * pow10(12));
    assert(pow10(14) == 10 * pow10(13));
    assert(pow10(15) == 10 * pow10(14));
    assert(pow10(16) == 10 * pow10(15));
    assert(pow10(17) == 10 * pow10(16));
    assert(pow10(18) == 10 * pow10(17));
    assert(pow10(19) == 10 * pow10(18));
    assert(pow10(20) == 10 * pow10(19));
}

/// The chunk ids of a manifest, concatenated in order.
pub open spec fn concat_bytes(parts: Seq<Seq<u8>>) -> Seq<u8>
    decreases parts.len(),
{
    if parts.len() == 0 {
        Seq::empty()
    } else {
        concat_bytes(parts.drop_last()) + parts.last()
    }
}

/// A manifest is well formed when every chunk id is a 32-byte digest.
pub open spec fn manifest_wf(m: BlobManifestView) -> bool {
    forall|i: int| 0 <= i < m.parts.len() ==> (#[trigger] m.parts[i]).len() == 32
}

/// The canonical encoding of a manifest: the chunk size as ten digits, the
/// chunk count as twenty digits, then the raw chunk ids.
pub open spec fn manifest_enc(m: BlobManifestView) -> Seq<u8> {
    enc_dec(m.chunk_size as nat, 10) + enc_dec(m.parts.len(), 20) + concat_bytes(m.parts)
}

/// What a byte string decodes to as a manifest, if anything.
pub open spec fn manifest_dec(s: Seq<u8>) -> Option<BlobManifestView> {
    if s.len() < 30 {
        None
    } else {
        let csd = s.subrange(0, 10);
        let cntd = s.subrange(10, 30);
        let cs = dec_val(csd);
        let cnt = dec_val(cntd);
        if all_digits(csd) && cs <= u32::MAX && all_digits(cntd) && s.len() == 30 + cnt * 32 {
            Some(
                BlobManifestView {
                    parts: Seq::new(cnt, |i: int| s.subrange(30 + 32 * i, 30 + 32 * i + 32)),
                    chunk_size: cs as u32,
                },
            )
        } else {
            None
        }
    }
}

/// Well-formed chunk ids concatenate to 32 bytes per id.
pub proof fn lemma_concat_bytes_len(parts: Seq<Seq<u8>>)
    requires
        forall|i: int| 0 <= i < parts.len() ==> (#[trigger] parts[i]).len() == 32,
    ensures
        concat_bytes(parts).len() == 32 * parts.len(),
    decreases parts.len(),
{
    if parts.len() > 0 {
        lemma_concat_bytes_len(parts.drop_last());
    }
}

/// Each 32-byte window of a well-formed concatenation is the id it came from.
pub proof fn lemma_concat_bytes_index(parts: Seq<Seq<u8>>, i: int)
    requires
        forall|j: int| 0 <= j < parts.len() ==> (#[trigger] parts[j]).len() == 32,
        0 <= i < parts.len(),
    ensures
        concat_bytes(parts).subrange(32 * i, 32 * i + 32) == parts[i],
    decreases parts.len(),
{
    lemma_concat_bytes_len(parts);
    if i == parts.len() - 1 {
        lemma_concat_bytes_len(parts.drop_last());
        assert(concat_bytes(parts).subrange(32 * i, 32 * i + 32) =~= parts.last());
    } else {
        lemma_concat_bytes_index(parts.drop_last(), i);
        lemma_concat_bytes_len(parts.drop_last());
        assert(concat_bytes(parts).subrange(32 * i, 32 * i + 32) =~= concat_bytes(
            parts.drop_last(),
        ).subrange(32 * i, 32 * i + 32));
    }
}

/// Encoding a well-formed manifest and decoding the bytes gives it back.
pub proof fn lemma_manifest_roundtrip(m: BlobManifestView)
    requires
        manifest_wf(m),
        m.parts.len() <= u64::MAX,
    ensures
        manifest_dec(manifest_enc(m)) == Some(m),
{
    lemma_pow10_10();
    lemma_pow10_20();
    lemma_dec_roundtrip(m.chunk_size as nat, 10);
    lemma_dec_roundtrip(m.parts.len(), 20);
    lemma_concat_bytes_len(m.parts);
    let s = manifest_enc(m);
    assert(s.subrange(0, 10) =~= enc_dec(m.chunk_size as nat, 10));
    assert(s.subrange(10, 30) =~= enc_dec(m.parts.len(), 20));
    assert(s.len() == 30 + m.parts.len() * 32);
    let dec = manifest_dec(s);
    assert(dec is Some);
    let got = dec->0;
    assert(got.chunk_size == m.chunk_size);
    assert forall|i: int| 0 <= i < m.parts.len() implies got.parts[i] == m.parts[i] by {
        lemma_concat_bytes_index(m.parts, i);
        assert(s.subrange(30 + 32 * i, 30 + 32 * i + 32) =~= concat_bytes(m.parts).subrange(
            32 * i,
            32 * i + 32,
        ));
    }
    assert(got.parts =~= m.parts);
}

/// Serializes a manifest into its canonical byte encoding.
pub fn encode_manifest(m: &BlobManifest) -> (r: Vec<u8>)
    requires
        manifest_wf(m@),
    ensures
        r@ == manifest_enc(m@),
{
    proof {
        lemma_pow10_10();
        lemma_pow10_20();
        lemma_concat_bytes_len(m@.parts);
    }
    let mut out: Vec<u8> = Vec::new();
    push_dec(&mut out, m.chunk_size as u64, 10);
    push_dec(&mut out, m.parts.len() as u64, 20);
    let mut i: usize = 0;
    while i < m.parts.len()
        invariant
            0 <= i <= m.parts@.len(),
            manifest_wf(m@),
            out@ == enc_dec(m@.chunk_size as nat, 10) + enc_dec(m@.parts.len(), 20) + concat_bytes(
                m@.parts.take(i as int),
            ),
        decreases m.parts@.len() - i,
    {
        let mut id_bytes = vstd::slice::slice_to_vec(m.parts[i].0.as_slice());
        out.append(&mut id_bytes);
        proof {
            assert(m@.parts.take(i + 1).drop_last() =~= m@.parts.take(i as int));
            assert(out@ =~= enc_dec(m@.chunk_size as nat, 10) + enc_dec(m@.parts.len(), 20)
                + concat_bytes(m@.parts.take(i + 1)));
        }
        i = i + 1;
    }
    proof {
        assert(m@.parts.take(m@.parts.len() as int) =~= m@.parts);
        assert(out@ =~= manifest_enc(m@));
    }
    out
}

/// Parses a canonical manifest encoding; `None` exactly when the bytes do
/// not decode.
pub fn decode_manifest(bytes: &[u8]) -> (r: Option<BlobManifest>)
    ensures
        match r {
            Some(m) => manifest_dec(bytes@) == Some(m@) && manifest_wf(m@),
            None => manifest_dec(bytes@) is None,
        },
{
    let len = bytes.len();
    if len < 30 {
        return None;
    }
    let cs = match read_dec(bytes, 0, 10) {
        Some(v) => v,
        None => {
            proof {
                lemma_pow10_10();
            }
            return None;
        },
    };
    if cs > u32::MAX as u64 {
        return None;
    }
    let cnt = match read_dec(bytes, 10, 20) {
        Some(v) => v,
        None => {
            proof {
                let cntd = bytes@.subrange(10, 30);
                if all_digits(cntd) {
                    assert(dec_val(cntd) > u64::MAX);
                    assert(30 + dec_val(cntd) * 32 > u64::MAX) by (nonlinear_arith)
                        requires
                            dec_val(cntd) > u64::MAX,
                    ;
                    assert(bytes@.len() <= usize::MAX <= u64::MAX);
                }
            }
            return None;
        },
    };
    let remaining = len - 30;
    let q = remaining / 32;
    if remaining % 32 != 0 || cnt != (q as u64) {
        proof {
            let n = dec_val(bytes@.subrange(10, 30));
            if bytes@.len() == 30 + n * 32 {
                assert(remaining == n * 32);
                assert(n * 32 % 32 == 0 && n * 32 / 32 == n) by (nonlinear_arith);
            }
        }
        return None;
    }
    let mut parts: Vec<BlobId> = Vec::new();
    let mut off: usize = 30;
    let mut i: usize = 0;
    proof {
        assert(bytes@.len() == 30 + (cnt as nat) * 32) by (nonlinear_arith)
            requires
                cnt == (remaining / 32) as u64,
                remaining % 32 == 0,
                remaining == bytes@.len() - 30,
                remaining <= usize::MAX,
        ;
    }
    while i < q
        invariant
            0 <= i <= q,
            off == 30 + 32 * i,
            q == cnt,
            bytes@.len() == 30 + (cnt as nat) * 32,
            bytes@.len() <= usize::MAX,
            parts@.len() == i,
            forall|j: int|
                0 <= j < i ==> (#[trigger] parts@[j])@ == bytes@.subrange(
                    30 + 32 * j,
                    30 + 32 * j + 32,
                ),
        decreases q - i,
    {
        proof {
            assert(off + 32 <= bytes@.len()) by (nonlinear_arith)
                requires
                    off == 30 + 32 * i,
                    i < q,
                    bytes@.len() == 30 + (q as nat) * 32,
            ;
        }
        let chunk = vstd::slice::slice_subrange(bytes, off, off + 32);
        parts.push(BlobId(vstd::slice::slice_to_vec(chunk)));
        off = off + 32;
        i = i + 1;
    }
    let m = BlobManifest { parts, chunk_size: cs as u32 };
    proof {
        let spec_parts = Seq::new(cnt as nat, |j: int| bytes@.subrange(30 + 32 * j, 30 + 32 * j + 32));
        assert(m@.parts =~= spec_parts);
        assert(manifest_dec(bytes@) == Some(m@));
    }
    Some(m)
}

} // verus!
