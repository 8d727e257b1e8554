//! The canonical persistence format: a structured text document holding
//! exactly the two canonical collections (nodes, then tags).
//!
//! Every field has a fixed, self-delimiting shape — numbers are twenty
//! decimal digits, strings carry a length prefix followed by their raw
//! characters, byte strings a length prefix followed by hex digits — so the
//! document needs no escaping and parses unambiguously. Indexes and
//! counters are never written; a loader reconstructs them.

use vstd::prelude::*;

use crate::codec::{lemma_pow10_20, pow10};

verus! {

// ---------------------------------------------------------------------
// Numbers: twenty decimal digits, most significant first.
// ---------------------------------------------------------------------

/// The width every number is written with.
pub open spec fn num_width() -> nat {
    20
}

/// The decimal digit character for a value below ten.
pub open spec fn digit_char(d: nat) -> char {
    ((48 + d) as u8) as char
}

/// The value of a decimal digit character, if it is one.
pub open spec fn digit_char_val(c: char) -> Option<nat> {
    if 48 <= c as u32 && c as u32 <= 57 {
        Some((c as u32 - 48) as nat)
    } else {
        None
    }
}

/// `n` written as exactly `w` decimal digit characters.
pub open spec fn enc_num(n: nat, w: nat) -> Seq<char>
    decreases w,
{
    if w == 0 {
        Seq::empty()
    } else {
        enc_num(n / 10, (w - 1) as nat) + seq![digit_char(n % 10)]
    }
}

/// True when every character is a decimal digit.
pub open spec fn all_digit_chars(s: Seq<char>) -> bool {
    forall|i: int| 0 <= i < s.len() ==> digit_char_val(#[trigger] s[i]) is Some
}

/// The value of a string of decimal digit characters.
pub open spec fn num_val(s: Seq<char>) -> nat
    decreases s.len(),
{
    if s.len() == 0 {
        0
    } else {
        num_val(s.drop_last()) * 10 + (match digit_char_val(s.last()) {
            Some(d) => d,
            None => 0,
        })
    }
}

/// Encoding then decoding a number below `pow10(w)` gives it back.
pub proof fn lemma_num_roundtrip(n: nat, w: nat)
    requires
        n < pow10(w),
    ensures
        enc_num(n, w).len() == w,
        all_digit_chars(enc_num(n, w)),
        num_val(enc_num(n, w)) == n,
    decreases w,
{
    if w > 0 {
        let q = n / 10;
        let r = n % 10;
        vstd::arithmetic::div_mod::lemma_fundamental_div_mod(n as int, 10);
        vstd::arithmetic::div_mod::lemma_mod_bound(n as int, 10);
        assert(q < pow10((w - 1) as nat)) by {
            if q >= pow10((w - 1) as nat) {
                assert(n >= 10 * pow10((w - 1) as nat)) by (nonlinear_arith)
                    requires
                        q >= pow10((w - 1) as nat),
                        n == 10 * q + r,
                        r >= 0,
                ;
            }
        }
        lemma_num_roundtrip(q, (w - 1) as nat);
        let e = enc_num(n, w);
        assert(e.drop_last() =~= enc_num(q, (w - 1) as nat));
        assert(e.last() == digit_char(r));
        assert(digit_char_val(digit_char(r)) == Some(r));
        assert(num_val(e) == q * 10 + r);
    }
}

/// A digit string's value dominates the value of any of its prefixes.
pub proof fn lemma_num_val_prefix(s: Seq<char>, i: int)
    requires
        0 <= i <= s.len(),
    ensures
        num_val(s) >= num_val(s.take(i)),
    decreases s.len() - i,
{
    if i == s.len() {
        assert(s.take(i) =~= s);
    } else {
        lemma_num_val_prefix(s, i + 1);
        assert(s.take(i + 1).drop_last() =~= s.take(i));
        assert(num_val(s.take(i + 1)) == num_val(s.take(i)) * 10 + (match digit_char_val(
            s.take(i + 1).last(),
        ) {
            Some(d) => d,
            None => 0,
        }));
        assert(num_val(s.take(i)) * 10 >= num_val(s.take(i))) by (nonlinear_arith);
    }
}

/// Writes `n` as twenty decimal digit characters onto the end of `out`.
pub fn push_num(out: &mut Vec<char>, n: u64)
    ensures
        final(out)@ == old(out)@ + enc_num(n as nat, num_width()),
{
    proof {
        lemma_pow10_20();
    }
    push_num_width(out, n, 20);
}

/// Writes `n` as exactly `w` decimal digit characters onto the end of
/// `out`.
fn push_num_width(out: &mut Vec<char>, n: u64, w: usize)
    requires
        n < pow10(w as nat),
    ensures
        final(out)@ == old(out)@ + enc_num(n as nat, w as nat),
    decreases w,
{
    if w == 0 {
        proof {
            assert(old(out)@ + enc_num(n as nat, 0) =~= old(out)@);
        }
    } else {
        proof {
            vstd::arithmetic::div_mod::lemma_fundamental_div_mod(n as int, 10);
            vstd::arithmetic::div_mod::lemma_mod_bound(n as int, 10);
            if n / 10 >= pow10((w - 1) as nat) {
                assert(n >= 10 * pow10((w - 1) as nat)) by (nonlinear_arith)
                    requires
                        n / 10 >= pow10((w - 1) as nat),
                        n == 10 * (n / 10) + n % 10,
                        n % 10 >= 0,
                ;
            }
        }
        push_num_width(out, n / 10, w - 1);
        out.push(((48 + (n % 10) as u8)) as char);
        proof {
            assert(final(out)@ =~= old(out)@ + enc_num(n as nat, w as nat));
        }
    }
}

/// What a number parse yields: the value and the next position, if twenty
/// digits denoting at most `u64::MAX` stand at `at`.
pub open spec fn pnum(s: Seq<char>, at: int) -> Option<(u64, int)> {
    if at < 0 || at + num_width() > s.len() {
        None
    } else {
        let digits = s.subrange(at, at + num_width());
        if all_digit_chars(digits) && num_val(digits) <= u64::MAX {
            Some((num_val(digits) as u64, at + num_width()))
        } else {
            None
        }
    }
}

/// Twenty rendered digits parse back to the rendered value.
pub proof fn lemma_pnum_render(s: Seq<char>, at: int, n: u64)
    requires
        0 <= at,
        at + num_width() <= s.len(),
        s.subrange(at, at + num_width()) == enc_num(n as nat, num_width()),
    ensures
        pnum(s, at) == Some((n, at + num_width())),
{
    lemma_pow10_20();
    lemma_num_roundtrip(n as nat, num_width());
}

/// Reads twenty decimal digits at `at`; `None` when a character is not a
/// digit or the value exceeds `u64::MAX`.
pub fn read_num(s: &Vec<char>, at: usize) -> (r: Option<(u64, usize)>)
    ensures
        match r {
            Some((n, pos)) => pnum(s@, at as int) == Some((n, pos as int)),
            None => pnum(s@, at as int) is None,
        },
{
    if at > s.len() || s.len() - at < 20 {
        return None;
    }
    let ghost digits = s@.subrange(at as int, at + 20);
    let mut acc: u64 = 0;
    let mut i: usize = 0;
    while i < 20
        invariant
            0 <= i <= 20,
            at + 20 <= s@.len(),
            s@.len() <= usize::MAX,
            digits == s@.subrange(at as int, at + 20),
            all_digit_chars(digits.take(i as int)),
            acc == num_val(digits.take(i as int)),
        decreases 20 - i,
    {
        let c = s[at + i];
        let u = c as u32;
        proof {
            assert(digits[i as int] == s@[at + i]);
            assert(digits.take(i + 1).drop_last() =~= digits.take(i as int));
        }
        if u < 48 || u > 57 {
            return None;
        }
        let d = (u - 48) as u64;
        if acc > (u64::MAX - d) / 10 {
            proof {
                assert(num_val(digits.take(i + 1)) == acc * 10 + d);
                assert(acc * 10 + d > u64::MAX) by (nonlinear_arith)
                    requires
                        acc > (u64::MAX - d) / 10,
                        d < 10,
                        acc >= 0,
                ;
                lemma_num_val_prefix(digits, i + 1);
            }
            return None;
        }
        acc = acc * 10 + d;
        i = i + 1;
    }
    proof {
        assert(digits.take(20) =~= digits);
    }
    Some((acc, at + 20))
}

// ---------------------------------------------------------------------
// Byte strings: a length, then two hex digits per byte.
// ---------------------------------------------------------------------

/// The lower-case hex digit character for a value below sixteen.
pub open spec fn hex_char(d: nat) -> char {
    if d < 10 {
        ((48 + d) as u8) as char
    } else {
        ((87 + d) as u8) as char
    }
}

/// The value of a lower-case hex digit character, if it is one.
pub open spec fn hex_char_val(c: char) -> Option<nat> {
    if 48 <= c as u32 && c as u32 <= 57 {
        Some((c as u32 - 48) as nat)
    } else if 97 <= c as u32 && c as u32 <= 102 {
        Some((c as u32 - 87) as nat)
    } else {
        None
    }
}

/// Bytes written as two lower-case hex digits each.
pub open spec fn hex_of(bytes: Seq<u8>) -> Seq<char>
    decreases bytes.len(),
{
    if bytes.len() == 0 {
        Seq::empty()
    } else {
        hex_of(bytes.drop_last()) + seq![
            hex_char((bytes.last() / 16) as nat),
            hex_char((bytes.last() % 16) as nat),
        ]
    }
}

/// What a run of hex digit pairs denotes, if every character is one.
pub open spec fn hex_decode(s: Seq<char>) -> Option<Seq<u8>>
    decreases s.len(),
{
    if s.len() % 2 != 0 {
        None
    } else if s.len() == 0 {
        Some(Seq::empty())
    } else {
        match hex_decode(s.drop_last().drop_last()) {
            None => None,
            Some(bs) => match (hex_char_val(s[s.len() - 2]), hex_char_val(s[s.len() - 1])) {
                (Some(hi), Some(lo)) => Some(bs.push((16 * hi + lo) as u8)),
                _ => None,
            },
        }
    }
}

/// Hex-encoding bytes and decoding the characters gives the bytes back.
pub proof fn lemma_hex_roundtrip(bytes: Seq<u8>)
    ensures
        hex_of(bytes).len() == 2 * bytes.len(),
        hex_decode(hex_of(bytes)) == Some(bytes),
    decreases bytes.len(),
{
    if bytes.len() > 0 {
        lemma_hex_roundtrip(bytes.drop_last());
        let b = bytes.last();
        let e = hex_of(bytes);
        vstd::arithmetic::div_mod::lemma_fundamental_div_mod(b as int, 16);
        vstd::arithmetic::div_mod::lemma_mod_bound(b as int, 16);
        assert(b / 16 < 16);
        assert(e.drop_last().drop_last() =~= hex_of(bytes.drop_last()));
        assert(e[e.len() - 2] == hex_char((b / 16) as nat));
        assert(e[e.len() - 1] == hex_char((b % 16) as nat));
        assert(hex_char_val(hex_char((b / 16) as nat)) == Some((b / 16) as nat));
        assert(hex_char_val(hex_char((b % 16) as nat)) == Some((b % 16) as nat));
        assert(16 * ((b / 16) as nat) + ((b % 16) as nat) == b);
        assert(hex_decode(e)->0 =~= bytes);
    }
}

/// Writes each byte as two hex digit characters onto the end of `out`.
pub fn push_hex(out: &mut Vec<char>, bytes: &Vec<u8>)
    ensures
        final(out)@ == old(out)@ + hex_of(bytes@),
{
    let mut i: usize = 0;
    proof {
        assert(bytes@.take(0) =~= Seq::<u8>::empty());
        assert(old(out)@ + hex_of(bytes@.take(0)) =~= old(out)@);
    }
    while i < bytes.len()
        invariant
            i <= bytes@.len(),
            out@ == old(out)@ + hex_of(bytes@.take(i as int)),
        decreases bytes@.len() - i,
    {
        let b = bytes[i];
        let hi = b / 16;
        let lo = b % 16;
        out.push(if hi < 10 {
            ((48 + hi) as char)
        } else {
            ((87 + hi) as char)
        });
        out.push(if lo < 10 {
            ((48 + lo) as char)
        } else {
            ((87 + lo) as char)
        });
        proof {
            assert(bytes@.take(i + 1).drop_last() =~= bytes@.take(i as int));
            assert(bytes@.take(i + 1).last() == bytes@[i as int]);
            assert(out@ =~= old(out)@ + hex_of(bytes@.take(i + 1)));
        }
        i = i + 1;
    }
    proof {
        assert(bytes@.take(bytes@.len() as int) =~= bytes@);
    }
}

/// Reads `count` bytes written as hex digit pairs at `at`.
pub fn read_hex(s: &Vec<char>, at: usize, count: usize) -> (r: Option<(Vec<u8>, usize)>)
    requires
        at + 2 * count <= s@.len(),
    ensures
        match r {
            Some((bytes, pos)) => {
                &&& hex_decode(s@.subrange(at as int, at + 2 * count)) == Some(bytes@)
                &&& bytes@.len() == count
                &&& pos == at + 2 * count
            },
            None => hex_decode(s@.subrange(at as int, at + 2 * count)) is None,
        },
{
    let ghost digits = s@.subrange(at as int, at + 2 * count);
    let slen = s.len();
    proof {
        assert(slen == s@.len());
    }
    let mut out: Vec<u8> = Vec::new();
    let mut i: usize = 0;
    proof {
        assert(digits.take(0) =~= Seq::<char>::empty());
        assert(hex_decode(digits.take(0)) == Some(Seq::<u8>::empty()));
    }
    while i < count
        invariant
            i <= count,
            at + 2 * count <= s@.len(),
            s@.len() <= usize::MAX,
            digits == s@.subrange(at as int, at + 2 * count),
            out@.len() == i,
            hex_decode(digits.take(2 * i as int)) == Some(out@),
        decreases count - i,
    {
        let hc = s[at + 2 * i] as u32;
        let lc = s[at + 2 * i + 1] as u32;
        proof {
            assert(digits[2 * i as int] == s@[at + 2 * i]);
            assert(digits[2 * i + 1] == s@[at + 2 * i + 1]);
            let upto = digits.take(2 * (i + 1) as int);
            assert(upto.drop_last().drop_last() =~= digits.take(2 * i as int));
            assert(upto.len() % 2 == 0) by (nonlinear_arith)
                requires
                    upto.len() == 2 * (i + 1),
            ;
            assert(upto[upto.len() - 2] == digits[2 * i as int]);
            assert(upto[upto.len() - 1] == digits[2 * i + 1]);
        }
        let hi: u32 = if 48 <= hc && hc <= 57 {
            hc - 48
        } else if 97 <= hc && hc <= 102 {
            hc - 87
        } else {
            proof {
                lemma_hex_prefix_none(digits, 2 * (i + 1) as int);
            }
            return None;
        };
        let lo: u32 = if 48 <= lc && lc <= 57 {
            lc - 48
        } else if 97 <= lc && lc <= 102 {
            lc - 87
        } else {
            proof {
                lemma_hex_prefix_none(digits, 2 * (i + 1) as int);
            }
            return None;
        };
        out.push((16 * hi + lo) as u8);
        proof {
            assert(hex_decode(digits.take(2 * (i + 1) as int)) == Some(out@));
        }
        i = i + 1;
    }
    proof {
        assert(digits.take(2 * count as int) =~= digits);
    }
    Some((out, at + 2 * count))
}

// ---------------------------------------------------------------------
// The document grammar: renders and their parses.
// ---------------------------------------------------------------------

/// `piece` stands verbatim in `s` at position `at`.
pub open spec fn piece_at(s: Seq<char>, at: int, piece: Seq<char>) -> bool {
    &&& 0 <= at
    &&& at + piece.len() <= s.len()
    &&& s.subrange(at, at + piece.len()) == piece
}

/// A piece made of two halves stands as its halves, in order.
pub proof fn lemma_piece_split(s: Seq<char>, at: int, a: Seq<char>, b: Seq<char>)
    requires
        piece_at(s, at, a + b),
    ensures
        piece_at(s, at, a),
        piece_at(s, at + a.len(), b),
{
    let ab = a + b;
    assert forall|i: int| 0 <= i < a.len() implies s[at + i] == a[i] by {
        assert(s.subrange(at, at + ab.len())[i] == ab[i]);
    }
    assert forall|i: int| 0 <= i < b.len() implies s[at + a.len() + i] == b[i] by {
        assert(s.subrange(at, at + ab.len())[a.len() + i] == ab[a.len() + i]);
    }
    assert(s.subrange(at, at + a.len()) =~= a);
    assert(s.subrange(at + a.len(), at + a.len() + b.len()) =~= b);
}

/// A flag character: `1` for true, `0` for false.
pub open spec fn render_bool(b: bool) -> Seq<char> {
    if b {
        seq!['1']
    } else {
        seq!['0']
    }
}

pub open spec fn pbool(s: Seq<char>, at: int) -> Option<(bool, int)> {
    if at < 0 || at + 1 > s.len() {
        None
    } else if s[at] == '1' {
        Some((true, at + 1))
    } else if s[at] == '0' {
        Some((false, at + 1))
    } else {
        None
    }
}

pub proof fn lemma_pbool_render(s: Seq<char>, at: int, b: bool)
    requires
        piece_at(s, at, render_bool(b)),
    ensures
        pbool(s, at) == Some((b, at + 1)),
{
    assert(s[at] == render_bool(b)[0]);
}

/// A string: its length, then its raw characters.
pub open spec fn render_string(v: Seq<char>) -> Seq<char> {
    enc_num(v.len(), num_width()) + v
}

pub open spec fn pstring(s: Seq<char>, at: int) -> Option<(Seq<char>, int)> {
    match pnum(s, at) {
        None => None,
        Some((n, p)) => if p + n <= s.len() {
            Some((s.subrange(p, p + n), p + n))
        } else {
            None
        },
    }
}

pub proof fn lemma_pstring_render(s: Seq<char>, at: int, v: Seq<char>)
    requires
        piece_at(s, at, render_string(v)),
        v.len() <= u64::MAX,
    ensures
        pstring(s, at) == Some((v, at + render_string(v).len())),
{
    lemma_piece_split(s, at, enc_num(v.len(), num_width()), v);
    lemma_pow10_20();
    lemma_num_roundtrip(v.len(), num_width());
    lemma_pnum_render(s, at, v.len() as u64);
}

/// A byte string: its length, then two hex digits per byte.
pub open spec fn render_bytes(v: Seq<u8>) -> Seq<char> {
    enc_num(v.len(), num_width()) + hex_of(v)
}

pub open spec fn pbytes(s: Seq<char>, at: int) -> Option<(Seq<u8>, int)> {
    match pnum(s, at) {
        None => None,
        Some((n, p)) => if p + 2 * n <= s.len() {
            match hex_decode(s.subrange(p, p + 2 * n)) {
                Some(bs) => Some((bs, p + 2 * n)),
                None => None,
            }
        } else {
            None
        },
    }
}

pub proof fn lemma_pbytes_render(s: Seq<char>, at: int, v: Seq<u8>)
    requires
        piece_at(s, at, render_bytes(v)),
        v.len() <= u64::MAX,
    ensures
        pbytes(s, at) == Some((v, at + render_bytes(v).len())),
{
    lemma_hex_roundtrip(v);
    lemma_piece_split(s, at, enc_num(v.len(), num_width()), hex_of(v));
    lemma_pow10_20();
    lemma_num_roundtrip(v.len(), num_width());
    lemma_pnum_render(s, at, v.len() as u64);
}

/// An optional string: a flag, then the string when present.
pub open spec fn render_opt_string(v: Option<Seq<char>>) -> Seq<char> {
    match v {
        None => seq!['0'],
        Some(x) => seq!['1'] + render_string(x),
    }
}

pub open spec fn popt_string(s: Seq<char>, at: int) -> Option<(Option<Seq<char>>, int)> {
    if at < 0 || at + 1 > s.len() {
        None
    } else if s[at] == '0' {
        Some((None, at + 1))
    } else if s[at] == '1' {
        match pstring(s, at + 1) {
            Some((x, p)) => Some((Some(x), p)),
            None => None,
        }
    } else {
        None
    }
}

pub proof fn lemma_popt_string_render(s: Seq<char>, at: int, v: Option<Seq<char>>)
    requires
        piece_at(s, at, render_opt_string(v)),
        v is Some ==> v->0.len() <= u64::MAX,
    ensures
        popt_string(s, at) == Some((v, at + render_opt_string(v).len())),
{
    match v {
        None => {
            assert(s[at] == render_opt_string(v)[0]);
        },
        Some(x) => {
            lemma_piece_split(s, at, seq!['1'], render_string(x));
            assert(s.subrange(at, at + 1)[0] == '1');
            lemma_pstring_render(s, at + 1, x);
        },
    }
}

/// One character per display color.
pub open spec fn color_char(c: crate::tag::TagColors) -> char {
    match c {
        crate::tag::TagColors::Red => 'r',
        crate::tag::TagColors::Blue => 'b',
        crate::tag::TagColors::Green => 'g',
        crate::tag::TagColors::Yellow => 'y',
        crate::tag::TagColors::Purple => 'p',
        crate::tag::TagColors::Gray => 'a',
    }
}

pub open spec fn pcolor(s: Seq<char>, at: int) -> Option<(crate::tag::TagColors, int)> {
    if at < 0 || at + 1 > s.len() {
        None
    } else if s[at] == 'r' {
        Some((crate::tag::TagColors::Red, at + 1))
    } else if s[at] == 'b' {
        Some((crate::tag::TagColors::Blue, at + 1))
    } else if s[at] == 'g' {
        Some((crate::tag::TagColors::Green, at + 1))
    } else if s[at] == 'y' {
        Some((crate::tag::TagColors::Yellow, at + 1))
    } else if s[at] == 'p' {
        Some((crate::tag::TagColors::Purple, at + 1))
    } else if s[at] == 'a' {
        Some((crate::tag::TagColors::Gray, at + 1))
    } else {
        None
    }
}

pub proof fn lemma_pcolor_render(s: Seq<char>, at: int, c: crate::tag::TagColors)
    requires
        piece_at(s, at, seq![color_char(c)]),
    ensures
        pcolor(s, at) == Some((c, at + 1)),
{
    assert(s.subrange(at, at + 1)[0] == color_char(c));
}

/// A blob reference: its kind, the digest bytes, and the payload size.
pub open spec fn render_blob(b: crate::blob::DataBlobView) -> Seq<char> {
    match b {
        crate::blob::DataBlobView::Single { blob, size } => seq!['s'] + render_bytes(blob)
            + enc_num(size as nat, num_width()),
        crate::blob::DataBlobView::Chunked { manifest, size } => seq!['c'] + render_bytes(manifest)
            + enc_num(size as nat, num_width()),
    }
}

pub open spec fn pblob(s: Seq<char>, at: int) -> Option<(crate::blob::DataBlobView, int)> {
    if at < 0 || at + 1 > s.len() {
        None
    } else if s[at] == 's' {
        match pbytes(s, at + 1) {
            Some((bs, p)) => match pnum(s, p) {
                Some((size, q)) => Some(
                    (crate::blob::DataBlobView::Single { blob: bs, size }, q),
                ),
                None => None,
            },
            None => None,
        }
    } else if s[at] == 'c' {
        match pbytes(s, at + 1) {
            Some((bs, p)) => match pnum(s, p) {
                Some((size, q)) => Some(
                    (crate::blob::DataBlobView::Chunked { manifest: bs, size }, q),
                ),
                None => None,
            },
            None => None,
        }
    } else {
        None
    }
}

/// The length bound every blob reference meets in practice.
pub open spec fn blob_bounded(b: crate::blob::DataBlobView) -> bool {
    match b {
        crate::blob::DataBlobView::Single { blob, .. } => blob.len() <= u64::MAX,
        crate::blob::DataBlobView::Chunked { manifest, .. } => manifest.len() <= u64::MAX,
    }
}

pub proof fn lemma_pblob_render(s: Seq<char>, at: int, b: crate::blob::DataBlobView)
    requires
        piece_at(s, at, render_blob(b)),
        blob_bounded(b),
    ensures
        pblob(s, at) == Some((b, at + render_blob(b).len())),
{
    lemma_pow10_20();
    match b {
        crate::blob::DataBlobView::Single { blob, size } => {
            lemma_num_roundtrip(size as nat, num_width());
            lemma_piece_split(s, at, seq!['s'] + render_bytes(blob), enc_num(
                size as nat,
                num_width(),
            ));
            lemma_piece_split(s, at, seq!['s'], render_bytes(blob));
            assert(s.subrange(at, at + 1)[0] == 's');
            lemma_pbytes_render(s, at + 1, blob);
            lemma_pnum_render(s, at + 1 + render_bytes(blob).len() as int, size);
        },
        crate::blob::DataBlobView::Chunked { manifest, size } => {
            lemma_num_roundtrip(size as nat, num_width());
            lemma_piece_split(s, at, seq!['c'] + render_bytes(manifest), enc_num(
                size as nat,
                num_width(),
            ));
            lemma_piece_split(s, at, seq!['c'], render_bytes(manifest));
            assert(s.subrange(at, at + 1)[0] == 'c');
            lemma_pbytes_render(s, at + 1, manifest);
            lemma_pnum_render(s, at + 1 + render_bytes(manifest).len() as int, size);
        },
    }
}

/// A payload kind: a file (name, optional MIME type, blob) or a bookmark
/// (blob, optional title).
pub open spec fn render_node_type(t: crate::node_type::NodeTypeView) -> Seq<char> {
    match t {
        crate::node_type::NodeTypeView::File(f) => seq!['f'] + render_string(f.filename)
            + render_opt_string(f.mime_type) + render_blob(f.data_ref),
        crate::node_type::NodeTypeView::Bookmark(b) => seq!['b'] + render_blob(b.data_ref)
            + render_opt_string(b.title),
    }
}

pub open spec fn pnode_type(s: Seq<char>, at: int) -> Option<
    (crate::node_type::NodeTypeView, int),
> {
    if at < 0 || at + 1 > s.len() {
        None
    } else if s[at] == 'f' {
        match pstring(s, at + 1) {
            Some((name, p)) => match popt_string(s, p) {
                Some((mime, q)) => match pblob(s, q) {
                    Some((blob, w)) => Some(
                        (
                            crate::node_type::NodeTypeView::File(
                                crate::node_type::FileView {
                                    filename: name,
                                    mime_type: mime,
                                    data_ref: blob,
                                },
                            ),
                            w,
                        ),
                    ),
                    None => None,
                },
                None => None,
            },
            None => None,
        }
    } else if s[at] == 'b' {
        match pblob(s, at + 1) {
            Some((blob, p)) => match popt_string(s, p) {
                Some((title, q)) => Some(
                    (
                        crate::node_type::NodeTypeView::Bookmark(
                            crate::node_type::BookmarkView { data_ref: blob, title },
                        ),
                        q,
                    ),
                ),
                None => None,
            },
            None => None,
        }
    } else {
        None
    }
}

/// The length bounds every payload kind meets in practice.
pub open spec fn node_type_bounded(t: crate::node_type::NodeTypeView) -> bool {
    match t {
        crate::node_type::NodeTypeView::File(f) => {
            &&& f.filename.len() <= u64::MAX
            &&& (f.mime_type is Some ==> f.mime_type->0.len() <= u64::MAX)
            &&& blob_bounded(f.data_ref)
        },
        crate::node_type::NodeTypeView::Bookmark(b) => {
            &&& blob_bounded(b.data_ref)
            &&& (b.title is Some ==> b.title->0.len() <= u64::MAX)
        },
    }
}

pub proof fn lemma_pnode_type_render(s: Seq<char>, at: int, t: crate::node_type::NodeTypeView)
    requires
        piece_at(s, at, render_node_type(t)),
        node_type_bounded(t),
    ensures
        pnode_type(s, at) == Some((t, at + render_node_type(t).len())),
{
    match t {
        crate::node_type::NodeTypeView::File(f) => {
            lemma_piece_split(s, at, seq!['f'] + render_string(f.filename) + render_opt_string(
                f.mime_type,
            ), render_blob(f.data_ref));
            lemma_piece_split(s, at, seq!['f'] + render_string(f.filename), render_opt_string(
                f.mime_type,
            ));
            lemma_piece_split(s, at, seq!['f'], render_string(f.filename));
            assert(s.subrange(at, at + 1)[0] == 'f');
            lemma_pstring_render(s, at + 1, f.filename);
            let p = at + 1 + render_string(f.filename).len() as int;
            lemma_popt_string_render(s, p, f.mime_type);
            let q = p + render_opt_string(f.mime_type).len() as int;
            lemma_pblob_render(s, q, f.data_ref);
        },
        crate::node_type::NodeTypeView::Bookmark(b) => {
            lemma_piece_split(s, at, seq!['b'] + render_blob(b.data_ref), render_opt_string(
                b.title,
            ));
            lemma_piece_split(s, at, seq!['b'], render_blob(b.data_ref));
            assert(s.subrange(at, at + 1)[0] == 'b');
            lemma_pblob_render(s, at + 1, b.data_ref);
            let p = at + 1 + render_blob(b.data_ref).len() as int;
            lemma_popt_string_render(s, p, b.title);
        },
    }
}

/// The tag ids of a node, one number each, in list order.
pub open spec fn ids_body(ids: Seq<u32>) -> Seq<char>
    decreases ids.len(),
{
    if ids.len() == 0 {
        Seq::empty()
    } else {
        enc_num(ids.first() as nat, num_width()) + ids_body(ids.drop_first())
    }
}

/// A tag id list: its length, then the ids.
pub open spec fn render_ids(ids: Seq<u32>) -> Seq<char> {
    enc_num(ids.len(), num_width()) + ids_body(ids)
}

/// Appending an id appends its rendering.
pub proof fn lemma_ids_body_push(ids: Seq<u32>, x: u32)
    ensures
        ids_body(ids.push(x)) == ids_body(ids) + enc_num(x as nat, num_width()),
    decreases ids.len(),
{
    if ids.len() == 0 {
        assert(ids.push(x).drop_first() =~= Seq::<u32>::empty());
        assert(ids.push(x).first() == x);
        assert(ids_body(Seq::<u32>::empty()) == Seq::<char>::empty());
        assert(ids =~= Seq::<u32>::empty());
        assert(ids_body(ids.push(x)) =~= ids_body(ids) + enc_num(x as nat, num_width()));
    } else {
        lemma_ids_body_push(ids.drop_first(), x);
        assert(ids.push(x).drop_first() =~= ids.drop_first().push(x));
        assert(ids.push(x).first() == ids.first());
        assert(ids_body(ids.push(x)) == enc_num(ids.first() as nat, num_width()) + ids_body(
            ids.drop_first().push(x),
        ));
        assert(ids_body(ids) == enc_num(ids.first() as nat, num_width()) + ids_body(
            ids.drop_first(),
        ));
        assert(ids_body(ids.push(x)) =~= ids_body(ids) + enc_num(x as nat, num_width()));
    }
}

/// What parsing `n` ids in a row yields.
pub open spec fn pids_n(s: Seq<char>, at: int, n: nat) -> Option<(Seq<u32>, int)>
    decreases n,
{
    if n == 0 {
        Some((Seq::empty(), at))
    } else {
        match pnum(s, at) {
            Some((v, p)) => if v <= u32::MAX {
                match pids_n(s, p, (n - 1) as nat) {
                    Some((rest, q)) => Some((seq![v as u32] + rest, q)),
                    None => None,
                }
            } else {
                None
            },
            None => None,
        }
    }
}

pub proof fn lemma_pids_n_render(s: Seq<char>, at: int, ids: Seq<u32>)
    requires
        piece_at(s, at, ids_body(ids)),
    ensures
        pids_n(s, at, ids.len()) == Some((ids, at + ids_body(ids).len())),
    decreases ids.len(),
{
    if ids.len() > 0 {
        lemma_pow10_20();
        lemma_num_roundtrip(ids.first() as nat, num_width());
        lemma_piece_split(
            s,
            at,
            enc_num(ids.first() as nat, num_width()),
            ids_body(ids.drop_first()),
        );
        lemma_pnum_render(s, at, ids.first() as u64);
        lemma_pids_n_render(s, at + num_width(), ids.drop_first());
        assert(seq![ids.first()] + ids.drop_first() =~= ids);
    }
}

/// The path segments of a tag, one string each, in order.
pub open spec fn paths_body(paths: Seq<Seq<char>>) -> Seq<char>
    decreases paths.len(),
{
    if paths.len() == 0 {
        Seq::empty()
    } else {
        render_string(paths.first()) + paths_body(paths.drop_first())
    }
}

/// Appending a segment appends its rendering.
pub proof fn lemma_paths_body_push(paths: Seq<Seq<char>>, x: Seq<char>)
    ensures
        paths_body(paths.push(x)) == paths_body(paths) + render_string(x),
    decreases paths.len(),
{
    if paths.len() == 0 {
        assert(paths.push(x).drop_first() =~= Seq::<Seq<char>>::empty());
        assert(paths.push(x).first() == x);
        assert(paths_body(Seq::<Seq<char>>::empty()) == Seq::<char>::empty());
        assert(paths =~= Seq::<Seq<char>>::empty());
        assert(paths_body(paths.push(x)) =~= paths_body(paths) + render_string(x));
    } else {
        lemma_paths_body_push(paths.drop_first(), x);
        assert(paths.push(x).drop_first() =~= paths.drop_first().push(x));
        assert(paths.push(x).first() == paths.first());
        assert(paths_body(paths.push(x)) == render_string(paths.first()) + paths_body(
            paths.drop_first().push(x),
        ));
        assert(paths_body(paths) == render_string(paths.first()) + paths_body(
            paths.drop_first(),
        ));
        assert(paths_body(paths.push(x)) =~= paths_body(paths) + render_string(x));
    }
}

/// What parsing `n` strings in a row yields.
pub open spec fn ppaths_n(s: Seq<char>, at: int, n: nat) -> Option<(Seq<Seq<char>>, int)>
    decreases n,
{
    if n == 0 {
        Some((Seq::empty(), at))
    } else {
        match pstring(s, at) {
            Some((v, p)) => match ppaths_n(s, p, (n - 1) as nat) {
                Some((rest, q)) => Some((seq![v] + rest, q)),
                None => None,
            },
            None => None,
        }
    }
}

pub proof fn lemma_ppaths_n_render(s: Seq<char>, at: int, paths: Seq<Seq<char>>)
    requires
        piece_at(s, at, paths_body(paths)),
        forall|i: int| 0 <= i < paths.len() ==> (#[trigger] paths[i]).len() <= u64::MAX,
    ensures
        ppaths_n(s, at, paths.len()) == Some((paths, at + paths_body(paths).len())),
    decreases paths.len(),
{
    if paths.len() > 0 {
        lemma_pow10_20();
        lemma_num_roundtrip(paths.first().len(), num_width());
        lemma_piece_split(s, at, render_string(paths.first()), paths_body(paths.drop_first()));
        lemma_pstring_render(s, at, paths.first());
        assert(forall|i: int|
            0 <= i < paths.drop_first().len() ==> (#[trigger] paths.drop_first()[i]).len()
                <= u64::MAX);
        lemma_ppaths_n_render(s, at + render_string(paths.first()).len(), paths.drop_first());
        assert(seq![paths.first()] + paths.drop_first() =~= paths);
    }
}

/// A node record: id, tombstone flag, payload, tag list, two timestamps.
pub open spec fn render_node(n: crate::node::NodeView) -> Seq<char> {
    enc_num(n.id as nat, num_width()) + render_bool(n.deleted) + render_node_type(n.data_ref)
        + render_ids(n.tags) + render_string(n.date_created) + render_string(n.date_updated)
}

pub open spec fn pnode(s: Seq<char>, at: int) -> Option<(crate::node::NodeView, int)> {
    match pnum(s, at) {
        Some((id, p1)) => if id <= u32::MAX {
            match pbool(s, p1) {
                Some((deleted, p2)) => match pnode_type(s, p2) {
                    Some((data_ref, p3)) => match pnum(s, p3) {
                        Some((ntags, p4)) => match pids_n(s, p4, ntags as nat) {
                            Some((tags, p5)) => match pstring(s, p5) {
                                Some((created, p6)) => match pstring(s, p6) {
                                    Some((updated, p7)) => Some(
                                        (
                                            crate::node::NodeView {
                                                id: id as u32,
                                                deleted,
                                                data_ref,
                                                tags,
                                                date_created: created,
                                                date_updated: updated,
                                            },
                                            p7,
                                        ),
                                    ),
                                    None => None,
                                },
                                None => None,
                            },
                            None => None,
                        },
                        None => None,
                    },
                    None => None,
                },
                None => None,
            }
        } else {
            None
        },
        None => None,
    }
}

/// The length bounds every node record meets in practice.
pub open spec fn node_bounded(n: crate::node::NodeView) -> bool {
    &&& node_type_bounded(n.data_ref)
    &&& n.tags.len() <= u64::MAX
    &&& n.date_created.len() <= u64::MAX
    &&& n.date_updated.len() <= u64::MAX
}

pub proof fn lemma_pnode_render(s: Seq<char>, at: int, n: crate::node::NodeView)
    requires
        piece_at(s, at, render_node(n)),
        node_bounded(n),
    ensures
        pnode(s, at) == Some((n, at + render_node(n).len())),
{
    lemma_pow10_20();
    lemma_num_roundtrip(n.id as nat, num_width());
    lemma_num_roundtrip(n.tags.len(), num_width());
    let r1 = enc_num(n.id as nat, num_width());
    let r2 = render_bool(n.deleted);
    let r3 = render_node_type(n.data_ref);
    let r4 = render_ids(n.tags);
    let r5 = render_string(n.date_created);
    let r6 = render_string(n.date_updated);
    lemma_piece_split(s, at, r1 + r2 + r3 + r4 + r5, r6);
    lemma_piece_split(s, at, r1 + r2 + r3 + r4, r5);
    lemma_piece_split(s, at, r1 + r2 + r3, r4);
    lemma_piece_split(s, at, r1 + r2, r3);
    lemma_piece_split(s, at, r1, r2);
    lemma_pnum_render(s, at, n.id as u64);
    let p1 = at + r1.len() as int;
    lemma_pbool_render(s, p1, n.deleted);
    let p2 = p1 + 1;
    lemma_pnode_type_render(s, p2, n.data_ref);
    let p3 = p2 + r3.len() as int;
    lemma_piece_split(s, p3, enc_num(n.tags.len(), num_width()), ids_body(n.tags));
    lemma_pnum_render(s, p3, n.tags.len() as u64);
    let p4 = p3 + num_width() as int;
    lemma_pids_n_render(s, p4, n.tags);
    let p5 = p4 + ids_body(n.tags).len() as int;
    lemma_pstring_render(s, p5, n.date_created);
    let p6 = p5 + r5.len() as int;
    lemma_pstring_render(s, p6, n.date_updated);
}

/// A tag record: id, tombstone flag, path segments, color.
pub open spec fn render_tag(t: crate::tag::TagView) -> Seq<char> {
    enc_num(t.id as nat, num_width()) + render_bool(t.deleted) + enc_num(
        t.path.len(),
        num_width(),
    ) + paths_body(t.path) + seq![color_char(t.color)]
}

pub open spec fn ptag(s: Seq<char>, at: int) -> Option<(crate::tag::TagView, int)> {
    match pnum(s, at) {
        Some((id, p1)) => if id <= u32::MAX {
            match pbool(s, p1) {
                Some((deleted, p2)) => match pnum(s, p2) {
                    Some((nsegs, p3)) => match ppaths_n(s, p3, nsegs as nat) {
                        Some((path, p4)) => match pcolor(s, p4) {
                            Some((color, p5)) => Some(
                                (
                                    crate::tag::TagView { id: id as u32, deleted, path, color },
                                    p5,
                                ),
                            ),
                            None => None,
                        },
                        None => None,
                    },
                    None => None,
                },
                None => None,
            }
        } else {
            None
        },
        None => None,
    }
}

/// The length bounds every tag record meets in practice.
pub open spec fn tag_bounded(t: crate::tag::TagView) -> bool {
    &&& t.path.len() <= u64::MAX
    &&& forall|i: int| 0 <= i < t.path.len() ==> (#[trigger] t.path[i]).len() <= u64::MAX
}

pub proof fn lemma_ptag_render(s: Seq<char>, at: int, t: crate::tag::TagView)
    requires
        piece_at(s, at, render_tag(t)),
        tag_bounded(t),
    ensures
        ptag(s, at) == Some((t, at + render_tag(t).len())),
{
    lemma_pow10_20();
    lemma_num_roundtrip(t.id as nat, num_width());
    lemma_num_roundtrip(t.path.len(), num_width());
    let r1 = enc_num(t.id as nat, num_width());
    let r2 = render_bool(t.deleted);
    let r3 = enc_num(t.path.len(), num_width());
    let r4 = paths_body(t.path);
    let r5 = seq![color_char(t.color)];
    lemma_piece_split(s, at, r1 + r2 + r3 + r4, r5);
    lemma_piece_split(s, at, r1 + r2 + r3, r4);
    lemma_piece_split(s, at, r1 + r2, r3);
    lemma_piece_split(s, at, r1, r2);
    lemma_pnum_render(s, at, t.id as u64);
    let p1 = at + r1.len() as int;
    lemma_pbool_render(s, p1, t.deleted);
    let p2 = p1 + 1;
    lemma_pnum_render(s, p2, t.path.len() as u64);
    let p3 = p2 + num_width() as int;
    lemma_ppaths_n_render(s, p3, t.path);
    let p4 = p3 + r4.len() as int;
    lemma_pcolor_render(s, p4, t.color);
}

/// The node records, one after the other, in map order.
pub open spec fn nodes_body(nodes: Seq<crate::node::NodeView>) -> Seq<char>
    decreases nodes.len(),
{
    if nodes.len() == 0 {
        Seq::empty()
    } else {
        render_node(nodes.first()) + nodes_body(nodes.drop_first())
    }
}

pub proof fn lemma_nodes_body_push(nodes: Seq<crate::node::NodeView>, x: crate::node::NodeView)
    ensures
        nodes_body(nodes.push(x)) == nodes_body(nodes) + render_node(x),
    decreases nodes.len(),
{
    if nodes.len() == 0 {
        assert(nodes.push(x).drop_first() =~= Seq::<crate::node::NodeView>::empty());
        assert(nodes.push(x).first() == x);
        assert(nodes_body(Seq::<crate::node::NodeView>::empty()) == Seq::<char>::empty());
        assert(nodes =~= Seq::<crate::node::NodeView>::empty());
        assert(nodes_body(nodes.push(x)) =~= nodes_body(nodes) + render_node(x));
    } else {
        lemma_nodes_body_push(nodes.drop_first(), x);
        assert(nodes.push(x).drop_first() =~= nodes.drop_first().push(x));
        assert(nodes.push(x).first() == nodes.first());
        assert(nodes_body(nodes.push(x)) == render_node(nodes.first()) + nodes_body(
            nodes.drop_first().push(x),
        ));
        assert(nodes_body(nodes) == render_node(nodes.first()) + nodes_body(
            nodes.drop_first(),
        ));
        assert(nodes_body(nodes.push(x)) =~= nodes_body(nodes) + render_node(x));
    }
}

pub open spec fn pnodes_n(s: Seq<char>, at: int, n: nat) -> Option<
    (Seq<crate::node::NodeView>, int),
>
    decreases n,
{
    if n == 0 {
        Some((Seq::empty(), at))
    } else {
        match pnode(s, at) {
            Some((v, p)) => match pnodes_n(s, p, (n - 1) as nat) {
                Some((rest, q)) => Some((seq![v] + rest, q)),
                None => None,
            },
            None => None,
        }
    }
}

#[verifier::rlimit(60)]
pub proof fn lemma_pnodes_n_render(s: Seq<char>, at: int, nodes: Seq<crate::node::NodeView>)
    requires
        piece_at(s, at, nodes_body(nodes)),
        forall|i: int| 0 <= i < nodes.len() ==> node_bounded(#[trigger] nodes[i]),
    ensures
        pnodes_n(s, at, nodes.len()) == Some((nodes, at + nodes_body(nodes).len())),
    decreases nodes.len(),
{
    if nodes.len() > 0 {
        lemma_piece_split(s, at, render_node(nodes.first()), nodes_body(nodes.drop_first()));
        lemma_pnode_render(s, at, nodes.first());
        assert(forall|i: int|
            0 <= i < nodes.drop_first().len() ==> node_bounded(
                #[trigger] nodes.drop_first()[i],
            ));
        lemma_pnodes_n_render(s, at + render_node(nodes.first()).len(), nodes.drop_first());
        assert(seq![nodes.first()] + nodes.drop_first() =~= nodes);
    }
}

/// The tag records, one after the other, in map order.
pub open spec fn tags_body(tags: Seq<crate::tag::TagView>) -> Seq<char>
    decreases tags.len(),
{
    if tags.len() == 0 {
        Seq::empty()
    } else {
        render_tag(tags.first()) + tags_body(tags.drop_first())
    }
}

pub proof fn lemma_tags_body_push(tags: Seq<crate::tag::TagView>, x: crate::tag::TagView)
    ensures
        tags_body(tags.push(x)) == tags_body(tags) + render_tag(x),
    decreases tags.len(),
{
    if tags.len() == 0 {
        assert(tags.push(x).drop_first() =~= Seq::<crate::tag::TagView>::empty());
        assert(tags.push(x).first() == x);
        assert(tags_body(Seq::<crate::tag::TagView>::empty()) == Seq::<char>::empty());
        assert(tags =~= Seq::<crate::tag::TagView>::empty());
        assert(tags_body(tags.push(x)) =~= tags_body(tags) + render_tag(x));
    } else {
        lemma_tags_body_push(tags.drop_first(), x);
        assert(tags.push(x).drop_first() =~= tags.drop_first().push(x));
        assert(tags.push(x).first() == tags.first());
        assert(tags_body(tags.push(x)) == render_tag(tags.first()) + tags_body(
            tags.drop_first().push(x),
        ));
        assert(tags_body(tags) == render_tag(tags.first()) + tags_body(tags.drop_first()));
        assert(tags_body(tags.push(x)) =~= tags_body(tags) + render_tag(x));
    }
}

pub open spec fn ptags_n(s: Seq<char>, at: int, n: nat) -> Option<(Seq<crate::tag::TagView>, int)>
    decreases n,
{
    if n == 0 {
        Some((Seq::empty(), at))
    } else {
        match ptag(s, at) {
            Some((v, p)) => match ptags_n(s, p, (n - 1) as nat) {
                Some((rest, q)) => Some((seq![v] + rest, q)),
                None => None,
            },
            None => None,
        }
    }
}

pub proof fn lemma_ptags_n_render(s: Seq<char>, at: int, tags: Seq<crate::tag::TagView>)
    requires
        piece_at(s, at, tags_body(tags)),
        forall|i: int| 0 <= i < tags.len() ==> tag_bounded(#[trigger] tags[i]),
    ensures
        ptags_n(s, at, tags.len()) == Some((tags, at + tags_body(tags).len())),
    decreases tags.len(),
{
    if tags.len() > 0 {
        lemma_piece_split(s, at, render_tag(tags.first()), tags_body(tags.drop_first()));
        lemma_ptag_render(s, at, tags.first());
        assert(forall|i: int|
            0 <= i < tags.drop_first().len() ==> tag_bounded(#[trigger] tags.drop_first()[i]));
        lemma_ptags_n_render(s, at + render_tag(tags.first()).len(), tags.drop_first());
        assert(seq![tags.first()] + tags.drop_first() =~= tags);
    }
}

/// The whole document: the node count and records, then the tag count and
/// records. Nothing else — indexes and counters are reconstructed on load.
pub open spec fn render_doc(
    nodes: Seq<crate::node::NodeView>,
    tags: Seq<crate::tag::TagView>,
) -> Seq<char> {
    enc_num(nodes.len(), num_width()) + nodes_body(nodes) + enc_num(tags.len(), num_width())
        + tags_body(tags)
}

/// What a document parses to, when every record parses and nothing trails.
pub open spec fn pdoc(s: Seq<char>) -> Option<
    (Seq<crate::node::NodeView>, Seq<crate::tag::TagView>),
> {
    match pnum(s, 0) {
        Some((n, p1)) => match pnodes_n(s, p1, n as nat) {
            Some((nodes, p2)) => match pnum(s, p2) {
                Some((m, p3)) => match ptags_n(s, p3, m as nat) {
                    Some((tags, p4)) => if p4 == s.len() {
                        Some((nodes, tags))
                    } else {
                        None
                    },
                    None => None,
                },
                None => None,
            },
            None => None,
        },
        None => None,
    }
}

/// The bounds every canonical state held in memory meets.
pub open spec fn doc_bounded(
    nodes: Seq<crate::node::NodeView>,
    tags: Seq<crate::tag::TagView>,
) -> bool {
    &&& nodes.len() <= u64::MAX
    &&& tags.len() <= u64::MAX
    &&& forall|i: int| 0 <= i < nodes.len() ==> node_bounded(#[trigger] nodes[i])
    &&& forall|i: int| 0 <= i < tags.len() ==> tag_bounded(#[trigger] tags[i])
}

/// Rendering canonical state and parsing the document gives it back,
/// exactly. Every derived index is a function of canonical state, so a
/// rebuild after parsing yields the same indexes as a rebuild before
/// rendering.
pub proof fn lemma_doc_roundtrip(
    nodes: Seq<crate::node::NodeView>,
    tags: Seq<crate::tag::TagView>,
)
    requires
        doc_bounded(nodes, tags),
    ensures
        pdoc(render_doc(nodes, tags)) == Some((nodes, tags)),
{
    lemma_pow10_20();
    lemma_num_roundtrip(nodes.len(), num_width());
    lemma_num_roundtrip(tags.len(), num_width());
    let s = render_doc(nodes, tags);
    let r1 = enc_num(nodes.len(), num_width());
    let r2 = nodes_body(nodes);
    let r3 = enc_num(tags.len(), num_width());
    let r4 = tags_body(tags);
    assert(piece_at(s, 0, r1 + r2 + r3 + r4)) by {
        assert(s.subrange(0, s.len() as int) =~= s);
    }
    lemma_piece_split(s, 0, r1 + r2 + r3, r4);
    lemma_piece_split(s, 0, r1 + r2, r3);
    lemma_piece_split(s, 0, r1, r2);
    lemma_pnum_render(s, 0, nodes.len() as u64);
    lemma_pnodes_n_render(s, r1.len() as int, nodes);
    let p2 = r1.len() + r2.len() as int;
    lemma_pnum_render(s, p2, tags.len() as u64);
    let p3 = p2 + num_width() as int;
    lemma_ptags_n_render(s, p3, tags);
}

// ---------------------------------------------------------------------
// Executable writers.
// ---------------------------------------------------------------------

/// Relies on `String: FromIterator<char>`: collects the characters in
/// order.
#[verifier::external_body]
pub(crate) fn chars_to_string(v: &[char]) -> (s: String)
    ensures
        s@ == v@,
{
    v.iter().collect()
}

/// Unpacks a string into its characters.
pub(crate) fn string_to_chars(s: &str) -> (r: Vec<char>)
    ensures
        r@ == s@,
{
    let len = s.unicode_len();
    let mut out: Vec<char> = Vec::new();
    let mut i: usize = 0;
    while i < len
        invariant
            i <= len,
            len == s@.len(),
            out@ == s@.take(i as int),
        decreases len - i,
    {
        out.push(s.get_char(i));
        proof {
            assert(out@ =~= s@.take(i + 1));
        }
        i = i + 1;
    }
    proof {
        assert(s@.take(len as int) =~= s@);
    }
    out
}

/// Writes a flag character.
fn write_bool(out: &mut Vec<char>, b: bool)
    ensures
        final(out)@ == old(out)@ + render_bool(b),
{
    out.push(if b {
        '1'
    } else {
        '0'
    });
    proof {
        assert(final(out)@ =~= old(out)@ + render_bool(b));
    }
}

/// Writes a length-prefixed string.
fn write_string(out: &mut Vec<char>, s: &String)
    ensures
        final(out)@ == old(out)@ + render_string(s@),
{
    let len = s.as_str().unicode_len();
    proof {
        lemma_pow10_20();
    }
    push_num(out, len as u64);
    let ghost mid = out@;
    let mut i: usize = 0;
    proof {
        assert(mid + s@.take(0) =~= mid);
    }
    while i < len
        invariant
            i <= len,
            len == s@.len(),
            out@ == mid + s@.take(i as int),
        decreases len - i,
    {
        out.push(s.as_str().get_char(i));
        proof {
            assert(out@ =~= mid + s@.take(i + 1));
        }
        i = i + 1;
    }
    proof {
        assert(s@.take(len as int) =~= s@);
        assert(out@ =~= old(out)@ + render_string(s@));
    }
}

/// Writes a length-prefixed hex byte string.
fn write_bytes(out: &mut Vec<char>, bytes: &Vec<u8>)
    ensures
        final(out)@ == old(out)@ + render_bytes(bytes@),
{
    proof {
        lemma_pow10_20();
    }
    push_num(out, bytes.len() as u64);
    push_hex(out, bytes);
    proof {
        assert(final(out)@ =~= old(out)@ + render_bytes(bytes@));
    }
}

/// Writes an optional string: a flag, then the string when present.
fn write_opt_string(out: &mut Vec<char>, s: &Option<String>)
    ensures
        final(out)@ == old(out)@ + render_opt_string(
            match s {
                Some(x) => Some(x@),
                None => None,
            },
        ),
{
    match s {
        None => {
            out.push('0');
            proof {
                assert(final(out)@ =~= old(out)@ + render_opt_string(None));
            }
        },
        Some(x) => {
            out.push('1');
            write_string(out, x);
            proof {
                assert(final(out)@ =~= old(out)@ + render_opt_string(Some(x@)));
            }
        },
    }
}

/// Writes a color character.
fn write_color(out: &mut Vec<char>, c: &crate::tag::TagColors)
    ensures
        final(out)@ == old(out)@ + seq![color_char(*c)],
{
    out.push(
        match c {
            crate::tag::TagColors::Red => 'r',
            crate::tag::TagColors::Blue => 'b',
            crate::tag::TagColors::Green => 'g',
            crate::tag::TagColors::Yellow => 'y',
            crate::tag::TagColors::Purple => 'p',
            crate::tag::TagColors::Gray => 'a',
        },
    );
    proof {
        assert(final(out)@ =~= old(out)@ + seq![color_char(*c)]);
    }
}

/// Writes a blob reference.
fn write_blob(out: &mut Vec<char>, b: &crate::blob::DataBlob)
    ensures
        final(out)@ == old(out)@ + render_blob(b@),
{
    proof {
        lemma_pow10_20();
    }
    match b {
        crate::blob::DataBlob::Single { blob, metadata } => {
            out.push('s');
            write_bytes(out, &blob.0);
            push_num(out, metadata.original_size);
            proof {
                assert(final(out)@ =~= old(out)@ + render_blob(b@));
            }
        },
        crate::blob::DataBlob::Chunked { manifest, metadata } => {
            out.push('c');
            write_bytes(out, &manifest.0);
            push_num(out, metadata.original_size);
            proof {
                assert(final(out)@ =~= old(out)@ + render_blob(b@));
            }
        },
    }
}

/// Writes a payload kind.
fn write_node_type(out: &mut Vec<char>, t: &crate::node_type::NodeType)
    ensures
        final(out)@ == old(out)@ + render_node_type(t@),
{
    match t {
        crate::node_type::NodeType::File(f) => {
            out.push('f');
            write_string(out, &f.filename);
            write_opt_string(out, &f.mime_type);
            write_blob(out, &f.data_ref);
            proof {
                assert(final(out)@ =~= old(out)@ + render_node_type(t@));
            }
        },
        crate::node_type::NodeType::Bookmark(b) => {
            out.push('b');
            write_blob(out, &b.data_ref);
            write_opt_string(out, &b.title);
            proof {
                assert(final(out)@ =~= old(out)@ + render_node_type(t@));
            }
        },
    }
}

/// Writes a length-prefixed tag id list.
fn write_ids(out: &mut Vec<char>, tags: &Vec<crate::tag::TagId>)
    ensures
        final(out)@ == old(out)@ + render_ids(crate::node::tag_ids(tags@)),
{
    proof {
        lemma_pow10_20();
    }
    push_num(out, tags.len() as u64);
    let ghost mid = out@;
    let ghost full = crate::node::tag_ids(tags@);
    let mut i: usize = 0;
    proof {
        assert(full.take(0) =~= Seq::<u32>::empty());
        assert(ids_body(full.take(0)) == Seq::<char>::empty());
        assert(mid + ids_body(full.take(0)) =~= mid);
    }
    while i < tags.len()
        invariant
            i <= tags@.len(),
            full == crate::node::tag_ids(tags@),
            full.len() == tags@.len(),
            out@ == mid + ids_body(full.take(i as int)),
        decreases tags@.len() - i,
    {
        proof {
            lemma_pow10_20();
        }
        push_num(out, tags[i].0 as u64);
        proof {
            lemma_ids_body_push(full.take(i as int), full[i as int]);
            assert(full.take(i + 1) =~= full.take(i as int).push(full[i as int]));
            assert(full[i as int] == tags@[i as int].0);
            assert(out@ =~= mid + ids_body(full.take(i + 1)));
        }
        i = i + 1;
    }
    proof {
        assert(full.take(full.len() as int) =~= full);
        assert(final(out)@ =~= old(out)@ + render_ids(full));
    }
}

/// Writes one node record.
fn write_node(out: &mut Vec<char>, n: &crate::node::NodeRecord)
    ensures
        final(out)@ == old(out)@ + render_node(n@),
{
    proof {
        lemma_pow10_20();
    }
    push_num(out, n.id.0 as u64);
    write_bool(out, n.deleted);
    write_node_type(out, &n.data_ref);
    write_ids(out, &n.tags);
    write_string(out, &n.date_created);
    write_string(out, &n.date_updated);
    proof {
        assert(final(out)@ =~= old(out)@ + render_node(n@));
    }
}

/// Writes one tag record: the path is a length-prefixed list of strings.
fn write_tag(out: &mut Vec<char>, t: &crate::tag::TagRecord)
    ensures
        final(out)@ == old(out)@ + render_tag(t@),
{
    proof {
        lemma_pow10_20();
    }
    push_num(out, t.id.0 as u64);
    write_bool(out, t.deleted);
    push_num(out, t.path.len() as u64);
    let ghost mid = out@;
    let ghost full = t.path.deep_view();
    let mut i: usize = 0;
    proof {
        assert(full.take(0) =~= Seq::<Seq<char>>::empty());
        assert(paths_body(full.take(0)) == Seq::<char>::empty());
        assert(mid + paths_body(full.take(0)) =~= mid);
    }
    while i < t.path.len()
        invariant
            i <= t.path@.len(),
            full == t.path.deep_view(),
            full.len() == t.path@.len(),
            out@ == mid + paths_body(full.take(i as int)),
        decreases t.path@.len() - i,
    {
        write_string(out, &t.path[i]);
        proof {
            lemma_paths_body_push(full.take(i as int), full[i as int]);
            assert(full.take(i + 1) =~= full.take(i as int).push(full[i as int]));
            assert(out@ =~= mid + paths_body(full.take(i + 1)));
        }
        i = i + 1;
    }
    write_color(out, &t.color);
    proof {
        assert(full.take(full.len() as int) =~= full);
        assert(final(out)@ =~= old(out)@ + render_tag(t@));
    }
}

/// Renders the whole document for a canonical state.
pub fn render_document(
    nodes: &Vec<crate::node::NodeRecord>,
    tags: &Vec<crate::tag::TagRecord>,
) -> (r: String)
    ensures
        r@ == render_doc(nodes.deep_view(), tags.deep_view()),
{
    proof {
        lemma_pow10_20();
    }
    let mut out: Vec<char> = Vec::new();
    push_num(&mut out, nodes.len() as u64);
    let ghost nv = nodes.deep_view();
    let ghost mid1 = out@;
    let mut i: usize = 0;
    proof {
        assert(nv.take(0) =~= Seq::<crate::node::NodeView>::empty());
        assert(nodes_body(nv.take(0)) == Seq::<char>::empty());
        assert(mid1 + nodes_body(nv.take(0)) =~= mid1);
    }
    while i < nodes.len()
        invariant
            i <= nodes@.len(),
            nv == nodes.deep_view(),
            nv.len() == nodes@.len(),
            out@ == mid1 + nodes_body(nv.take(i as int)),
        decreases nodes@.len() - i,
    {
        write_node(&mut out, &nodes[i]);
        proof {
            lemma_nodes_body_push(nv.take(i as int), nv[i as int]);
            assert(nv.take(i + 1) =~= nv.take(i as int).push(nv[i as int]));
            assert(out@ =~= mid1 + nodes_body(nv.take(i + 1)));
        }
        i = i + 1;
    }
    proof {
        assert(nv.take(nv.len() as int) =~= nv);
        lemma_pow10_20();
    }
    push_num(&mut out, tags.len() as u64);
    let ghost tv = tags.deep_view();
    let ghost mid2 = out@;
    let mut j: usize = 0;
    proof {
        assert(tv.take(0) =~= Seq::<crate::tag::TagView>::empty());
        assert(tags_body(tv.take(0)) == Seq::<char>::empty());
        assert(mid2 + tags_body(tv.take(0)) =~= mid2);
    }
    while j < tags.len()
        invariant
            j <= tags@.len(),
            tv == tags.deep_view(),
            tv.len() == tags@.len(),
            out@ == mid2 + tags_body(tv.take(j as int)),
        decreases tags@.len() - j,
    {
        write_tag(&mut out, &tags[j]);
        proof {
            lemma_tags_body_push(tv.take(j as int), tv[j as int]);
            assert(tv.take(j + 1) =~= tv.take(j as int).push(tv[j as int]));
            assert(out@ =~= mid2 + tags_body(tv.take(j + 1)));
        }
        j = j + 1;
    }
    proof {
        assert(tv.take(tv.len() as int) =~= tv);
        assert(out@ =~= render_doc(nv, tv));
    }
    chars_to_string(out.as_slice())
}

// ---------------------------------------------------------------------
// Executable parsers.
// ---------------------------------------------------------------------

/// Reads a flag character.
fn parse_bool(s: &Vec<char>, at: usize) -> (r: Option<(bool, usize)>)
    ensures
        match r {
            Some((b, pos)) => pbool(s@, at as int) == Some((b, pos as int)),
            None => pbool(s@, at as int) is None,
        },
{
    if at >= s.len() {
        return None;
    }
    let c = s[at];
    if c == '1' {
        Some((true, at + 1))
    } else if c == '0' {
        Some((false, at + 1))
    } else {
        None
    }
}

/// Reads a color character.
fn parse_color(s: &Vec<char>, at: usize) -> (r: Option<(crate::tag::TagColors, usize)>)
    ensures
        match r {
            Some((c, pos)) => pcolor(s@, at as int) == Some((c, pos as int)),
            None => pcolor(s@, at as int) is None,
        },
{
    if at >= s.len() {
        return None;
    }
    let c = s[at];
    if c == 'r' {
        Some((crate::tag::TagColors::Red, at + 1))
    } else if c == 'b' {
        Some((crate::tag::TagColors::Blue, at + 1))
    } else if c == 'g' {
        Some((crate::tag::TagColors::Green, at + 1))
    } else if c == 'y' {
        Some((crate::tag::TagColors::Yellow, at + 1))
    } else if c == 'p' {
        Some((crate::tag::TagColors::Purple, at + 1))
    } else if c == 'a' {
        Some((crate::tag::TagColors::Gray, at + 1))
    } else {
        None
    }
}

/// Reads a length-prefixed string.
fn parse_string(s: &Vec<char>, at: usize) -> (r: Option<(String, usize)>)
    ensures
        match r {
            Some((v, pos)) => pstring(s@, at as int) == Some((v@, pos as int)),
            None => pstring(s@, at as int) is None,
        },
{
    let (n, p) = match read_num(s, at) {
        Some(x) => x,
        None => {
            return None;
        },
    };
    if n > (s.len() - p) as u64 {
        return None;
    }
    let n_us = n as usize;
    let sub = vstd::slice::slice_subrange(s.as_slice(), p, p + n_us);
    Some((chars_to_string(sub), p + n_us))
}

/// Reads a length-prefixed hex byte string.
fn parse_bytes(s: &Vec<char>, at: usize) -> (r: Option<(Vec<u8>, usize)>)
    ensures
        match r {
            Some((v, pos)) => pbytes(s@, at as int) == Some((v@, pos as int)),
            None => pbytes(s@, at as int) is None,
        },
{
    let (n, p) = match read_num(s, at) {
        Some(x) => x,
        None => {
            return None;
        },
    };
    if n > ((s.len() - p) / 2) as u64 {
        proof {
            assert((p + 2 * (n as nat) > s@.len())) by (nonlinear_arith)
                requires
                    n > (s@.len() - p) / 2,
                    p <= s@.len(),
            ;
        }
        return None;
    }
    proof {
        assert((p + 2 * (n as nat) <= s@.len())) by (nonlinear_arith)
            requires
                n <= (s@.len() - p) / 2,
                p <= s@.len(),
        ;
    }
    let n_us = n as usize;
    match read_hex(s, p, n_us) {
        Some((bytes, pos)) => Some((bytes, pos)),
        None => None,
    }
}

/// Reads an optional length-prefixed string.
fn parse_opt_string(s: &Vec<char>, at: usize) -> (r: Option<(Option<String>, usize)>)
    ensures
        match r {
            Some((v, pos)) => popt_string(s@, at as int) == Some(
                (
                    match v {
                        Some(x) => Some(x@),
                        None => None,
                    },
                    pos as int,
                ),
            ),
            None => popt_string(s@, at as int) is None,
        },
{
    if at >= s.len() {
        return None;
    }
    let c = s[at];
    if c == '0' {
        Some((None, at + 1))
    } else if c == '1' {
        match parse_string(s, at + 1) {
            Some((x, pos)) => Some((Some(x), pos)),
            None => None,
        }
    } else {
        None
    }
}

/// Reads a blob reference.
fn parse_blob(s: &Vec<char>, at: usize) -> (r: Option<(crate::blob::DataBlob, usize)>)
    ensures
        match r {
            Some((v, pos)) => pblob(s@, at as int) == Some((v@, pos as int)),
            None => pblob(s@, at as int) is None,
        },
{
    if at >= s.len() {
        return None;
    }
    let c = s[at];
    if c == 's' {
        let (bytes, p) = match parse_bytes(s, at + 1) {
            Some(x) => x,
            None => {
                return None;
            },
        };
        let (size, q) = match read_num(s, p) {
            Some(x) => x,
            None => {
                return None;
            },
        };
        Some(
            (
                crate::blob::DataBlob::Single {
                    blob: crate::blob::BlobId(bytes),
                    metadata: crate::blob::DataBlobMetadata { original_size: size },
                },
                q,
            ),
        )
    } else if c == 'c' {
        let (bytes, p) = match parse_bytes(s, at + 1) {
            Some(x) => x,
            None => {
                return None;
            },
        };
        let (size, q) = match read_num(s, p) {
            Some(x) => x,
            None => {
                return None;
            },
        };
        Some(
            (
                crate::blob::DataBlob::Chunked {
                    manifest: crate::blob::BlobId(bytes),
                    metadata: crate::blob::DataBlobMetadata { original_size: size },
                },
                q,
            ),
        )
    } else {
        None
    }
}

/// Reads a payload kind.
fn parse_node_type(s: &Vec<char>, at: usize) -> (r: Option<(crate::node_type::NodeType, usize)>)
    ensures
        match r {
            Some((v, pos)) => pnode_type(s@, at as int) == Some((v@, pos as int)),
            None => pnode_type(s@, at as int) is None,
        },
{
    if at >= s.len() {
        return None;
    }
    let c = s[at];
    if c == 'f' {
        let (name, p) = match parse_string(s, at + 1) {
            Some(x) => x,
            None => {
                return None;
            },
        };
        let (mime, q) = match parse_opt_string(s, p) {
            Some(x) => x,
            None => {
                return None;
            },
        };
        let (blob, w) = match parse_blob(s, q) {
            Some(x) => x,
            None => {
                return None;
            },
        };
        Some(
            (
                crate::node_type::NodeType::File(
                    crate::node_type::File { filename: name, mime_type: mime, data_ref: blob },
                ),
                w,
            ),
        )
    } else if c == 'b' {
        let (blob, p) = match parse_blob(s, at + 1) {
            Some(x) => x,
            None => {
                return None;
            },
        };
        let (title, q) = match parse_opt_string(s, p) {
            Some(x) => x,
            None => {
                return None;
            },
        };
        Some(
            (
                crate::node_type::NodeType::Bookmark(
                    crate::node_type::Bookmark { data_ref: blob, title },
                ),
                q,
            ),
        )
    } else {
        None
    }
}

/// Reads `count` tag ids in a row.
fn parse_ids_n(s: &Vec<char>, at: usize, count: u64) -> (r: Option<(Vec<crate::tag::TagId>, usize)>)
    ensures
        match r {
            Some((v, pos)) => pids_n(s@, at as int, count as nat) == Some(
                (crate::node::tag_ids(v@), pos as int),
            ),
            None => pids_n(s@, at as int, count as nat) is None,
        },
{
    let mut acc: Vec<crate::tag::TagId> = Vec::new();
    let mut cur: usize = at;
    let mut i: u64 = 0;
    while i < count
        invariant
            i <= count,
            pids_n(s@, at as int, count as nat) == (match pids_n(
                s@,
                cur as int,
                (count - i) as nat,
            ) {
                Some((rest, q)) => Some((crate::node::tag_ids(acc@) + rest, q)),
                None => None::<(Seq<u32>, int)>,
            }),
        decreases count - i,
    {
        let (v, p) = match read_num(s, cur) {
            Some(x) => x,
            None => {
                return None;
            },
        };
        if v > u32::MAX as u64 {
            return None;
        }
        let ghost prev_acc = acc@;
        acc.push(crate::tag::TagId(v as u32));
        proof {
            assert(crate::node::tag_ids(acc@) =~= crate::node::tag_ids(prev_acc).push(v as u32));
        }
        cur = p;
        i = i + 1;
        proof {
            let k = (count - i + 1) as nat;
            assert forall|rest: Seq<u32>|
                true implies crate::node::tag_ids(prev_acc) + (seq![v as u32] + rest)
                    =~= crate::node::tag_ids(acc@) + rest by {}
        }
    }
    proof {
        assert(crate::node::tag_ids(acc@) + Seq::<u32>::empty() =~= crate::node::tag_ids(acc@));
    }
    Some((acc, cur))
}

/// Reads `count` path segments in a row.
fn parse_paths_n(s: &Vec<char>, at: usize, count: u64) -> (r: Option<(Vec<String>, usize)>)
    ensures
        match r {
            Some((v, pos)) => ppaths_n(s@, at as int, count as nat) == Some(
                (v.deep_view(), pos as int),
            ),
            None => ppaths_n(s@, at as int, count as nat) is None,
        },
{
    let mut acc: Vec<String> = Vec::new();
    let mut cur: usize = at;
    let mut i: u64 = 0;
    proof {
        assert(acc.deep_view() =~= Seq::<Seq<char>>::empty());
    }
    while i < count
        invariant
            i <= count,
            ppaths_n(s@, at as int, count as nat) == (match ppaths_n(
                s@,
                cur as int,
                (count - i) as nat,
            ) {
                Some((rest, q)) => Some((acc.deep_view() + rest, q)),
                None => None::<(Seq<Seq<char>>, int)>,
            }),
        decreases count - i,
    {
        let (v, p) = match parse_string(s, cur) {
            Some(x) => x,
            None => {
                return None;
            },
        };
        let ghost prev_acc = acc.deep_view();
        let ghost vv = v@;
        acc.push(v);
        proof {
            assert(acc.deep_view() =~= prev_acc.push(vv));
        }
        cur = p;
        i = i + 1;
        proof {
            assert forall|rest: Seq<Seq<char>>|
                true implies prev_acc + (seq![vv] + rest) =~= acc.deep_view() + rest by {}
        }
    }
    proof {
        assert(acc.deep_view() + Seq::<Seq<char>>::empty() =~= acc.deep_view());
    }
    Some((acc, cur))
}

/// Reads one node record.
fn parse_node(s: &Vec<char>, at: usize) -> (r: Option<(crate::node::NodeRecord, usize)>)
    ensures
        match r {
            Some((v, pos)) => pnode(s@, at as int) == Some((v@, pos as int)),
            None => pnode(s@, at as int) is None,
        },
{
    let (id, p1) = match read_num(s, at) {
        Some(x) => x,
        None => {
            return None;
        },
    };
    if id > u32::MAX as u64 {
        return None;
    }
    let (deleted, p2) = match parse_bool(s, p1) {
        Some(x) => x,
        None => {
            return None;
        },
    };
    let (data_ref, p3) = match parse_node_type(s, p2) {
        Some(x) => x,
        None => {
            return None;
        },
    };
    let (ntags, p4) = match read_num(s, p3) {
        Some(x) => x,
        None => {
            return None;
        },
    };
    let (tags, p5) = match parse_ids_n(s, p4, ntags) {
        Some(x) => x,
        None => {
            return None;
        },
    };
    let (created, p6) = match parse_string(s, p5) {
        Some(x) => x,
        None => {
            return None;
        },
    };
    let (updated, p7) = match parse_string(s, p6) {
        Some(x) => x,
        None => {
            return None;
        },
    };
    Some(
        (
            crate::node::NodeRecord {
                id: crate::node::NodeId(id as u32),
                deleted,
                data_ref,
                tags,
                date_created: created,
                date_updated: updated,
            },
            p7,
        ),
    )
}

/// Reads one tag record.
fn parse_tag(s: &Vec<char>, at: usize) -> (r: Option<(crate::tag::TagRecord, usize)>)
    ensures
        match r {
            Some((v, pos)) => ptag(s@, at as int) == Some((v@, pos as int)),
            None => ptag(s@, at as int) is None,
        },
{
    let (id, p1) = match read_num(s, at) {
        Some(x) => x,
        None => {
            return None;
        },
    };
    if id > u32::MAX as u64 {
        return None;
    }
    let (deleted, p2) = match parse_bool(s, p1) {
        Some(x) => x,
        None => {
            return None;
        },
    };
    let (nsegs, p3) = match read_num(s, p2) {
        Some(x) => x,
        None => {
            return None;
        },
    };
    let (path, p4) = match parse_paths_n(s, p3, nsegs) {
        Some(x) => x,
        None => {
            return None;
        },
    };
    let (color, p5) = match parse_color(s, p4) {
        Some(x) => x,
        None => {
            return None;
        },
    };
    Some(
        (crate::tag::TagRecord { id: crate::tag::TagId(id as u32), deleted, path, color }, p5),
    )
}

/// Reads `count` node records in a row.
fn parse_nodes_n(s: &Vec<char>, at: usize, count: u64) -> (r: Option<
    (Vec<crate::node::NodeRecord>, usize),
>)
    ensures
        match r {
            Some((v, pos)) => pnodes_n(s@, at as int, count as nat) == Some(
                (v.deep_view(), pos as int),
            ),
            None => pnodes_n(s@, at as int, count as nat) is None,
        },
{
    let mut acc: Vec<crate::node::NodeRecord> = Vec::new();
    let mut cur: usize = at;
    let mut i: u64 = 0;
    proof {
        assert(acc.deep_view() =~= Seq::<crate::node::NodeView>::empty());
    }
    while i < count
        invariant
            i <= count,
            pnodes_n(s@, at as int, count as nat) == (match pnodes_n(
                s@,
                cur as int,
                (count - i) as nat,
            ) {
                Some((rest, q)) => Some((acc.deep_view() + rest, q)),
                None => None::<(Seq<crate::node::NodeView>, int)>,
            }),
        decreases count - i,
    {
        let (v, p) = match parse_node(s, cur) {
            Some(x) => x,
            None => {
                return None;
            },
        };
        let ghost prev_acc = acc.deep_view();
        let ghost vv = v@;
        acc.push(v);
        proof {
            assert(acc.deep_view() =~= prev_acc.push(vv));
        }
        cur = p;
        i = i + 1;
        proof {
            assert forall|rest: Seq<crate::node::NodeView>|
                true implies prev_acc + (seq![vv] + rest) =~= acc.deep_view() + rest by {}
        }
    }
    proof {
        assert(acc.deep_view() + Seq::<crate::node::NodeView>::empty() =~= acc.deep_view());
    }
    Some((acc, cur))
}

/// Reads `count` tag records in a row.
fn parse_tags_n(s: &Vec<char>, at: usize, count: u64) -> (r: Option<
    (Vec<crate::tag::TagRecord>, usize),
>)
    ensures
        match r {
            Some((v, pos)) => ptags_n(s@, at as int, count as nat) == Some(
                (v.deep_view(), pos as int),
            ),
            None => ptags_n(s@, at as int, count as nat) is None,
        },
{
    let mut acc: Vec<crate::tag::TagRecord> = Vec::new();
    let mut cur: usize = at;
    let mut i: u64 = 0;
    proof {
        assert(acc.deep_view() =~= Seq::<crate::tag::TagView>::empty());
    }
    while i < count
        invariant
            i <= count,
            ptags_n(s@, at as int, count as nat) == (match ptags_n(
                s@,
                cur as int,
                (count - i) as nat,
            ) {
                Some((rest, q)) => Some((acc.deep_view() + rest, q)),
                None => None::<(Seq<crate::tag::TagView>, int)>,
            }),
        decreases count - i,
    {
        let (v, p) = match parse_tag(s, cur) {
            Some(x) => x,
            None => {
                return None;
            },
        };
        let ghost prev_acc = acc.deep_view();
        let ghost vv = v@;
        acc.push(v);
        proof {
            assert(acc.deep_view() =~= prev_acc.push(vv));
        }
        cur = p;
        i = i + 1;
        proof {
            assert forall|rest: Seq<crate::tag::TagView>|
                true implies prev_acc + (seq![vv] + rest) =~= acc.deep_view() + rest by {}
        }
    }
    proof {
        assert(acc.deep_view() + Seq::<crate::tag::TagView>::empty() =~= acc.deep_view());
    }
    Some((acc, cur))
}

/// Parses a whole document; `None` exactly when it does not decode or
/// trailing characters remain.
pub fn parse_document(s: &Vec<char>) -> (r: Option<
    (Vec<crate::node::NodeRecord>, Vec<crate::tag::TagRecord>),
>)
    ensures
        match r {
            Some((nodes, tags)) => pdoc(s@) == Some((nodes.deep_view(), tags.deep_view())),
            None => pdoc(s@) is None,
        },
{
    let (n, p1) = match read_num(s, 0) {
        Some(x) => x,
        None => {
            return None;
        },
    };
    let (nodes, p2) = match parse_nodes_n(s, p1, n) {
        Some(x) => x,
        None => {
            return None;
        },
    };
    let (m, p3) = match read_num(s, p2) {
        Some(x) => x,
        None => {
            return None;
        },
    };
    let (tags, p4) = match parse_tags_n(s, p3, m) {
        Some(x) => x,
        None => {
            return None;
        },
    };
    if p4 != s.len() {
        return None;
    }
    Some((nodes, tags))
}

/// A failed pair poisons every longer even prefix, and the whole string.
proof fn lemma_hex_prefix_none(s: Seq<char>, k: int)
    requires
        0 <= k <= s.len(),
        k % 2 == 0,
        s.len() % 2 == 0,
        hex_decode(s.take(k)) is None,
    ensures
        hex_decode(s) is None,
    decreases s.len() - k,
{
    if k == s.len() {
        assert(s.take(k) =~= s);
    } else {
        assert((k + 2) % 2 == 0);
        assert(hex_decode(s.take(k + 2)) is None) by {
            assert(s.take(k + 2).drop_last().drop_last() =~= s.take(k));
            assert(s.take(k + 2).len() % 2 == 0) by (nonlinear_arith)
                requires
                    s.take(k + 2).len() == k + 2,
                    k % 2 == 0,
            ;
        }
        lemma_hex_prefix_none(s, k + 2);
    }
}

} // verus!
