//! The exact per-point binary encoding used for persistence.
//!
//! Layout of one encoded point, with every multi-byte integer little-endian:
//! an 8-byte count of coordinates; each coordinate as 4 bytes, biased by
//! 2^31 so that the byte value is the coordinate plus 2^31; one tag byte for
//! the metadata, 0 for absent and 1 for present; and, when present, an 8-byte
//! count of UTF-8 bytes followed by the metadata in UTF-8. Encoding then
//! decoding any point yields an equal point, and the decoder accepts exactly
//! the byte strings that the encoder can produce.

use vstd::prelude::*;
use crate::Error;
use crate::vector::{Vector, PointV};

verus! {

/// 256 raised to `e`.
pub open spec fn pow256(e: nat) -> nat
    decreases e,
{
    if e == 0 {
        1
    } else {
        256 * pow256((e - 1) as nat)
    }
}

/// The `len` little-endian base-256 digits of `n`.
pub open spec fn le_bytes(n: nat, len: nat) -> Seq<u8>
    decreases len,
{
    if len == 0 {
        Seq::empty()
    } else {
        seq![(n % 256) as u8] + le_bytes(n / 256, (len - 1) as nat)
    }
}

/// The value of a little-endian base-256 digit string.
pub open spec fn le_val(b: Seq<u8>) -> nat
    decreases b.len(),
{
    if b.len() == 0 {
        0
    } else {
        (b[0] + 256 * le_val(b.drop_first())) as nat
    }
}

/// The unsigned bit pattern a coordinate is stored as.
pub open spec fn coord_bits(c: i32) -> nat {
    (c + 0x8000_0000) as nat
}

/// The coordinate a stored bit pattern stands for.
pub open spec fn coord_of_bits(u: nat) -> i32 {
    (u - 0x8000_0000) as i32
}

/// The concatenated encodings of a coordinate sequence.
pub open spec fn encode_coords(cs: Seq<i32>) -> Seq<u8>
    decreases cs.len(),
{
    if cs.len() == 0 {
        Seq::empty()
    } else {
        le_bytes(coord_bits(cs[0]), 4) + encode_coords(cs.drop_first())
    }
}

/// The encoding of the optional metadata.
pub open spec fn encode_meta(m: Option<Seq<char>>) -> Seq<u8> {
    match m {
        None => seq![0u8],
        Some(s) => seq![1u8] + le_bytes(vstd::utf8::encode_utf8(s).len(), 8)
            + vstd::utf8::encode_utf8(s),
    }
}

/// The encoding of a whole point.
pub open spec fn encode_point(p: PointV) -> Seq<u8> {
    le_bytes(p.coords.len(), 8) + encode_coords(p.coords) + encode_meta(p.meta)
}

/// Whether a point fits the format's counters: fewer than 2^64 coordinates
/// and fewer than 2^64 metadata bytes. Every point held in memory does.
pub open spec fn encodable(p: PointV) -> bool {
    &&& p.coords.len() < 0x1_0000_0000_0000_0000
    &&& match p.meta {
        None => true,
        Some(s) => vstd::utf8::encode_utf8(s).len() < 0x1_0000_0000_0000_0000,
    }
}

/// The mathematical decoder: `Some(p)` exactly when `b` is the encoding of
/// the point `p`, and `None` on every other byte string.
pub open spec fn decode_point(b: Seq<u8>) -> Option<PointV> {
    if b.len() < 8 {
        None
    } else {
        let n = le_val(b.subrange(0, 8));
        if b.len() < 8 + 4 * n {
            None
        } else {
            let coords = Seq::new(
                n,
                |i: int| coord_of_bits(le_val(b.subrange(8 + 4 * i, 8 + 4 * i + 4))),
            );
            let rest = b.skip(8 + 4 * (n as int));
            if rest.len() == 0 {
                None
            } else if rest[0] == 0 {
                if rest.len() == 1 {
                    Some(PointV { coords, meta: None })
                } else {
                    None
                }
            } else if rest[0] == 1 {
                if rest.len() < 9 {
                    None
                } else {
                    let m = le_val(rest.subrange(1, 9));
                    let mb = rest.skip(9);
                    if mb.len() == m && vstd::utf8::valid_utf8(mb) {
                        Some(PointV { coords, meta: Some(vstd::utf8::decode_utf8(mb)) })
                    } else {
                        None
                    }
                }
            } else {
                None
            }
        }
    }
}

/// `le_bytes` produces exactly `len` digits.
pub proof fn lemma_le_bytes_len(n: nat, len: nat)
    ensures
        le_bytes(n, len).len() == len,
    decreases len,
{
    if len > 0 {
        lemma_le_bytes_len(n / 256, (len - 1) as nat);
    }
}

/// A digit string of length `len` has value below 256^len.
pub proof fn lemma_le_val_bound(b: Seq<u8>)
    ensures
        le_val(b) < pow256(b.len()),
    decreases b.len(),
{
    if b.len() > 0 {
        lemma_le_val_bound(b.drop_first());
    }
}

/// 256^e grows with `e`.
pub proof fn lemma_pow256_mono(a: nat, b: nat)
    requires
        a <= b,
    ensures
        pow256(a) <= pow256(b),
        pow256(a) >= 1,
    decreases b,
{
    if a == b {
        if a > 0 {
            lemma_pow256_mono((a - 1) as nat, (a - 1) as nat);
        }
    } else {
        lemma_pow256_mono(a, (b - 1) as nat);
    }
}

/// Reading back the digits of `n` yields `n` whenever `n` fits in `len`
/// digits.
pub proof fn lemma_le_roundtrip(n: nat, len: nat)
    requires
        n < pow256(len),
    ensures
        le_val(le_bytes(n, len)) == n,
    decreases len,
{
    if len == 0 {
    } else {
        let rest = le_bytes(n / 256, (len - 1) as nat);
        assert(le_bytes(n, len).drop_first() =~= rest);
        vstd::arithmetic::div_mod::lemma_fundamental_div_mod(n as int, 256);
        assert(n / 256 < pow256((len - 1) as nat));
        lemma_le_roundtrip(n / 256, (len - 1) as nat);
    }
}

/// The encoding of a coordinate sequence is 4 bytes per coordinate.
pub proof fn lemma_encode_coords_len(cs: Seq<i32>)
    ensures
        encode_coords(cs).len() == 4 * cs.len(),
    decreases cs.len(),
{
    if cs.len() > 0 {
        lemma_le_bytes_len(coord_bits(cs[0]), 4);
        lemma_encode_coords_len(cs.drop_first());
    }
}

/// Appending one coordinate appends its 4-byte encoding.
pub proof fn lemma_encode_coords_push(cs: Seq<i32>, c: i32)
    ensures
        encode_coords(cs.push(c)) == encode_coords(cs) + le_bytes(coord_bits(c), 4),
    decreases cs.len(),
{
    if cs.len() == 0 {
        assert(cs.push(c).drop_first() =~= Seq::<i32>::empty());
        assert(cs.push(c)[0] == c);
        assert(encode_coords(cs.push(c)) == le_bytes(coord_bits(cs.push(c)[0]), 4)
            + encode_coords(cs.push(c).drop_first()));
        assert(encode_coords(cs.push(c)) =~= le_bytes(coord_bits(c), 4));
        assert(encode_coords(cs) + le_bytes(coord_bits(c), 4) =~= le_bytes(coord_bits(c), 4));
    } else {
        assert(cs.push(c).drop_first() =~= cs.drop_first().push(c));
        lemma_encode_coords_push(cs.drop_first(), c);
        assert(encode_coords(cs.push(c)) =~= encode_coords(cs) + le_bytes(coord_bits(c), 4));
    }
}

/// The 4-byte slice at position `i` of an encoded coordinate sequence is the
/// encoding of the `i`-th coordinate.
pub proof fn lemma_encode_coords_index(cs: Seq<i32>, i: int)
    requires
        0 <= i < cs.len(),
    ensures
        encode_coords(cs).subrange(4 * i, 4 * i + 4) == le_bytes(coord_bits(cs[i]), 4),
    decreases i,
{
    lemma_encode_coords_len(cs);
    lemma_le_bytes_len(coord_bits(cs[0]), 4);
    lemma_encode_coords_len(cs.drop_first());
    if i == 0 {
        assert(encode_coords(cs).subrange(0, 4) =~= le_bytes(coord_bits(cs[0]), 4));
    } else {
        lemma_encode_coords_index(cs.drop_first(), i - 1);
        assert(encode_coords(cs).subrange(4 * i, 4 * i + 4) =~= encode_coords(
            cs.drop_first(),
        ).subrange(4 * (i - 1), 4 * (i - 1) + 4));
    }
}

/// Decoding inverts encoding: the decoder returns exactly the point that was
/// encoded.
pub proof fn lemma_decode_encode(p: PointV)
    requires
        encodable(p),
    ensures
        decode_point(encode_point(p)) == Some(p),
{
    let cs = p.coords;
    let n = cs.len();
    let a = le_bytes(n, 8);
    let c = encode_coords(cs);
    let m = encode_meta(p.meta);
    let b = encode_point(p);
    lemma_le_bytes_len(n, 8);
    lemma_encode_coords_len(cs);
    assert(pow256(8) == 0x1_0000_0000_0000_0000) by {
        reveal_with_fuel(pow256, 9);
    }
    assert(pow256(4) == 0x1_0000_0000) by {
        reveal_with_fuel(pow256, 5);
    }
    assert(m.len() >= 1);
    assert(b.len() == 8 + 4 * n + m.len());
    assert(b.subrange(0, 8) =~= a);
    lemma_le_roundtrip(n, 8);
    assert(le_val(b.subrange(0, 8)) == n);
    let coords = Seq::new(
        n,
        |i: int| coord_of_bits(le_val(b.subrange(8 + 4 * i, 8 + 4 * i + 4))),
    );
    assert forall|i: int| 0 <= i < n implies coords[i] == cs[i] by {
        assert(b.subrange(8 + 4 * i, 8 + 4 * i + 4) =~= c.subrange(4 * i, 4 * i + 4));
        lemma_encode_coords_index(cs, i);
        lemma_le_roundtrip(coord_bits(cs[i]), 4);
        assert(coord_of_bits(coord_bits(cs[i])) == cs[i]);
    }
    assert(coords =~= cs);
    let rest = b.skip(8 + 4 * (n as int));
    assert(rest =~= m);
    match p.meta {
        None => {
            assert(rest[0] == 0);
            assert(rest.len() == 1);
            assert(decode_point(b) == Some(PointV { coords, meta: None }));
            assert(PointV { coords, meta: None } =~= p);
        }
        Some(s) => {
            let u = vstd::utf8::encode_utf8(s);
            lemma_le_bytes_len(u.len(), 8);
            assert(rest[0] == 1);
            assert(rest.len() == 9 + u.len());
            assert(rest.subrange(1, 9) =~= le_bytes(u.len(), 8));
            lemma_le_roundtrip(u.len(), 8);
            let mb = rest.skip(9);
            assert(mb =~= u);
            vstd::utf8::encode_utf8_valid_utf8(s);
            vstd::utf8::encode_utf8_decode_utf8(s);
            assert(decode_point(b) == Some(PointV { coords, meta: Some(vstd::utf8::decode_utf8(u)) }));
            assert(PointV { coords, meta: Some(vstd::utf8::decode_utf8(u)) } =~= p);
        }
    }
}

/// Round-trip law: the files written for a sequence of points decode back
/// to exactly those points, in order.
pub proof fn lemma_save_load_round_trip(s: Seq<PointV>, files: Seq<Seq<u8>>)
    requires
        files.len() == s.len(),
        forall|i: int|
            0 <= i < s.len() ==> #[trigger] files[i] == encode_point(s[i]) && encodable(s[i]),
    ensures
        forall|i: int| 0 <= i < s.len() ==> #[trigger] decode_point(files[i]) == Some(s[i]),
{
    assert forall|i: int| 0 <= i < s.len() implies #[trigger] decode_point(files[i]) == Some(
        s[i],
    ) by {
        lemma_decode_encode(s[i]);
    }
}

/// Appends the `len` little-endian base-256 digits of `v`.
fn push_le(out: &mut Vec<u8>, v: u64, len: usize)
    ensures
        final(out)@ == old(out)@ + le_bytes(v as nat, len as nat),
{
    let mut x: u64 = v;
    let mut j: usize = 0;
    while j < len
        invariant
            0 <= j <= len,
            old(out)@ + le_bytes(v as nat, len as nat) == out@ + le_bytes(
                x as nat,
                (len - j) as nat,
            ),
        decreases len - j,
    {
        let ghost pre = out@;
        let ghost xpre = x as nat;
        out.push((x % 256) as u8);
        x = x / 256;
        j = j + 1;
        proof {
            assert(le_bytes(xpre, (len - j + 1) as nat) =~= seq![(xpre % 256) as u8] + le_bytes(
                xpre / 256,
                (len - j) as nat,
            ));
            assert(pre + le_bytes(xpre, (len - j + 1) as nat) =~= out@ + le_bytes(
                x as nat,
                (len - j) as nat,
            ));
        }
    }
    proof {
        assert(le_bytes(x as nat, 0) =~= Seq::<u8>::empty());
        assert(out@ + le_bytes(x as nat, 0) =~= out@);
    }
}

/// Reads the value of the `len` little-endian bytes at `off`; `len` is at
/// most 8 so the value fits in 64 bits.
fn read_le(b: &Vec<u8>, off: usize, len: usize) -> (r: u64)
    requires
        off + len <= b@.len(),
        len <= 8,
    ensures
        r as nat == le_val(b@.subrange(off as int, off + len)),
{
    let bl = b.len();
    let mut acc: u64 = 0;
    let mut j: usize = len;
    proof {
        assert(b@.subrange(off + len, off + len) =~= Seq::<u8>::empty());
    }
    while j > 0
        invariant
            0 <= j <= len,
            len <= 8,
            off + len <= b@.len(),
            bl == b@.len(),
            acc as nat == le_val(b@.subrange(off + j, off + len)),
            (acc as nat) < pow256((len - j) as nat),
        decreases j,
    {
        j = j - 1;
        proof {
            let sub = b@.subrange(off + j, off + len);
            assert(sub.drop_first() =~= b@.subrange(off + j + 1, off + len));
            assert(sub[0] == b@[off + j]);
            lemma_pow256_mono((len - j - 1) as nat, 7);
            assert(pow256(7) == 0x100_0000_0000_0000) by {
                reveal_with_fuel(pow256, 8);
            }
        }
        acc = (b[off + j] as u64) + 256 * acc;
    }
    proof {
        assert(b@.subrange(off as int, off + len) == b@.subrange(off + 0, off + len));
    }
    acc
}

/// Encodes one point in the persistence format.
pub fn encode_vector(v: &Vector) -> (r: Vec<u8>)
    ensures
        r@ == encode_point(v@),
        encodable(v@),
{
    let mut out: Vec<u8> = Vec::new();
    let n = v.coordinates.len();
    push_le(&mut out, n as u64, 8);
    proof {
        assert(Seq::<u8>::empty() + le_bytes(n as nat, 8) =~= le_bytes(n as nat, 8));
        assert(encode_coords(v@.coords.take(0)) =~= Seq::<u8>::empty());
        assert(le_bytes(n as nat, 8) + encode_coords(v@.coords.take(0)) =~= le_bytes(
            n as nat,
            8,
        ));
    }
    let mut i: usize = 0;
    while i < n
        invariant
            0 <= i <= n,
            n == v@.coords.len(),
            out@ == le_bytes(n as nat, 8) + encode_coords(v@.coords.take(i as int)),
        decreases n - i,
    {
        let c = v.coordinates[i];
        let bits: u32 = (((c as i64) + 0x8000_0000i64)) as u32;
        proof {
            assert(bits as nat == coord_bits(v@.coords[i as int]));
        }
        let ghost pre_take = v@.coords.take(i as int);
        push_le(&mut out, bits as u64, 4);
        i = i + 1;
        proof {
            assert(v@.coords.take(i as int) =~= pre_take.push(v@.coords[i - 1]));
            lemma_encode_coords_push(pre_take, v@.coords[i - 1]);
            assert(out@ =~= le_bytes(n as nat, 8) + encode_coords(v@.coords.take(i as int)));
        }
    }
    proof {
        assert(v@.coords.take(n as int) =~= v@.coords);
    }
    match &v.meta {
        None => {
            out.push(0u8);
            proof {
                assert(out@ =~= encode_point(v@));
            }
        }
        Some(s) => {
            out.push(1u8);
            let mb = s.as_str().as_bytes();
            let ghost u = vstd::utf8::encode_utf8(s@);
            proof {
                assert(mb@ == u);
            }
            push_le(&mut out, mb.len() as u64, 8);
            let ghost head = out@;
            let mut j: usize = 0;
            while j < mb.len()
                invariant
                    0 <= j <= mb@.len(),
                    mb@ == u,
                    out@ == head + u.take(j as int),
                decreases mb@.len() - j,
            {
                out.push(mb[j]);
                j = j + 1;
                proof {
                    assert(u.take(j as int) =~= u.take(j - 1).push(u[j - 1]));
                    assert(out@ =~= head + u.take(j as int));
                }
            }
            proof {
                assert(u.take(u.len() as int) =~= u);
                assert(out@ =~= encode_point(v@));
            }
        }
    }
    out
}

/// Turns bytes into the string they spell in UTF-8.
///
/// Relies on `String::from_utf8`: it succeeds exactly on valid UTF-8, and the
/// string it returns consists of the characters that the bytes encode.
#[verifier::external_body]
fn string_from_utf8(bytes: Vec<u8>) -> (r: Option<String>)
    ensures
        r is Some <==> vstd::utf8::valid_utf8(bytes@),
        r is Some ==> r.unwrap()@ == vstd::utf8::decode_utf8(bytes@),
{
    String::from_utf8(bytes).ok()
}

/// Decodes one point from the persistence format; every byte string that is
/// not exactly an encoded point is reported as corrupt.
pub fn decode_vector(b: &Vec<u8>) -> (r: Result<Vector, Error>)
    ensures
        match r {
            Ok(v) => decode_point(b@) == Some(v@),
            Err(e) => e == Error::CorruptData && decode_point(b@) is None,
        },
{
    let blen = b.len();
    if blen < 8 {
        return Err(Error::CorruptData);
    }
    let n64 = read_le(b, 0, 8);
    let ghost n = le_val(b@.subrange(0, 8));
    let mut coords: Vec<i32> = Vec::new();
    let mut off: usize = 8;
    let mut i: u64 = 0;
    proof {
        assert(coords@ =~= Seq::<i32>::empty());
    }
    while i < n64
        invariant
            0 <= i <= n64,
            n64 as nat == n,
            off == 8 + 4 * i,
            off <= blen,
            blen == b@.len(),
            8 <= blen,
            n == le_val(b@.subrange(0, 8)),
            coords@.len() == i,
            forall|j: int|
                0 <= j < i ==> #[trigger] coords@[j] == coord_of_bits(
                    le_val(b@.subrange(8 + 4 * j, 8 + 4 * j + 4)),
                ),
        decreases n64 - i,
    {
        if blen - off < 4 {
            proof {
                assert(b@.len() < 8 + 4 * n);
            }
            return Err(Error::CorruptData);
        }
        let w = read_le(b, off, 4);
        proof {
            lemma_le_val_bound(b@.subrange(off as int, off + 4));
            assert(pow256(4) == 0x1_0000_0000) by {
                reveal_with_fuel(pow256, 5);
            }
        }
        let c: i32 = ((w as i64) - 0x8000_0000i64) as i32;
        proof {
            assert(c == coord_of_bits(le_val(b@.subrange(8 + 4 * i, 8 + 4 * i + 4))));
        }
        coords.push(c);
        off = off + 4;
        i = i + 1;
    }
    proof {
        assert(b@.len() >= 8 + 4 * n);
    }
    let ghost rest = b@.skip(8 + 4 * (n as int));
    proof {
        assert(rest.len() == blen - off);
        assert(forall|j: int| 0 <= j < rest.len() ==> rest[j] == #[trigger] b@[off + j]);
    }
    if off >= blen {
        return Err(Error::CorruptData);
    }
    let tag = b[off];
    proof {
        assert(rest[0] == tag);
    }
    if tag == 0 {
        if blen - off != 1 {
            return Err(Error::CorruptData);
        }
        let v = Vector { coordinates: coords, meta: None };
        proof {
            let dec = Seq::new(
                n,
                |j: int| coord_of_bits(le_val(b@.subrange(8 + 4 * j, 8 + 4 * j + 4))),
            );
            assert(coords@ =~= dec);
            assert(decode_point(b@) == Some(PointV { coords: dec, meta: None }));
            assert(PointV { coords: dec, meta: None } =~= v@);
        }
        Ok(v)
    } else if tag == 1 {
        if blen - off < 9 {
            return Err(Error::CorruptData);
        }
        let m64 = read_le(b, off + 1, 8);
        let ghost m = le_val(rest.subrange(1, 9));
        proof {
            assert(b@.subrange(off + 1, off + 9) =~= rest.subrange(1, 9));
        }
        if (blen - off - 9) as u64 != m64 {
            proof {
                assert(rest.skip(9).len() != m);
            }
            return Err(Error::CorruptData);
        }
        let mut mb: Vec<u8> = Vec::new();
        let mut j: usize = off + 9;
        while j < blen
            invariant
                off + 9 <= j <= blen,
                blen == b@.len(),
                mb@ =~= b@.subrange(off + 9, j as int),
            decreases blen - j,
        {
            mb.push(b[j]);
            j = j + 1;
            proof {
                assert(mb@ =~= b@.subrange(off + 9, j as int));
            }
        }
        proof {
            assert(mb@ =~= rest.skip(9));
            assert(mb@.len() == m);
        }
        match string_from_utf8(mb) {
            Some(s) => {
                let v = Vector { coordinates: coords, meta: Some(s) };
                proof {
                    let dec = Seq::new(
                        n,
                        |jj: int| coord_of_bits(le_val(b@.subrange(8 + 4 * jj, 8 + 4 * jj + 4))),
                    );
                    assert(coords@ =~= dec);
                    assert(decode_point(b@) == Some(
                        PointV { coords: dec, meta: Some(vstd::utf8::decode_utf8(rest.skip(9))) },
                    ));
                    assert(PointV {
                        coords: dec,
                        meta: Some(vstd::utf8::decode_utf8(rest.skip(9))),
                    } =~= v@);
                }
                Ok(v)
            }
            None => {
                proof {
                    assert(!vstd::utf8::valid_utf8(rest.skip(9)));
                }
                Err(Error::CorruptData)
            }
        }
    } else {
        Err(Error::CorruptData)
    }
}

} // verus!
