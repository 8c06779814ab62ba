//! Unsigned integers as 7-bit little-endian groups, the high bit of each byte
//! set when more bytes of the same integer follow.
use vstd::prelude::*;
use vstd::arithmetic::power2::{pow2, lemma_pow2_adds, lemma_pow2_pos, lemma2_to64};
use vstd::bits::lemma_u64_shl_is_mul;
use crate::error::SchematicError;

verus! {

/// The canonical encoding of one integer.
pub open spec fn varint_bytes(v: nat) -> Seq<u8>
    decreases v,
{
    if v < 128 {
        seq![v as u8]
    } else {
        seq![(v % 128 + 128) as u8] + varint_bytes(v / 128)
    }
}

/// The encodings of `vs`, one after the other.
pub open spec fn varint_stream(vs: Seq<u32>) -> Seq<u8>
    decreases vs.len(),
{
    if vs.len() == 0 {
        seq![]
    } else {
        varint_bytes(vs[0] as nat) + varint_stream(vs.drop_first())
    }
}

/// Number of leading bytes of `s` with the continuation bit set.
pub open spec fn group_len(s: Seq<u8>) -> nat
    decreases s.len(),
{
    if s.len() == 0 || s[0] < 128 {
        0
    } else {
        1 + group_len(s.drop_first())
    }
}

/// The integer that the low 7 bits of the first `n` bytes of `s` spell,
/// first byte lowest.
pub open spec fn group_value(s: Seq<u8>, n: nat) -> nat
    decreases n,
{
    if n == 0 {
        0
    } else {
        let m = (n - 1) as nat;
        group_value(s, m) + (s[m as int] % 128) as nat * pow2(7 * m)
    }
}

/// The integers that a byte stream holds; `None` where a group runs past the
/// end of the stream, is longer than five bytes or exceeds `u32::MAX`.
pub open spec fn decode_stream(s: Seq<u8>) -> Option<Seq<u32>>
    decreases s.len(),
{
    if s.len() == 0 {
        Some(seq![])
    } else {
        let g = group_len(s);
        if g >= s.len() || g >= 5 || group_value(s, g + 1) > u32::MAX {
            None
        } else {
            match decode_stream(s.subrange((g + 1) as int, s.len() as int)) {
                Some(rest) => Some(seq![group_value(s, g + 1) as u32] + rest),
                None => None,
            }
        }
    }
}

proof fn lemma_group_len(s: Seq<u8>, k: nat)
    requires
        k <= s.len(),
        forall|m: int| 0 <= m < k ==> s[m] >= 128,
    ensures
        group_len(s) >= k,
        k < s.len() && s[k as int] < 128 ==> group_len(s) == k,
    decreases k,
{
    if k > 0 {
        lemma_group_len(s.drop_first(), (k - 1) as nat);
    }
}

proof fn lemma_group_value_bound(s: Seq<u8>, n: nat)
    ensures
        group_value(s, n) < pow2(7 * n),
    decreases n,
{
    lemma2_to64();
    if n > 0 {
        let m = (n - 1) as nat;
        lemma_group_value_bound(s, m);
        lemma_pow2_adds(7 * m, 7);
        let p = pow2(7 * m);
        let d = (s[m as int] % 128) as nat;
        assert(7 * n == 7 * m + 7);
        assert(pow2(7 * n) == p * 128);
        assert(group_value(s, m) + d * p < 128 * p) by (nonlinear_arith)
            requires
                group_value(s, m) < p,
                d < 128,
        ;
    }
}

proof fn lemma_group_value_prepend(b: u8, s: Seq<u8>, n: nat)
    requires
        n <= s.len(),
    ensures
        group_value(seq![b] + s, n + 1) == (b % 128) as nat + 128 * group_value(s, n),
    decreases n,
{
    let t = seq![b] + s;
    lemma2_to64();
    assert(group_value(t, 0) == 0);
    if n == 0 {
        assert(t[0] == b);
        assert(group_value(s, 0) == 0);
        assert(group_value(t, 1) == group_value(t, 0) + (t[0] % 128) as nat * pow2(0));
    } else {
        let m = (n - 1) as nat;
        lemma_group_value_prepend(b, s, m);
        assert(t[n as int] == s[m as int]);
        lemma_pow2_adds(7, 7 * m);
        assert(7 + 7 * m == 7 * n);
        let p = pow2(7 * m);
        let d = (s[m as int] % 128) as nat;
        assert(group_value(s, n) == group_value(s, m) + d * p);
        assert(group_value(t, n + 1) == group_value(t, n) + d * pow2(7 * n));
        assert(128 * (group_value(s, m) + d * p) == 128 * group_value(s, m) + d * (128 * p)) by (nonlinear_arith);
    }
}

proof fn lemma_group_value_prefix(s: Seq<u8>, t: Seq<u8>, n: nat)
    requires
        n <= s.len(),
    ensures
        group_value(s + t, n) == group_value(s, n),
    decreases n,
{
    if n > 0 {
        lemma_group_value_prefix(s, t, (n - 1) as nat);
        assert((s + t)[n - 1] == s[n - 1]);
    }
}

proof fn lemma_varint_bytes(v: nat, t: Seq<u8>)
    ensures
        varint_bytes(v).len() >= 1,
        group_len(varint_bytes(v) + t) == varint_bytes(v).len() - 1,
        group_value(varint_bytes(v) + t, varint_bytes(v).len()) == v,
    decreases v,
{
    lemma2_to64();
    let b = varint_bytes(v);
    if v < 128 {
        lemma_group_len(b + t, 0);
        assert((b + t)[0] == v as u8);
        assert(group_value(b + t, 0) == 0);
        assert(group_value(b + t, 1) == group_value(b + t, 0) + ((b + t)[0] % 128) as nat * pow2(0));
    } else {
        let r = varint_bytes(v / 128);
        lemma_varint_bytes(v / 128, t);
        assert(b + t =~= seq![(v % 128 + 128) as u8] + (r + t));
        assert((b + t).drop_first() =~= r + t);
        lemma_group_value_prepend((v % 128 + 128) as u8, r + t, r.len());
        assert(((v % 128 + 128) as u8) % 128 == v % 128);
        assert(b.len() == r.len() + 1);
        assert(v == v % 128 + 128 * (v / 128));
    }
}

proof fn lemma_varint_len(v: nat, k: nat)
    requires
        k >= 1,
        v < pow2(7 * k),
    ensures
        varint_bytes(v).len() <= k,
    decreases v,
{
    lemma2_to64();
    if v >= 128 {
        if k == 1 {
        } else {
            lemma_pow2_adds(7, 7 * (k - 1) as nat);
            assert(7 + 7 * (k - 1) == 7 * k);
            assert(v / 128 < pow2(7 * (k - 1) as nat)) by (nonlinear_arith)
                requires
                    v < 128 * pow2(7 * (k - 1) as nat),
            ;
            lemma_varint_len(v / 128, (k - 1) as nat);
        }
    }
}

proof fn lemma_stream_push(vs: Seq<u32>, v: u32)
    ensures
        varint_stream(vs.push(v)) == varint_stream(vs) + varint_bytes(v as nat),
    decreases vs.len(),
{
    if vs.len() == 0 {
        let one = vs.push(v);
        assert(one.drop_first() =~= Seq::<u32>::empty());
        assert(varint_stream(one.drop_first()) == Seq::<u8>::empty());
        assert(varint_stream(vs) == Seq::<u8>::empty());
        assert(varint_stream(one) =~= varint_stream(vs) + varint_bytes(v as nat));
    } else {
        assert(vs.push(v).drop_first() =~= vs.drop_first().push(v));
        lemma_stream_push(vs.drop_first(), v);
        assert(varint_stream(vs.push(v)) =~= varint_stream(vs) + varint_bytes(v as nat));
    }
}

/// Decoding the encoding of any sequence of `u32` gives that sequence back.
pub proof fn lemma_decode_encode(vs: Seq<u32>)
    ensures
        decode_stream(varint_stream(vs)) == Some(vs),
    decreases vs.len(),
{
    if vs.len() > 0 {
        let s = varint_stream(vs);
        let b = varint_bytes(vs[0] as nat);
        let rest = varint_stream(vs.drop_first());
        lemma_varint_bytes(vs[0] as nat, rest);
        lemma2_to64();
        vstd::arithmetic::power2::lemma2_to64_rest();
        assert(7 * 5nat == 35nat);
        assert(pow2(35) == 0x8_0000_0000nat);
        lemma_varint_len(vs[0] as nat, 5);
        assert(s.subrange(b.len() as int, s.len() as int) =~= rest);
        lemma_decode_encode(vs.drop_first());
        assert(seq![vs[0]] + vs.drop_first() =~= vs);
    } else {
        assert(varint_stream(vs) =~= seq![]);
    }
}

/// Encodes each value in turn (see `varint_bytes`).
pub fn encode_varints(values: &Vec<u32>) -> (r: Vec<u8>)
    ensures
        r@ == varint_stream(values@),
{
    let mut out: Vec<u8> = Vec::new();
    let mut i: usize = 0;
    while i < values.len()
        invariant
            i <= values.len(),
            out@ == varint_stream(values@.take(i as int)),
        decreases values.len() - i,
    {
        let v = values[i];
        let ghost target = out@ + varint_bytes(v as nat);
        let mut temp: u32 = v;
        loop
            invariant_except_break
                out@ + varint_bytes(temp as nat) == target,
            ensures
                out@ == target,
            decreases temp,
        {
            let low: u8 = (temp & 0x7f) as u8;
            proof {
                assert(temp & 0x7f == temp % 128) by (bit_vector);
                assert(temp >> 7 == temp / 128) by (bit_vector);
            }
            let next: u32 = temp >> 7;
            if next > 0 {
                proof {
                    assert(seq![(temp % 128 + 128) as u8] + varint_bytes(next as nat) == varint_bytes(temp as nat));
                    assert(out@.push(low | 0x80) + varint_bytes(next as nat) =~= out@ + varint_bytes(temp as nat)) by {
                        assert(low < 128);
                        assert(low | 0x80 == low + 128) by (bit_vector)
                            requires
                                low < 128,
                        ;
                    }
                }
                out.push(low | 0x80);
                temp = next;
            } else {
                proof {
                    assert(out@.push(low) =~= out@ + varint_bytes(temp as nat));
                }
                out.push(low);
                break;
            }
        }
        proof {
            lemma_stream_push(values@.take(i as int), v);
            assert(values@.take(i as int).push(v) =~= values@.take(i + 1));
        }
        i = i + 1;
    }
    proof {
        assert(values@.take(values.len() as int) =~= values@);
    }
    out
}

/// `out` followed by what `rest` holds, or `None` where `rest` is `None`.
pub open spec fn prepend_decoded(out: Seq<u32>, rest: Option<Seq<u32>>) -> Option<Seq<u32>> {
    match rest {
        Some(r) => Some(out + r),
        None => None,
    }
}

/// Decodes a whole stream of varints (see `decode_stream`); a stream that
/// ends inside a group, or holds a group too long for a `u32`, is a format error.
pub fn decode_varints(bytes: &Vec<u8>) -> (r: Result<Vec<u32>, SchematicError>)
    ensures
        match r {
            Ok(vs) => decode_stream(bytes@) == Some(vs@),
            Err(e) => decode_stream(bytes@) is None && e == SchematicError::Format,
        },
{
    let len = bytes.len();
    let mut out: Vec<u32> = Vec::new();
    let mut pos: usize = 0;
    proof {
        assert(bytes@.subrange(0, len as int) =~= bytes@);
        if decode_stream(bytes@) is Some {
            assert(out@ + decode_stream(bytes@).unwrap() =~= decode_stream(bytes@).unwrap());
        }
    }
    while pos < len
        invariant
            len == bytes.len(),
            pos <= len,
            decode_stream(bytes@) == prepend_decoded(out@, decode_stream(bytes@.subrange(pos as int, len as int))),
        decreases len - pos,
    {
        let ghost s = bytes@.subrange(pos as int, len as int);
        let mut acc: u64 = 0;
        let mut k: usize = 0;
        proof {
            lemma2_to64();
        }
        loop
            invariant_except_break
                len == bytes.len(),
                pos < len,
                s == bytes@.subrange(pos as int, len as int),
                decode_stream(bytes@) == prepend_decoded(out@, decode_stream(s)),
                pos + k <= len,
                k <= 5,
                forall|m: int| 0 <= m < k ==> s[m] >= 128,
                acc == group_value(s, k as nat),
            ensures
                1 <= k <= 5,
                pos + k <= len,
                s[k - 1] < 128,
                forall|m: int| 0 <= m < k - 1 ==> s[m] >= 128,
                acc == group_value(s, k as nat),
            decreases len - pos - k,
        {
            if pos + k >= len {
                proof {
                    lemma_group_len(s, k as nat);
                    assert(decode_stream(s) is None);
                }
                return Err(SchematicError::Format);
            }
            if k >= 5 {
                proof {
                    lemma_group_len(s, k as nat);
                    assert(decode_stream(s) is None);
                }
                return Err(SchematicError::Format);
            }
            let b = bytes[pos + k];
            proof {
                lemma2_to64();
                lemma_group_value_bound(s, k as nat);
                if 7 * k < 28 {
                    vstd::arithmetic::power2::lemma_pow2_strictly_increases((7 * k) as nat, 28);
                }
                assert(b & 0x7f == b % 128) by (bit_vector);
                assert(s[k as int] == b);
                let x = (b % 128) as u64;
                assert(x * pow2((7 * k) as nat) <= 127 * 0x1000_0000) by (nonlinear_arith)
                    requires
                        x < 128,
                        pow2((7 * k) as nat) <= 0x1000_0000,
                ;
                lemma_u64_shl_is_mul(x, (7 * k) as u64);
                assert(group_value(s, (k + 1) as nat) == group_value(s, k as nat) + x * pow2(7 * (k as nat)));
            }
            acc = acc + (((b & 0x7f) as u64) << ((7 * k) as u64));
            k = k + 1;
            if b < 128 {
                break;
            }
        }
        proof {
            lemma_group_len(s, (k - 1) as nat);
        }
        if acc > 0xFFFF_FFFF {
            return Err(SchematicError::Format);
        }
        out.push(acc as u32);
        proof {
            assert(s.subrange(k as int, s.len() as int) =~= bytes@.subrange(pos + k, len as int));
            let rest = decode_stream(bytes@.subrange(pos + k, len as int));
            if rest is Some {
                assert(out@ + rest.unwrap() =~= (out@.drop_last() + (seq![acc as u32] + rest.unwrap())));
            }
        }
        pos = pos + k;
    }
    proof {
        assert(bytes@.subrange(pos as int, len as int) =~= Seq::<u8>::empty());
        assert(out@ + Seq::<u32>::empty() =~= out@);
    }
    Ok(out)
}

proof fn lemma_group_len_stop(s: Seq<u8>)
    ensures
        group_len(s) <= s.len(),
        group_len(s) < s.len() ==> s[group_len(s) as int] < 128,
        forall|m: int| 0 <= m < group_len(s) ==> s[m] >= 128,
    decreases s.len(),
{
    if s.len() > 0 && s[0] >= 128 {
        lemma_group_len_stop(s.drop_first());
        assert forall|m: int| 0 <= m < group_len(s) implies s[m] >= 128 by {
            if m > 0 {
                assert(s[m] == s.drop_first()[m - 1]);
            }
        }
    }
}

/// A stream whose last byte still has the continuation bit set decodes to
/// nothing: it ends inside a group.
pub proof fn lemma_truncated_stream_fails(s: Seq<u8>)
    requires
        s.len() > 0,
        s.last() >= 128,
    ensures
        decode_stream(s) is None,
    decreases s.len(),
{
    let g = group_len(s);
    lemma_group_len_stop(s);
    if g < s.len() && g < 5 && group_value(s, g + 1) <= u32::MAX {
        let rest = s.subrange((g + 1) as int, s.len() as int);
        assert(g + 1 < s.len());
        assert(rest.last() == s.last());
        lemma_truncated_stream_fails(rest);
    }
}

} // verus!
