//! Decimal text of integers, as ASCII bytes and as strings.
use vstd::prelude::*;
use vstd::utf8::{valid_utf8, decode_utf8};
use crate::le_io::string_from_utf8;

verus! {

/// Decimal digits of `n`, most significant first.
pub open spec fn digits(n: nat) -> Seq<u8>
    decreases n,
{
    if n < 10 {
        seq![(48 + n) as u8]
    } else {
        digits(n / 10).push((48 + n % 10) as u8)
    }
}

/// Decimal text of `v`, with a leading `-` when negative.
pub open spec fn int_text(v: int) -> Seq<u8> {
    if v < 0 {
        seq![45u8] + digits((-v) as nat)
    } else {
        digits(v as nat)
    }
}

/// Every byte is ASCII.
pub open spec fn all_ascii(b: Seq<u8>) -> bool {
    forall|i: int| 0 <= i < b.len() ==> #[trigger] b[i] < 128
}

proof fn lemma_digits_ascii(n: nat)
    ensures
        all_ascii(digits(n)),
        digits(n).len() >= 1,
    decreases n,
{
    if n >= 10 {
        lemma_digits_ascii(n / 10);
    }
}

pub proof fn lemma_ascii_valid(b: Seq<u8>)
    requires
        all_ascii(b),
    ensures
        valid_utf8(b),
    decreases b.len(),
{
    if b.len() > 0 {
        assert(b[0] < 128);
        assert(vstd::utf8::is_leading_byte_width_1(b[0]));
        let rest = b.subrange(1, b.len() as int);
        assert(vstd::utf8::length_of_first_codepoint(b) == 1);
        assert(vstd::utf8::pop_first_scalar(b) =~= rest);
        lemma_ascii_valid(rest);
    }
}

fn push_digits(out: &mut Vec<u8>, n: u64)
    ensures
        final(out)@ == old(out)@ + digits(n as nat),
    decreases n,
{
    if n >= 10 {
        push_digits(out, n / 10);
    }
    out.push((48 + n % 10) as u8);
    proof {
        if n >= 10 {
            assert(out@ =~= old(out)@ + digits(n as nat));
        } else {
            assert(out@ =~= old(out)@ + digits(n as nat));
        }
    }
}

/// Appends the decimal text of `v`.
pub fn push_int_text(out: &mut Vec<u8>, v: i32)
    ensures
        final(out)@ == old(out)@ + int_text(v as int),
{
    if v < 0 {
        out.push(45);
        let m: u64 = (-(v as i64)) as u64;
        push_digits(out, m);
        proof {
            assert(out@ =~= old(out)@ + int_text(v as int));
        }
    } else {
        push_digits(out, v as u64);
    }
}

/// The string of ASCII bytes.
pub fn ascii_string(b: Vec<u8>) -> (r: String)
    requires
        all_ascii(b@),
    ensures
        r@ == decode_utf8(b@),
{
    proof {
        lemma_ascii_valid(b@);
    }
    match string_from_utf8(b) {
        Some(s) => s,
        None => String::new(),
    }
}

/// Three integers as decimal text joined by commas.
pub open spec fn triple_text(a: int, b: int, c: int) -> Seq<u8> {
    int_text(a) + seq![44u8] + int_text(b) + seq![44u8] + int_text(c)
}

pub proof fn lemma_int_text_ascii(v: int)
    ensures
        all_ascii(int_text(v)),
{
    if v < 0 {
        lemma_digits_ascii((-v) as nat);
        assert forall|i: int| 0 <= i < int_text(v).len() implies #[trigger] int_text(v)[i] < 128 by {
            if i > 0 {
                assert(int_text(v)[i] == digits((-v) as nat)[i - 1]);
            }
        }
    } else {
        lemma_digits_ascii(v as nat);
    }
}

/// `"a,b,c"` in decimal.
pub fn triple_string(a: i32, b: i32, c: i32) -> (r: String)
    ensures
        r@ == decode_utf8(triple_text(a as int, b as int, c as int)),
{
    let mut out: Vec<u8> = Vec::new();
    push_int_text(&mut out, a);
    out.push(44);
    push_int_text(&mut out, b);
    out.push(44);
    push_int_text(&mut out, c);
    proof {
        assert(out@ =~= triple_text(a as int, b as int, c as int));
        lemma_int_text_ascii(a as int);
        lemma_int_text_ascii(b as int);
        lemma_int_text_ascii(c as int);
        let t = triple_text(a as int, b as int, c as int);
        let ta = int_text(a as int);
        let tb = int_text(b as int);
        assert forall|i: int| 0 <= i < t.len() implies #[trigger] t[i] < 128 by {
            if i < ta.len() {
                assert(t[i] == ta[i]);
            } else if i == ta.len() {
            } else if i < ta.len() + 1 + tb.len() {
                assert(t[i] == tb[i - ta.len() - 1]);
            } else if i == ta.len() + 1 + tb.len() {
            } else {
                assert(t[i] == int_text(c as int)[i - ta.len() - 2 - tb.len()]);
            }
        }
    }
    ascii_string(out)
}

} // verus!
