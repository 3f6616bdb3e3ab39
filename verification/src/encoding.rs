//! UTF-8 keeps the order of code points: texts stand in the lexicographic
//! order of their characters just when their encodings stand in the
//! lexicographic order of their bytes.

use vstd::prelude::*;
use vstd::utf8::{encode_scalar, encode_utf8, is_scalar};
use vstd::utf8::{has_width_1_encoding, has_width_2_encoding, has_width_3_encoding};
use vstd::utf8::{has_width_4_encoding, last_continuation_byte, leading_byte_width_1};
use vstd::utf8::{leading_byte_width_2, leading_byte_width_3, leading_byte_width_4};
use vstd::utf8::{second_last_continuation_byte, third_last_continuation_byte};
use crate::item::byte_units;
use crate::order::{agree, has_prefix, lex_le, lex_lt, splits_at};
use crate::order::{lemma_le_is_lt_or_equal, lemma_le_total, lemma_lt_irreflexive};
use crate::order::lemma_order_by_remainder;

verus! {

/// The code points of `text`, each as a number.
pub open spec fn code_points(text: Seq<char>) -> Seq<int> {
    Seq::new(text.len(), |i: int| (text[i] as u32) as int)
}

/// The bytes of the encoding of `text`, each as a number.
pub open spec fn encoded(text: Seq<char>) -> Seq<int> {
    byte_units(encode_utf8(text))
}

/// The leading byte of an encoding tells its width: the wider, the greater.
proof fn lemma_leading_bytes(s: u32)
    by (bit_vector)
    ensures
        leading_byte_width_1(s) <= 0x7F,
        0xC0 <= leading_byte_width_2(s) <= 0xDF,
        0xE0 <= leading_byte_width_3(s) <= 0xEF,
        0xF0 <= leading_byte_width_4(s) <= 0xF7,
{
}

/// Of two scalars of one byte the smaller has the smaller byte.
proof fn lemma_width_1_order(a: u32, b: u32)
    by (bit_vector)
    requires
        has_width_1_encoding(a),
        has_width_1_encoding(b),
        a < b,
    ensures
        leading_byte_width_1(a) < leading_byte_width_1(b),
{
}

/// Of two scalars of two bytes the smaller has the smaller byte where their
/// encodings first differ.
proof fn lemma_width_2_order(a: u32, b: u32)
    by (bit_vector)
    requires
        has_width_2_encoding(a),
        has_width_2_encoding(b),
        a < b,
    ensures
        leading_byte_width_2(a) < leading_byte_width_2(b) || (leading_byte_width_2(a)
            == leading_byte_width_2(b) && last_continuation_byte(a) < last_continuation_byte(b)),
{
}

/// Of two scalars of three bytes the smaller has the smaller byte where
/// their encodings first differ.
proof fn lemma_width_3_order(a: u32, b: u32)
    by (bit_vector)
    requires
        0x800 <= a <= 0xFFFF,
        0x800 <= b <= 0xFFFF,
        a < b,
    ensures
        leading_byte_width_3(a) < leading_byte_width_3(b) || (leading_byte_width_3(a)
            == leading_byte_width_3(b) && (second_last_continuation_byte(a)
            < second_last_continuation_byte(b) || (second_last_continuation_byte(a)
            == second_last_continuation_byte(b) && last_continuation_byte(a)
            < last_continuation_byte(b)))),
{
}

/// Of two scalars of four bytes the smaller has the smaller byte where their
/// encodings first differ.
proof fn lemma_width_4_order(a: u32, b: u32)
    by (bit_vector)
    requires
        has_width_4_encoding(a),
        has_width_4_encoding(b),
        a < b,
    ensures
        leading_byte_width_4(a) < leading_byte_width_4(b) || (leading_byte_width_4(a)
            == leading_byte_width_4(b) && (third_last_continuation_byte(a)
            < third_last_continuation_byte(b) || (third_last_continuation_byte(a)
            == third_last_continuation_byte(b) && (second_last_continuation_byte(a)
            < second_last_continuation_byte(b) || (second_last_continuation_byte(a)
            == second_last_continuation_byte(b) && last_continuation_byte(a)
            < last_continuation_byte(b)))))),
{
}

/// The encodings of two scalars differ within both, and where they first
/// differ the smaller scalar has the smaller byte.
proof fn lemma_scalar_order(a: u32, b: u32) -> (at: int)
    requires
        is_scalar(a),
        is_scalar(b),
        a < b,
    ensures
        splits_at(byte_units(encode_scalar(a)), byte_units(encode_scalar(b)), at),
{
    let x = byte_units(encode_scalar(a));
    let y = byte_units(encode_scalar(b));
    lemma_leading_bytes(a);
    lemma_leading_bytes(b);
    if has_width_1_encoding(b) {
        lemma_width_1_order(a, b);
        0
    } else if has_width_1_encoding(a) {
        0
    } else if has_width_2_encoding(b) {
        lemma_width_2_order(a, b);
        if x[0] < y[0] {
            0
        } else {
            1
        }
    } else if has_width_2_encoding(a) {
        0
    } else if has_width_3_encoding(b) {
        lemma_width_3_order(a, b);
        if x[0] < y[0] {
            0
        } else if x[1] < y[1] {
            1
        } else {
            2
        }
    } else if has_width_3_encoding(a) {
        0
    } else {
        lemma_width_4_order(a, b);
        if x[0] < y[0] {
            0
        } else if x[1] < y[1] {
            1
        } else if x[2] < y[2] {
            2
        } else {
            3
        }
    }
}

/// The encoding of a text is the encoding of its first character, followed by
/// the encoding of the rest.
proof fn lemma_encoded_head(text: Seq<char>)
    requires
        text.len() > 0,
    ensures
        encoded(text) == byte_units(encode_scalar(text[0] as u32)) + encoded(text.drop_first()),
        byte_units(encode_scalar(text[0] as u32)).len() > 0,
        code_points(text.drop_first()) == code_points(text).skip(1),
{
    let head = encode_scalar(text[0] as u32);
    let rest = encode_utf8(text.drop_first());
    assert(byte_units(head + rest) =~= byte_units(head) + byte_units(rest));
    assert(code_points(text.drop_first()) =~= code_points(text).skip(1));
}

/// A text that comes strictly before another in the order of code points has
/// an encoding that comes strictly before the other's in the order of bytes.
pub proof fn lemma_encoding_keeps_strict_order(a: Seq<char>, b: Seq<char>)
    requires
        lex_lt(code_points(a), code_points(b)),
    ensures
        lex_lt(encoded(a), encoded(b)),
    decreases a.len(),
{
    let ca = code_points(a);
    let cb = code_points(b);
    if a.len() == 0 {
        assert(b.len() > 0) by {
            if exists|k: int| splits_at(ca, cb, k) {
                let k = choose|k: int| splits_at(ca, cb, k);
            }
        }
        lemma_encoded_head(b);
        assert(encoded(a) =~= Seq::<int>::empty());
        assert(has_prefix(encoded(b), encoded(a)));
    } else {
        assert(b.len() > 0) by {
            if exists|k: int| splits_at(ca, cb, k) {
                let k = choose|k: int| splits_at(ca, cb, k);
            }
        }
        lemma_encoded_head(a);
        lemma_encoded_head(b);
        let ha = byte_units(encode_scalar(a[0] as u32));
        let hb = byte_units(encode_scalar(b[0] as u32));
        let x = encoded(a);
        let y = encoded(b);
        if ca[0] == cb[0] {
            assert(a[0] as u32 == b[0] as u32);
            assert(agree(ca, cb, 1));
            lemma_tails_keep_strict_order(ca, cb, 1);
            lemma_encoding_keeps_strict_order(a.drop_first(), b.drop_first());
            let n = ha.len() as int;
            assert(agree(x, y, n));
            assert(x.skip(n) =~= encoded(a.drop_first()));
            assert(y.skip(n) =~= encoded(b.drop_first()));
            lemma_tails_keep_strict_order(x, y, n);
        } else {
            assert(ca[0] < cb[0]) by {
                if exists|k: int| splits_at(ca, cb, k) {
                    let k = choose|k: int| splits_at(ca, cb, k);
                    if k > 0 {
                        assert(ca[0] == cb[0]);
                    }
                } else {
                    assert(has_prefix(cb, ca));
                    assert(cb[0] == ca[0]);
                }
            }
            vstd::utf8::char_is_scalar(a[0]);
            vstd::utf8::char_is_scalar(b[0]);
            let at = lemma_scalar_order(a[0] as u32, b[0] as u32);
            assert(splits_at(x, y, at)) by {
                assert forall|j: int| 0 <= j < at implies x[j] == y[j] by {
                    assert(ha[j] == hb[j]);
                }
                assert(x[at] == ha[at]);
                assert(y[at] == hb[at]);
            }
        }
    }
}

/// Keys that agree on their first `n` units stand in strict order as their
/// remainders do.
proof fn lemma_tails_keep_strict_order(a: Seq<int>, b: Seq<int>, n: int)
    requires
        agree(a, b, n),
    ensures
        lex_lt(a, b) <==> lex_lt(a.skip(n), b.skip(n)),
{
    lemma_order_by_remainder(a, b, n);
    lemma_le_is_lt_or_equal(a, b);
    lemma_le_is_lt_or_equal(a.skip(n), b.skip(n));
    if a.skip(n) == b.skip(n) {
        assert(a =~= b) by {
            assert(a.len() - n == b.len() - n);
            assert forall|j: int| 0 <= j < a.len() implies a[j] == b[j] by {
                if j >= n {
                    assert(a.skip(n)[j - n] == b.skip(n)[j - n]);
                }
            }
        }
    }
    if a == b {
        assert(a.skip(n) =~= b.skip(n));
    }
}

/// Texts stand in the order of their code points just when their encodings
/// stand in the order of their bytes.
pub proof fn lemma_encoding_keeps_order(a: Seq<char>, b: Seq<char>)
    ensures
        lex_le(code_points(a), code_points(b)) <==> lex_le(encoded(a), encoded(b)),
{
    let ca = code_points(a);
    let cb = code_points(b);
    lemma_le_is_lt_or_equal(ca, cb);
    lemma_le_is_lt_or_equal(cb, ca);
    lemma_le_is_lt_or_equal(encoded(a), encoded(b));
    lemma_le_total(ca, cb);
    if ca == cb {
        assert(a =~= b) by {
            assert(a.len() == ca.len());
            assert(b.len() == cb.len());
            assert forall|i: int| 0 <= i < a.len() implies a[i] == b[i] by {
                assert(ca[i] == cb[i]);
                let u = a[i] as u32;
                vstd::utf8::char_u32_cast(a[i], u);
                vstd::utf8::char_u32_cast(b[i], u);
            }
        }
    } else if lex_lt(ca, cb) {
        lemma_encoding_keeps_strict_order(a, b);
        lemma_lt_irreflexive(ca, cb);
    } else {
        lemma_encoding_keeps_strict_order(b, a);
        lemma_lt_irreflexive(cb, ca);
        lemma_lt_irreflexive(encoded(b), encoded(a));
    }
}

} // verus!
