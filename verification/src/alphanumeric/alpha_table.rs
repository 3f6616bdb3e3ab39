//! The radix classes of the alphanumeric trie: digits, then upper case
//! letters, then lower case letters, 62 classes in the order of their bytes.

use vstd::prelude::*;

verus! {

/// The number of classes: ten digits and twice 26 letters.
pub const ALPHABET_SIZE: usize = 62;

/// The number of entries of the index table: one for each ASCII byte but the
/// last.
pub const TABLE_SIZE: usize = 127;

/// What the index table holds for a byte that is no digit and no letter.
pub const NOT_ALPHANUMERIC: usize = 255;

/// The class of each byte below `TABLE_SIZE`, or `NOT_ALPHANUMERIC`.
pub const ALPHANUMERIC_INDEX_TABLE: [usize; 127] = [
    255, 255, 255, 255, 255, 255, 255, 255, 255, 255, 255, 255, 255, 255, 255, 255,
    255, 255, 255, 255, 255, 255, 255, 255, 255, 255, 255, 255, 255, 255, 255, 255,
    255, 255, 255, 255, 255, 255, 255, 255, 255, 255, 255, 255, 255, 255, 255, 255,
    0, 1, 2, 3, 4, 5, 6, 7, 8, 9, 255, 255, 255, 255, 255, 255,
    255, 10, 11, 12, 13, 14, 15, 16, 17, 18, 19, 20, 21, 22, 23, 24,
    25, 26, 27, 28, 29, 30, 31, 32, 33, 34, 35, 255, 255, 255, 255, 255,
    255, 36, 37, 38, 39, 40, 41, 42, 43, 44, 45, 46, 47, 48, 49, 50,
    51, 52, 53, 54, 55, 56, 57, 58, 59, 60, 61, 255, 255, 255, 255,
];

/// `c` is the byte of an ASCII digit or letter.
pub open spec fn is_alphanumeric(c: int) -> bool {
    48 <= c <= 57 || 65 <= c <= 90 || 97 <= c <= 122
}

/// The class of the digit or letter `c`: digits come first, then upper case,
/// then lower case.
pub open spec fn alpha_index(c: int) -> int {
    if c <= 57 {
        c - 48
    } else if c <= 90 {
        c - 65 + 10
    } else {
        c - 97 + 10 + 26
    }
}

/// The byte of the digit or letter of class `index`.
pub open spec fn alpha_byte(index: int) -> int {
    if index < 10 {
        index + 48
    } else if index < 36 {
        index - 10 + 65
    } else {
        index - 36 + 97
    }
}

/// What the index table says of `c`.
pub open spec fn table_entry(c: int) -> int {
    if is_alphanumeric(c) {
        alpha_index(c)
    } else {
        NOT_ALPHANUMERIC as int
    }
}

/// Classes and bytes correspond one to one, in the same order.
pub proof fn lemma_classes_follow_bytes(a: int, b: int)
    requires
        is_alphanumeric(a),
        is_alphanumeric(b),
    ensures
        0 <= alpha_index(a) < ALPHABET_SIZE,
        alpha_byte(alpha_index(a)) == a,
        a < b <==> alpha_index(a) < alpha_index(b),
{
}

/// The class of the digit or letter `c`, by its place among the digits, the
/// upper case letters or the lower case letters.
pub fn precompute_index(c: u8) -> (index: usize)
    requires
        is_alphanumeric(c as int),
    ensures
        index == alpha_index(c as int),
{
    if c < 65 {
        (c - 48) as usize
    } else if c < 97 {
        (c - 65) as usize + 10
    } else {
        (c - 97) as usize + 10 + 26
    }
}

/// Computes the index table: the class of each digit and letter, and
/// `NOT_ALPHANUMERIC` for every other byte.
pub fn make_alpha_table() -> (table: [usize; 127])
    ensures
        table@ == ALPHANUMERIC_INDEX_TABLE@,
        forall|c: int| 0 <= c < TABLE_SIZE ==> #[trigger] table@[c] == table_entry(c),
{
    let mut out: [usize; 127] = [NOT_ALPHANUMERIC;127];
    let mut i: u8 = 0;
    while i < 127
        invariant
            i <= 127,
            forall|c: int| 0 <= c < i ==> #[trigger] out@[c] == table_entry(c),
            forall|c: int| i <= c < TABLE_SIZE ==> #[trigger] out@[c] == NOT_ALPHANUMERIC,
        decreases 127 - i,
    {
        if (48 <= i && i <= 57) || (65 <= i && i <= 90) || (97 <= i && i <= 122) {
            out[i as usize] = precompute_index(i);
        }
        i += 1;
    }
    proof {
        assert forall|c: int| 0 <= c < TABLE_SIZE implies out@[c] == ALPHANUMERIC_INDEX_TABLE@[c] by {
            assert(out@[c] == table_entry(c));
        }
        assert(out@ =~= ALPHANUMERIC_INDEX_TABLE@);
    }
    out
}

/// The class of `c`, or `NOT_ALPHANUMERIC` if `c` is no digit and no letter.
pub fn lookup_alpha_index(c: u8) -> (index: usize)
    ensures
        index == table_entry(c as int),
{
    if (c as usize) < TABLE_SIZE {
        ALPHANUMERIC_INDEX_TABLE[c as usize]
    } else {
        NOT_ALPHANUMERIC
    }
}

} // verus!
