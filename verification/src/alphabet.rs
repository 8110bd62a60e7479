//! The Base64 alphabet: the bijection between 6-bit values and the 64
//! characters `A-Z a-z 0-9 + /`, in both directions, as plain lookup
//! functions and as hash-map tables.

use std::collections::HashMap;
use vstd::prelude::*;

verus! {

broadcast use vstd::std_specs::hash::group_hash_axioms;

/// The padding byte `=`.
pub const PAD: u8 = 61;

/// Character standing at index `i` of the Base64 alphabet.
pub open spec fn char_of(i: u8) -> u8
    recommends
        i < 64,
{
    if i < 26 {
        (65 + i) as u8  // 'A'..='Z'
    } else if i < 52 {
        (97 + (i - 26)) as u8  // 'a'..='z'
    } else if i < 62 {
        (48 + (i - 52)) as u8  // '0'..='9'
    } else if i == 62 {
        43  // '+'
    } else {
        47  // '/'
    }
}

/// Whether `c` is one of the 64 alphabet characters.
pub open spec fn in_alphabet(c: u8) -> bool {
    (65 <= c <= 90) || (97 <= c <= 122) || (48 <= c <= 57) || c == 43 || c == 47
}

/// 6-bit index of `c`; any byte outside the alphabet (padding included)
/// resolves to 0, the decoder's deliberate leniency.
pub open spec fn index_of(c: u8) -> u8 {
    if 65 <= c <= 90 {
        (c - 65) as u8
    } else if 97 <= c <= 122 {
        (26 + (c - 97)) as u8
    } else if 48 <= c <= 57 {
        (52 + (c - 48)) as u8
    } else if c == 43 {
        62
    } else if c == 47 {
        63
    } else {
        0
    }
}

/// Forward lookup: the character for a 6-bit value.
pub fn forward(i: u8) -> (c: u8)
    requires
        i < 64,
    ensures
        c == char_of(i),
        in_alphabet(c),
{
    if i < 26 {
        65 + i
    } else if i < 52 {
        97 + (i - 26)
    } else if i < 62 {
        48 + (i - 52)
    } else if i == 62 {
        43
    } else {
        47
    }
}

/// Reverse lookup: the 6-bit value of a character; bytes outside the
/// alphabet map to 0.
pub fn reverse(c: u8) -> (i: u8)
    ensures
        i == index_of(c),
        i < 64,
{
    if 65 <= c && c <= 90 {
        c - 65
    } else if 97 <= c && c <= 122 {
        26 + (c - 97)
    } else if 48 <= c && c <= 57 {
        52 + (c - 48)
    } else if c == 43 {
        62
    } else if c == 47 {
        63
    } else {
        0
    }
}

/// The forward table: a map from each 6-bit value to its alphabet
/// character, and nothing else.
pub fn create_table() -> (t: HashMap<u8, u8>)
    ensures
        forall|i: u8| i < 64 ==> t@.contains_key(i) && t@[i] == char_of(i),
        forall|k: u8| t@.contains_key(k) ==> k < 64,
{
    let mut t: HashMap<u8, u8> = HashMap::new();
    let mut i: u8 = 0;
    while i < 64
        invariant
            i <= 64,
            forall|j: u8| j < i ==> #[trigger] t@.contains_key(j) && t@[j] == char_of(j),
            forall|k: u8| #[trigger] t@.contains_key(k) ==> k < i,
        decreases 64 - i,
    {
        let c = forward(i);
        t.insert(i, c);
        i = i + 1;
    }
    t
}

/// The reverse table: a map from each alphabet character to its 6-bit
/// value, and nothing else.
pub fn create_reversed_table() -> (t: HashMap<u8, u8>)
    ensures
        forall|c: u8| in_alphabet(c) ==> t@.contains_key(c) && t@[c] == index_of(c),
        forall|k: u8| t@.contains_key(k) ==> in_alphabet(k),
{
    let mut t: HashMap<u8, u8> = HashMap::new();
    let mut i: u8 = 0;
    while i < 64
        invariant
            i <= 64,
            forall|c: u8|
                in_alphabet(c) && index_of(c) < i ==> t@.contains_key(c) && t@[c] == index_of(c),
            forall|k: u8| t@.contains_key(k) ==> in_alphabet(k) && index_of(k) < i,
        decreases 64 - i,
    {
        let c = forward(i);
        t.insert(c, i);
        proof {
            lemma_index_of_char(i);
            assert forall|d: u8| in_alphabet(d) && index_of(d) < i + 1 implies t@.contains_key(d)
                && t@[d] == index_of(d) by {
                if index_of(d) == i {
                    lemma_alphabet_bijection(d);
                }
            }
        }
        i = i + 1;
    }
    t
}

/// The alphabet is a bijection: going back through the forward map
/// returns every legal character to itself.
pub proof fn lemma_alphabet_bijection(c: u8)
    requires
        in_alphabet(c),
    ensures
        char_of(index_of(c)) == c,
        index_of(c) < 64,
{
}

/// The other direction of the bijection: every 6-bit value returns to
/// itself through the reverse map, and its character is never padding.
pub proof fn lemma_index_of_char(i: u8)
    requires
        i < 64,
    ensures
        index_of(char_of(i)) == i,
        in_alphabet(char_of(i)),
        char_of(i) != PAD,
{
}

} // verus!
