//! The Base64 transform pair: the encoder and decoder over byte buffers,
//! their mathematical models, and the laws relating them.

use crate::alphabet::{char_of, forward, index_of, reverse, PAD};
use vstd::prelude::*;

verus! {

/// 24-bit big-endian packing of three bytes.
pub open spec fn pack3(b0: u8, b1: u8, b2: u8) -> u32 {
    ((b0 as u32) << 16) | ((b1 as u32) << 8) | (b2 as u32)
}

/// 24-bit packing of four 6-bit values.
pub open spec fn pack4(i0: u8, i1: u8, i2: u8, i3: u8) -> u32 {
    ((i0 as u32) << 18) | ((i1 as u32) << 12) | ((i2 as u32) << 6) | (i3 as u32)
}

/// The `k`-th 6-bit slice of a 24-bit group value, most significant first.
pub open spec fn slice6(m: u32, k: u32) -> u8
    recommends
        k < 4,
{
    ((m >> ((18 - 6 * k) as u32)) & 63) as u8
}

/// The `k`-th byte of a 24-bit group value, most significant first.
pub open spec fn slice8(m: u32, k: u32) -> u8
    recommends
        k < 3,
{
    ((m >> ((16 - 8 * k) as u32)) & 255) as u8
}

/// Standard Base64 encoding of a byte sequence: groups of three bytes
/// become four alphabet characters; a final group of one or two bytes
/// becomes two or three characters followed by `=` padding.
pub open spec fn encode_spec(b: Seq<u8>) -> Seq<u8>
    decreases b.len(),
{
    if b.len() == 0 {
        Seq::empty()
    } else if b.len() == 1 {
        let m = pack3(b[0], 0, 0);
        seq![char_of(slice6(m, 0)), char_of(slice6(m, 1)), PAD, PAD]
    } else if b.len() == 2 {
        let m = pack3(b[0], b[1], 0);
        seq![char_of(slice6(m, 0)), char_of(slice6(m, 1)), char_of(slice6(m, 2)), PAD]
    } else {
        let m = pack3(b[0], b[1], b[2]);
        seq![
            char_of(slice6(m, 0)),
            char_of(slice6(m, 1)),
            char_of(slice6(m, 2)),
            char_of(slice6(m, 3)),
        ] + encode_spec(b.skip(3))
    }
}

/// The group pass of decoding: each run of up to four characters yields
/// three bytes, missing characters counting as index 0.
pub open spec fn decode_groups(e: Seq<u8>) -> Seq<u8>
    decreases e.len(),
{
    if e.len() == 0 {
        Seq::empty()
    } else {
        let i0 = index_of(e[0]);
        let i1 = if e.len() >= 2 {
            index_of(e[1])
        } else {
            0
        };
        let i2 = if e.len() >= 3 {
            index_of(e[2])
        } else {
            0
        };
        let i3 = if e.len() >= 4 {
            index_of(e[3])
        } else {
            0
        };
        let m = pack4(i0, i1, i2, i3);
        seq![slice8(m, 0), slice8(m, 1), slice8(m, 2)] + decode_groups(
            e.skip(
                if e.len() >= 4 {
                    4
                } else {
                    e.len() as int
                },
            ),
        )
    }
}

/// Length of the run of `=` bytes at the end of `e`.
pub open spec fn pad_len(e: Seq<u8>) -> nat
    decreases e.len(),
{
    if e.len() == 0 || e.last() != PAD {
        0
    } else {
        1 + pad_len(e.drop_last())
    }
}

/// Standard Base64 decoding: the group pass, then as many bytes cut off
/// the end as the input has trailing padding characters.
pub open spec fn decode_spec(e: Seq<u8>) -> Seq<u8> {
    let d = decode_groups(e);
    d.take(d.len() - pad_len(e))
}

proof fn lemma_slice6_bound(m: u32)
    by (bit_vector)
    ensures
        slice6(m, 0) == ((m >> 18) & 63) as u8,
        slice6(m, 1) == ((m >> 12) & 63) as u8,
        slice6(m, 2) == ((m >> 6) & 63) as u8,
        slice6(m, 3) == (m & 63) as u8,
        slice6(m, 0) < 64,
        slice6(m, 1) < 64,
        slice6(m, 2) < 64,
        slice6(m, 3) < 64,
{
}

/// Base64-encode a byte buffer.
pub fn encode(input: Vec<u8>) -> (r: Vec<u8>)
    ensures
        r@ == encode_spec(input@),
{
    let mut out: Vec<u8> = Vec::new();
    let mut i: usize = 0;
    proof {
        assert(input@.skip(0) =~= input@);
        assert(out@ + encode_spec(input@) =~= encode_spec(input@));
    }
    while i < input.len()
        invariant
            i <= input.len(),
            encode_spec(input@) == out@ + encode_spec(input@.skip(i as int)),
        decreases input.len() - i,
    {
        let ghost pre = out@;
        let ghost tail = input@.skip(i as int);
        let rem = input.len() - i;
        let b0 = input[i];
        let b1: u8 = if rem >= 2 {
            input[i + 1]
        } else {
            0
        };
        let b2: u8 = if rem >= 3 {
            input[i + 2]
        } else {
            0
        };
        let m: u32 = ((b0 as u32) << 16) | ((b1 as u32) << 8) | (b2 as u32);
        proof {
            lemma_slice6_bound(m);
            assert(m == pack3(tail[0], if tail.len() >= 2 {
                tail[1]
            } else {
                0
            }, if tail.len() >= 3 {
                tail[2]
            } else {
                0
            }));
        }
        out.push(forward(((m >> 18) & 63) as u8));
        out.push(forward(((m >> 12) & 63) as u8));
        if rem == 1 {
            out.push(PAD);
            out.push(PAD);
            proof {
                assert(out@ =~= pre + encode_spec(tail));
            }
            i = input.len();
        } else {
            out.push(forward(((m >> 6) & 63) as u8));
            if rem == 2 {
                out.push(PAD);
                proof {
                    assert(out@ =~= pre + encode_spec(tail));
                }
                i = input.len();
            } else {
                out.push(forward((m & 63) as u8));
                proof {
                    assert(tail.skip(3) =~= input@.skip(i + 3));
                    assert(out@ =~= pre + seq![
                        char_of(slice6(m, 0)),
                        char_of(slice6(m, 1)),
                        char_of(slice6(m, 2)),
                        char_of(slice6(m, 3)),
                    ]);
                    assert(pre + encode_spec(tail) =~= out@ + encode_spec(input@.skip(i + 3)));
                }
                i = i + 3;
            }
        }
    }
    proof {
        assert(input@.skip(input@.len() as int) =~= Seq::<u8>::empty());
        assert(out@ + Seq::<u8>::empty() =~= out@);
    }
    out
}

proof fn lemma_slice8_vals(m: u32)
    by (bit_vector)
    ensures
        slice8(m, 0) == ((m >> 16) & 255) as u8,
        slice8(m, 1) == ((m >> 8) & 255) as u8,
        slice8(m, 2) == (m & 255) as u8,
{
}

/// The group pass yields three bytes for every started group of four
/// characters.
pub proof fn lemma_decode_groups_len(e: Seq<u8>)
    ensures
        decode_groups(e).len() == 3 * ((e.len() + 3) / 4),
    decreases e.len(),
{
    if e.len() == 0 {
    } else if e.len() >= 4 {
        lemma_decode_groups_len(e.skip(4));
        assert((e.len() + 3) / 4 == (e.len() - 4 + 3) / 4 + 1) by (nonlinear_arith)
            requires
                e.len() >= 4,
        ;
    } else {
        lemma_decode_groups_len(e.skip(e.len() as int));
        assert(e.skip(e.len() as int) =~= Seq::<u8>::empty());
        assert((e.len() + 3) / 4 == 1) by (nonlinear_arith)
            requires
                1 <= e.len() <= 3,
        ;
    }
}

/// Base64-decode a byte buffer. The one input shape ruled out is more
/// trailing `=` bytes than the group pass yields, on which no decoding
/// is defined.
pub fn decode(encoded: Vec<u8>) -> (r: Vec<u8>)
    requires
        pad_len(encoded@) <= 3 * ((encoded@.len() + 3) / 4),
    ensures
        r@ == decode_spec(encoded@),
{
    let mut out: Vec<u8> = Vec::new();
    let mut i: usize = 0;
    proof {
        assert(encoded@.skip(0) =~= encoded@);
        assert(out@ + decode_groups(encoded@) =~= decode_groups(encoded@));
    }
    while i < encoded.len()
        invariant
            i <= encoded.len(),
            decode_groups(encoded@) == out@ + decode_groups(encoded@.skip(i as int)),
        decreases encoded.len() - i,
    {
        let ghost pre = out@;
        let ghost tail = encoded@.skip(i as int);
        let rem = encoded.len() - i;
        let i0 = reverse(encoded[i]);
        let i1: u8 = if rem >= 2 {
            reverse(encoded[i + 1])
        } else {
            0
        };
        let i2: u8 = if rem >= 3 {
            reverse(encoded[i + 2])
        } else {
            0
        };
        let i3: u8 = if rem >= 4 {
            reverse(encoded[i + 3])
        } else {
            0
        };
        let m: u32 = ((i0 as u32) << 18) | ((i1 as u32) << 12) | ((i2 as u32) << 6) | (i3 as u32);
        proof {
            lemma_slice8_vals(m);
            assert(m == pack4(index_of(tail[0]), if tail.len() >= 2 {
                index_of(tail[1])
            } else {
                0
            }, if tail.len() >= 3 {
                index_of(tail[2])
            } else {
                0
            }, if tail.len() >= 4 {
                index_of(tail[3])
            } else {
                0
            }));
        }
        out.push(((m >> 16) & 255) as u8);
        out.push(((m >> 8) & 255) as u8);
        out.push((m & 255) as u8);
        proof {
            assert(out@ =~= pre + seq![slice8(m, 0), slice8(m, 1), slice8(m, 2)]);
        }
        if rem >= 4 {
            proof {
                assert(tail.skip(4) =~= encoded@.skip(i + 4));
                assert(pre + decode_groups(tail) =~= out@ + decode_groups(encoded@.skip(i + 4)));
            }
            i = i + 4;
        } else {
            proof {
                assert(tail.skip(tail.len() as int) =~= Seq::<u8>::empty());
                assert(encoded@.skip(encoded@.len() as int) =~= Seq::<u8>::empty());
                assert(seq![slice8(m, 0), slice8(m, 1), slice8(m, 2)] + Seq::<u8>::empty() =~= seq![
                    slice8(m, 0),
                    slice8(m, 1),
                    slice8(m, 2),
                ]);
                assert(pre + decode_groups(tail) =~= out@ + decode_groups(
                    encoded@.skip(encoded@.len() as int),
                ));
            }
            i = encoded.len();
        }
    }
    proof {
        assert(encoded@.skip(encoded@.len() as int) =~= Seq::<u8>::empty());
        assert(out@ + Seq::<u8>::empty() =~= out@);
        lemma_decode_groups_len(encoded@);
    }
    let mut pad: usize = 0;
    let mut j: usize = encoded.len();
    proof {
        assert(encoded@.take(encoded@.len() as int) =~= encoded@);
    }
    while j > 0 && encoded[j - 1] == PAD
        invariant
            j <= encoded.len(),
            pad + j == encoded.len(),
            pad_len(encoded@) == pad + pad_len(encoded@.take(j as int)),
        decreases j,
    {
        proof {
            assert(encoded@.take(j as int).last() == encoded@[j - 1]);
            assert(encoded@.take(j as int).drop_last() =~= encoded@.take(j - 1));
        }
        j = j - 1;
        pad = pad + 1;
    }
    proof {
        if j == 0 {
            assert(encoded@.take(0) =~= Seq::<u8>::empty());
        } else {
            assert(encoded@.take(j as int).last() == encoded@[j - 1]);
        }
        assert(pad == pad_len(encoded@));
    }
    let n = out.len() - pad;
    out.truncate(n);
    proof {
        assert(out@ =~= decode_spec(encoded@));
    }
    out
}

/// Number of `=` characters that encoding a buffer of length `n` appends.
spec fn pad_count(n: int) -> int {
    (3 - n % 3) % 3
}

spec fn zeros(n: int) -> Seq<u8> {
    Seq::new(n as nat, |k: int| 0u8)
}

proof fn lemma_pad_len_concat(a: Seq<u8>, s: Seq<u8>)
    requires
        pad_len(s) < s.len(),
    ensures
        pad_len(a + s) == pad_len(s),
    decreases s.len(),
{
    let t = a + s;
    assert(t.last() == s.last());
    if s.last() == PAD {
        assert(t.drop_last() =~= a + s.drop_last());
        lemma_pad_len_concat(a, s.drop_last());
    }
}

proof fn lemma_group1_roundtrip(b0: u8)
    by (bit_vector)
    ensures
        ({
            let m = pack3(b0, 0, 0);
            let m2 = pack4(slice6(m, 0), slice6(m, 1), 0, 0);
            slice8(m2, 0) == b0 && slice8(m2, 1) == 0 && slice8(m2, 2) == 0
        }),
{
}

proof fn lemma_group2_roundtrip(b0: u8, b1: u8)
    by (bit_vector)
    ensures
        ({
            let m = pack3(b0, b1, 0);
            let m2 = pack4(slice6(m, 0), slice6(m, 1), slice6(m, 2), 0);
            slice8(m2, 0) == b0 && slice8(m2, 1) == b1 && slice8(m2, 2) == 0
        }),
{
}

proof fn lemma_group3_roundtrip(b0: u8, b1: u8, b2: u8)
    by (bit_vector)
    ensures
        ({
            let m = pack3(b0, b1, b2);
            let m2 = pack4(slice6(m, 0), slice6(m, 1), slice6(m, 2), slice6(m, 3));
            slice8(m2, 0) == b0 && slice8(m2, 1) == b1 && slice8(m2, 2) == b2
        }),
{
}

proof fn lemma_encode_decode(b: Seq<u8>)
    ensures
        encode_spec(b).len() == 4 * ((b.len() + 2) / 3),
        pad_len(encode_spec(b)) == pad_count(b.len() as int),
        decode_groups(encode_spec(b)) == b + zeros(pad_count(b.len() as int)),
    decreases b.len(),
{
    let e = encode_spec(b);
    if b.len() == 0 {
        assert(b + zeros(0) =~= Seq::<u8>::empty());
    } else if b.len() == 1 {
        let m = pack3(b[0], 0, 0);
        lemma_slice6_bound(m);
        crate::alphabet::lemma_index_of_char(slice6(m, 0));
        crate::alphabet::lemma_index_of_char(slice6(m, 1));
        let c0 = char_of(slice6(m, 0));
        let c1 = char_of(slice6(m, 1));
        assert(e == seq![c0, c1, PAD, PAD]);
        assert(pad_len(seq![c0, c1]) == 0);
        assert(seq![c0, c1, PAD].drop_last() =~= seq![c0, c1]);
        assert(pad_len(seq![c0, c1, PAD]) == 1);
        assert(seq![c0, c1, PAD, PAD].drop_last() =~= seq![c0, c1, PAD]);
        assert(pad_len(seq![c0, c1, PAD, PAD]) == 2);
        assert(pad_len(e) == 2);
        let m2 = pack4(slice6(m, 0), slice6(m, 1), 0, 0);
        lemma_group1_roundtrip(b[0]);
        assert(e.skip(4) =~= Seq::<u8>::empty());
        assert(decode_groups(e) == seq![slice8(m2, 0), slice8(m2, 1), slice8(m2, 2)]
            + decode_groups(e.skip(4)));
        assert(decode_groups(e) =~= b + zeros(2));
    } else if b.len() == 2 {
        let m = pack3(b[0], b[1], 0);
        lemma_slice6_bound(m);
        crate::alphabet::lemma_index_of_char(slice6(m, 0));
        crate::alphabet::lemma_index_of_char(slice6(m, 1));
        crate::alphabet::lemma_index_of_char(slice6(m, 2));
        let c0 = char_of(slice6(m, 0));
        let c1 = char_of(slice6(m, 1));
        let c2 = char_of(slice6(m, 2));
        assert(e == seq![c0, c1, c2, PAD]);
        assert(pad_len(seq![c0, c1, c2]) == 0);
        assert(seq![c0, c1, c2, PAD].drop_last() =~= seq![c0, c1, c2]);
        assert(pad_len(seq![c0, c1, c2, PAD]) == 1);
        assert(pad_len(e) == 1);
        let m2 = pack4(slice6(m, 0), slice6(m, 1), slice6(m, 2), 0);
        lemma_group2_roundtrip(b[0], b[1]);
        assert(e.skip(4) =~= Seq::<u8>::empty());
        assert(decode_groups(e) == seq![slice8(m2, 0), slice8(m2, 1), slice8(m2, 2)]
            + decode_groups(e.skip(4)));
        assert(decode_groups(e) =~= b + zeros(1));
    } else {
        let m = pack3(b[0], b[1], b[2]);
        lemma_slice6_bound(m);
        crate::alphabet::lemma_index_of_char(slice6(m, 0));
        crate::alphabet::lemma_index_of_char(slice6(m, 1));
        crate::alphabet::lemma_index_of_char(slice6(m, 2));
        crate::alphabet::lemma_index_of_char(slice6(m, 3));
        let c0 = char_of(slice6(m, 0));
        let c1 = char_of(slice6(m, 1));
        let c2 = char_of(slice6(m, 2));
        let c3 = char_of(slice6(m, 3));
        let g = seq![c0, c1, c2, c3];
        let tail = encode_spec(b.skip(3));
        assert(e == g + tail);
        lemma_encode_decode(b.skip(3));
        let n = b.len() as int;
        assert(b.skip(3).len() == n - 3);
        assert((n + 2) / 3 == (n - 3 + 2) / 3 + 1) by (nonlinear_arith)
            requires
                n >= 3,
        ;
        assert((3 - n % 3) % 3 == (3 - (n - 3) % 3) % 3) by (nonlinear_arith)
            requires
                n >= 3,
        ;
        if b.len() == 3 {
            assert(b.skip(3) =~= Seq::<u8>::empty());
            assert(tail =~= Seq::<u8>::empty());
            assert(e =~= g);
            assert(g.last() == c3 && c3 != PAD);
            assert(pad_len(e) == 0);
        } else {
            assert(tail.len() >= 4);
            assert(0 <= pad_count(n - 3) < 3);
            lemma_pad_len_concat(g, tail);
            assert(pad_len(e) == pad_len(tail));
        }
        let m2 = pack4(slice6(m, 0), slice6(m, 1), slice6(m, 2), slice6(m, 3));
        lemma_group3_roundtrip(b[0], b[1], b[2]);
        assert(e.len() >= 4);
        assert(e[0] == c0 && e[1] == c1 && e[2] == c2 && e[3] == c3);
        assert(e.skip(4) =~= tail);
        assert(decode_groups(e) == seq![slice8(m2, 0), slice8(m2, 1), slice8(m2, 2)]
            + decode_groups(tail));
        assert(decode_groups(e) =~= b + zeros(pad_count(n)));
    }
}

/// Round-trip law: decoding any encoder output returns the original
/// byte sequence exactly.
pub proof fn lemma_round_trip(b: Seq<u8>)
    ensures
        decode_spec(encode_spec(b)) == b,
{
    lemma_encode_decode(b);
    let e = encode_spec(b);
    let d = decode_groups(e);
    assert(d.take(d.len() - pad_len(e)) =~= b);
}

/// Length law: encoder output always has a length that is a multiple of
/// four, namely four characters for every started group of three bytes.
pub proof fn lemma_encode_length(b: Seq<u8>)
    ensures
        encode_spec(b).len() == 4 * ((b.len() + 2) / 3),
        encode_spec(b).len() % 4 == 0,
{
    lemma_encode_decode(b);
}

/// Padding law: encoder output ends with exactly `(3 - n % 3) % 3`
/// padding characters for an input of length `n`.
pub proof fn lemma_encode_padding(b: Seq<u8>)
    ensures
        pad_len(encode_spec(b)) == (3 - b.len() % 3) % 3,
{
    lemma_encode_decode(b);
}

/// Empty law: the empty buffer encodes and decodes to itself.
pub proof fn lemma_empty()
    ensures
        encode_spec(Seq::<u8>::empty()) == Seq::<u8>::empty(),
        decode_spec(Seq::<u8>::empty()) == Seq::<u8>::empty(),
{
    assert(decode_spec(Seq::<u8>::empty()) =~= Seq::<u8>::empty());
}

} // verus!
