//! Standard base64 (RFC 4648, with padding, strict decoding), used to turn
//! the query encoding into a filesystem token; proved reversible, and its
//! output shape pinned down far enough for content-addressing.

use vstd::prelude::*;

verus! {

/// The standard alphabet: `A`-`Z`, `a`-`z`, `0`-`9`, `+`, `/`.
pub open spec fn b64_char(x: u8) -> u8 {
    if x < 26 {
        (65 + x) as u8
    } else if x < 52 {
        (71 + x) as u8
    } else if x < 62 {
        (x - 4) as u8
    } else if x == 62 {
        43u8
    } else {
        47u8
    }
}

pub open spec fn b64_inv(b: u8) -> Option<u8> {
    if 65 <= b <= 90 {
        Some((b - 65) as u8)
    } else if 97 <= b <= 122 {
        Some((b - 71) as u8)
    } else if 48 <= b <= 57 {
        Some((b + 4) as u8)
    } else if b == 43 {
        Some(62u8)
    } else if b == 47 {
        Some(63u8)
    } else {
        None
    }
}

proof fn lemma_b64_char_inverse(x: u8)
    requires
        x < 64,
    ensures
        b64_inv(b64_char(x)) == Some(x),
        b64_char(x) != 61,
        x != 63 ==> b64_char(x) != 47,
{
}

/// Base64 with padding: three bytes to four alphabet bytes; one or two final
/// bytes pad with `=`.
pub open spec fn b64_encode(s: Seq<u8>) -> Seq<u8>
    decreases s.len(),
{
    if s.len() == 0 {
        Seq::empty()
    } else if s.len() == 1 {
        let b0 = s[0];
        seq![b64_char(b0 / 4), b64_char(((b0 % 4) * 16) as u8), 61u8, 61u8]
    } else if s.len() == 2 {
        let b0 = s[0];
        let b1 = s[1];
        seq![
            b64_char(b0 / 4),
            b64_char(((b0 % 4) * 16 + b1 / 16) as u8),
            b64_char(((b1 % 16) * 4) as u8),
            61u8,
        ]
    } else {
        let b0 = s[0];
        let b1 = s[1];
        let b2 = s[2];
        seq![
            b64_char(b0 / 4),
            b64_char(((b0 % 4) * 16 + b1 / 16) as u8),
            b64_char(((b1 % 16) * 4 + b2 / 64) as u8),
            b64_char(b2 % 64),
        ] + b64_encode(s.skip(3))
    }
}

/// Strict decoding: length a multiple of four, canonical padding, no byte
/// outside the alphabet, no data after padding.
pub open spec fn b64_decode(s: Seq<u8>) -> Option<Seq<u8>>
    decreases s.len(),
{
    if s.len() == 0 {
        Some(Seq::empty())
    } else if s.len() < 4 {
        None
    } else {
        match (b64_inv(s[0]), b64_inv(s[1])) {
            (Some(c0), Some(c1)) => if s[3] == 61 {
                if s.len() != 4 {
                    None
                } else if s[2] == 61 {
                    if c1 % 16 == 0 {
                        Some(seq![(c0 * 4 + c1 / 16) as u8])
                    } else {
                        None
                    }
                } else {
                    match b64_inv(s[2]) {
                        Some(c2) => if c2 % 4 == 0 {
                            Some(seq![(c0 * 4 + c1 / 16) as u8, ((c1 % 16) * 16 + c2 / 4) as u8])
                        } else {
                            None
                        },
                        None => None,
                    }
                }
            } else {
                match (b64_inv(s[2]), b64_inv(s[3])) {
                    (Some(c2), Some(c3)) => match b64_decode(s.skip(4)) {
                        Some(r) => Some(
                            seq![
                                (c0 * 4 + c1 / 16) as u8,
                                ((c1 % 16) * 16 + c2 / 4) as u8,
                                ((c2 % 4) * 64 + c3) as u8,
                            ] + r,
                        ),
                        None => None,
                    },
                    _ => None,
                }
            },
            _ => None,
        }
    }
}


proof fn lemma_pack_arith(b0: u8, b1: u8, b2: u8)
    ensures
        (b0 % 4) * 16 + b1 / 16 < 64,
        (b1 % 16) * 4 + b2 / 64 < 64,
        ((b0 % 4) * 16) % 16 == 0,
        ((b1 % 16) * 4) % 4 == 0,
        (b0 / 4) * 4 + ((b0 % 4) * 16) / 16 == b0,
        (b0 / 4) * 4 + ((b0 % 4) * 16 + b1 / 16) / 16 == b0,
        ((b0 % 4) * 16 + b1 / 16) % 16 == b1 / 16,
        (b1 / 16) * 16 + ((b1 % 16) * 4) / 4 == b1,
        (b1 / 16) * 16 + ((b1 % 16) * 4 + b2 / 64) / 4 == b1,
        ((b1 % 16) * 4 + b2 / 64) % 4 == b2 / 64,
        (b2 / 64) * 64 + b2 % 64 == b2,
        b0 < 128 ==> b0 / 4 < 32,
        b1 < 128 ==> (b0 % 4) * 16 + b1 / 16 != 63,
        b2 < 128 ==> (b1 % 16) * 4 + b2 / 64 != 63,
        (b0 % 4) * 16 != 63,
        (b1 % 16) * 4 != 63,
{
    assert((b0 % 4) * 16 + b1 / 16 < 64) by (nonlinear_arith);
    assert((b1 % 16) * 4 + b2 / 64 < 64) by (nonlinear_arith);
    assert(((b0 % 4) * 16) % 16 == 0) by (nonlinear_arith);
    assert(((b1 % 16) * 4) % 4 == 0) by (nonlinear_arith);
    assert((b0 / 4) * 4 + ((b0 % 4) * 16) / 16 == b0) by (nonlinear_arith);
    assert((b0 / 4) * 4 + ((b0 % 4) * 16 + b1 / 16) / 16 == b0) by (nonlinear_arith);
    assert(((b0 % 4) * 16 + b1 / 16) % 16 == b1 / 16) by (nonlinear_arith);
    assert((b1 / 16) * 16 + ((b1 % 16) * 4) / 4 == b1) by (nonlinear_arith);
    assert((b1 / 16) * 16 + ((b1 % 16) * 4 + b2 / 64) / 4 == b1) by (nonlinear_arith);
    assert(((b1 % 16) * 4 + b2 / 64) % 4 == b2 / 64) by (nonlinear_arith);
    assert((b2 / 64) * 64 + b2 % 64 == b2) by (nonlinear_arith);
    assert(b1 < 128 ==> (b0 % 4) * 16 + b1 / 16 != 63) by (nonlinear_arith);
    assert(b2 < 128 ==> (b1 % 16) * 4 + b2 / 64 != 63) by (nonlinear_arith);
    assert((b0 % 4) * 16 != 63) by (nonlinear_arith);
    assert((b1 % 16) * 4 != 63) by (nonlinear_arith);
}

/// Decoding inverts encoding.
pub proof fn lemma_b64_round_trip(s: Seq<u8>)
    ensures
        b64_decode(b64_encode(s)) == Some(s),
    decreases s.len(),
{
    let e = b64_encode(s);
    if s.len() == 0 {
        assert(s =~= Seq::<u8>::empty());
    } else if s.len() == 1 {
        let b0 = s[0];
        lemma_b64_char_inverse(b0 / 4);
        lemma_b64_char_inverse(((b0 % 4) * 16) as u8);
        assert(e.len() == 4 && e[3] == 61 && e[2] == 61);
        lemma_pack_arith(b0, 0, 0);
        assert(b64_decode(e) == Some(seq![b0]));
        assert(seq![b0] =~= s);
    } else if s.len() == 2 {
        let b0 = s[0];
        let b1 = s[1];
        let c1: u8 = ((b0 % 4) * 16 + b1 / 16) as u8;
        let c2: u8 = ((b1 % 16) * 4) as u8;
        lemma_b64_char_inverse(b0 / 4);
        lemma_b64_char_inverse(c1);
        lemma_b64_char_inverse(c2);
        assert(e.len() == 4 && e[3] == 61);
        assert(e[2] == b64_char(c2) && b64_char(c2) != 61);
        lemma_pack_arith(b0, b1, 0);
        assert(c1 == (b0 % 4) * 16 + b1 / 16);
        assert(c2 == (b1 % 16) * 4);
        assert(c2 % 4 == 0);
        assert((b0 / 4) * 4 + c1 / 16 == b0);
        assert((c1 % 16) * 16 + c2 / 4 == b1);
        assert(b64_decode(e) == Some(seq![b0, b1]));
        assert(seq![b0, b1] =~= s);
    } else {
        let b0 = s[0];
        let b1 = s[1];
        let b2 = s[2];
        let c1: u8 = ((b0 % 4) * 16 + b1 / 16) as u8;
        let c2: u8 = ((b1 % 16) * 4 + b2 / 64) as u8;
        let c3: u8 = b2 % 64;
        lemma_b64_char_inverse(b0 / 4);
        lemma_b64_char_inverse(c1);
        lemma_b64_char_inverse(c2);
        lemma_b64_char_inverse(c3);
        lemma_b64_round_trip(s.skip(3));
        let rest = b64_encode(s.skip(3));
        assert(e == seq![b64_char(b0 / 4), b64_char(c1), b64_char(c2), b64_char(c3)] + rest);
        assert(e.len() == 4 + rest.len());
        assert(e[0] == b64_char(b0 / 4) && e[1] == b64_char(c1) && e[2] == b64_char(c2) && e[3]
            == b64_char(c3));
        assert(e[3] != 61);
        assert(e.skip(4) =~= rest);
        lemma_pack_arith(b0, b1, b2);
        assert(c1 == (b0 % 4) * 16 + b1 / 16);
        assert(c2 == (b1 % 16) * 4 + b2 / 64);
        assert((b0 / 4) * 4 + c1 / 16 == b0);
        assert((c1 % 16) * 16 + c2 / 4 == b1);
        assert((c2 % 4) * 64 + c3 == b2);
        assert(b64_decode(e) == Some(seq![b0, b1, b2] + s.skip(3)));
        assert(seq![b0, b1, b2] + s.skip(3) =~= s);
    }
}

/// Distinct inputs have distinct encodings.
pub proof fn lemma_b64_injective(a: Seq<u8>, b: Seq<u8>)
    requires
        b64_encode(a) == b64_encode(b),
    ensures
        a == b,
{
    lemma_b64_round_trip(a);
    lemma_b64_round_trip(b);
}

/// A byte the encoder can produce: the alphabet or the padding byte.
pub open spec fn is_b64_out(b: u8) -> bool {
    65 <= b <= 90 || 97 <= b <= 122 || 48 <= b <= 57 || b == 43 || b == 47 || b == 61
}

/// Every encoded byte is of the output alphabet, whatever the input.
pub proof fn lemma_b64_out_bytes(s: Seq<u8>)
    ensures
        forall|j: int| 0 <= j < b64_encode(s).len() ==> is_b64_out(#[trigger] b64_encode(s)[j]),
    decreases s.len(),
{
    let e = b64_encode(s);
    if s.len() == 0 {
    } else if s.len() <= 2 {
    } else {
        lemma_b64_out_bytes(s.skip(3));
        assert forall|j: int| 0 <= j < e.len() implies is_b64_out(#[trigger] e[j]) by {
            if j >= 4 {
                assert(e[j] == b64_encode(s.skip(3))[j - 4]);
            }
        }
    }
}

/// An input whose bytes keep below DEL and avoid `?` encodes without any
/// `/` at all: the first three slots of a group stay under 63, and the last
/// slot is the low six bits of such a byte, never 63.
pub proof fn lemma_b64_no_slash(s: Seq<u8>)
    requires
        forall|i: int| 0 <= i < s.len() ==> #[trigger] s[i] < 127 && s[i] != 63,
    ensures
        forall|j: int| 0 <= j < b64_encode(s).len() ==> #[trigger] b64_encode(s)[j] != 47,
    decreases s.len(),
{
    let e = b64_encode(s);
    if s.len() == 0 {
    } else if s.len() == 1 {
        let b0 = s[0];
        assert(b0 < 127);
        lemma_pack_arith(b0, 0, 0);
        assert(b64_char(b0 / 4) != 47);
        assert(b64_char(((b0 % 4) * 16) as u8) != 47);
    } else if s.len() == 2 {
        let b0 = s[0];
        let b1 = s[1];
        assert(b0 < 127 && b1 < 127);
        lemma_pack_arith(b0, b1, 0);
        assert(b64_char(b0 / 4) != 47);
        assert(b64_char(((b0 % 4) * 16 + b1 / 16) as u8) != 47);
        assert(b64_char(((b1 % 16) * 4) as u8) != 47);
    } else {
        let b0 = s[0];
        let b1 = s[1];
        let b2 = s[2];
        assert(b0 < 127 && b1 < 127 && b2 < 127 && b2 != 63);
        lemma_pack_arith(b0, b1, b2);
        let t = s.skip(3);
        assert(forall|i: int| 0 <= i < t.len() ==> #[trigger] t[i] < 127 && t[i] != 63);
        lemma_b64_no_slash(t);
        assert(b64_char(b0 / 4) != 47);
        assert(b64_char(((b0 % 4) * 16 + b1 / 16) as u8) != 47);
        assert(b64_char(((b1 % 16) * 4 + b2 / 64) as u8) != 47);
        assert(b2 % 64 != 63);
        assert(b64_char(b2 % 64) != 47);
        assert forall|j: int| 0 <= j < e.len() implies #[trigger] e[j] != 47 by {
            if j >= 4 {
                assert(e[j] == b64_encode(t)[j - 4]);
            }
        }
    }
}

/// Shape of the encoding of an ASCII input: its length is the padded group
/// count, every byte is of the output alphabet, `/` can stand only last in a
/// group, and an input ending in a decimal digit never ends in `/`.
pub proof fn lemma_b64_shape(s: Seq<u8>)
    requires
        forall|i: int| 0 <= i < s.len() ==> #[trigger] s[i] < 128,
    ensures
        b64_encode(s).len() == 4 * ((s.len() + 2) / 3),
        forall|j: int| 0 <= j < b64_encode(s).len() ==> is_b64_out(#[trigger] b64_encode(s)[j]),
        forall|j: int|
            0 <= j < b64_encode(s).len() && j % 4 != 3 ==> #[trigger] b64_encode(s)[j] != 47,
        s.len() > 0 && 48 <= s.last() <= 57 ==> b64_encode(s).last() != 47,
    decreases s.len(),
{
    let e = b64_encode(s);
    if s.len() == 0 {
    } else if s.len() == 1 {
        let b0 = s[0];
        assert(b0 < 128);
        lemma_pack_arith(b0, 0, 0);
        assert(b0 / 4 < 32);
        assert(b64_char(b0 / 4) != 47 && is_b64_out(b64_char(b0 / 4)));
        assert(b64_char(((b0 % 4) * 16) as u8) != 47 && is_b64_out(
            b64_char(((b0 % 4) * 16) as u8),
        ));
        assert(e.last() == 61);
    } else if s.len() == 2 {
        let b0 = s[0];
        let b1 = s[1];
        let c1: u8 = ((b0 % 4) * 16 + b1 / 16) as u8;
        let c2: u8 = ((b1 % 16) * 4) as u8;
        assert(b0 < 128 && b1 < 128);
        lemma_pack_arith(b0, b1, 0);
        assert(b0 / 4 < 32);
        assert(c1 == (b0 % 4) * 16 + b1 / 16);
        assert(c2 == (b1 % 16) * 4);
        assert(c1 < 64 && c2 < 64);
        assert(c1 != 63);
        assert(c2 != 63);
        assert(is_b64_out(b64_char(b0 / 4)) && b64_char(b0 / 4) != 47);
        assert(is_b64_out(b64_char(c1)) && b64_char(c1) != 47);
        assert(is_b64_out(b64_char(c2)) && b64_char(c2) != 47);
        assert(e.last() == 61);
    } else {
        let b0 = s[0];
        let b1 = s[1];
        let b2 = s[2];
        let c0: u8 = b0 / 4;
        let c1: u8 = ((b0 % 4) * 16 + b1 / 16) as u8;
        let c2: u8 = ((b1 % 16) * 4 + b2 / 64) as u8;
        let c3: u8 = b2 % 64;
        let t = s.skip(3);
        assert(forall|i: int| 0 <= i < t.len() ==> #[trigger] t[i] < 128);
        lemma_b64_shape(t);
        let rest = b64_encode(t);
        assert(b0 < 128 && b1 < 128 && b2 < 128);
        lemma_pack_arith(b0, b1, b2);
        assert(c0 < 32);
        assert(c1 == (b0 % 4) * 16 + b1 / 16);
        assert(c2 == (b1 % 16) * 4 + b2 / 64);
        assert(c1 < 64 && c2 < 64 && c3 < 64);
        assert(c1 != 63);
        assert(c2 != 63);
        assert(is_b64_out(b64_char(c0)) && b64_char(c0) != 47);
        assert(is_b64_out(b64_char(c1)) && b64_char(c1) != 47);
        assert(is_b64_out(b64_char(c2)) && b64_char(c2) != 47);
        assert(is_b64_out(b64_char(c3)));
        assert(e.len() == 4 + rest.len());
        assert((s.len() + 2) / 3 == 1 + (t.len() + 2) / 3);
        assert forall|j: int| 0 <= j < e.len() implies is_b64_out(#[trigger] e[j]) && (j % 4 != 3
            ==> e[j] != 47) by {
            if j >= 4 {
                assert(e[j] == rest[j - 4]);
                assert((j - 4) % 4 == j % 4);
            }
        }
        if s.len() > 0 && 48 <= s.last() <= 57 {
            if t.len() == 0 {
                assert(s.len() == 3);
                assert(b2 == s.last());
                assert(b2 < 64);
                assert(c3 == b2);
                assert(e.last() == b64_char(c3));
                assert(b64_char(c3) != 47);
            } else {
                assert(t.last() == s.last());
                assert(rest.len() > 0);
                assert(e.last() == rest.last());
            }
        }
    }
}

fn b64_char_exec(x: u8) -> (r: u8)
    requires
        x < 64,
    ensures
        r == b64_char(x),
{
    if x < 26 {
        65 + x
    } else if x < 52 {
        71 + x
    } else if x < 62 {
        x - 4
    } else if x == 62 {
        43
    } else {
        47
    }
}

fn b64_inv_exec(b: u8) -> (r: Option<u8>)
    ensures
        r == b64_inv(b),
        r matches Some(c) ==> c < 64,
{
    if 65 <= b && b <= 90 {
        Some(b - 65)
    } else if 97 <= b && b <= 122 {
        Some(b - 71)
    } else if 48 <= b && b <= 57 {
        Some(b + 4)
    } else if b == 43 {
        Some(62)
    } else if b == 47 {
        Some(63)
    } else {
        None
    }
}

/// Base64-encodes a byte slice.
pub fn b64_encode_exec(s: &[u8]) -> (r: Vec<u8>)
    ensures
        r@ == b64_encode(s@),
{
    let mut out: Vec<u8> = Vec::new();
    let mut i: usize = 0;
    let n = s.len();
    proof {
        assert(s@.skip(0) =~= s@);
        assert forall|r2: Seq<u8>| true implies Seq::<u8>::empty() + r2 =~= r2 by {}
    }
    while n - i >= 3
        invariant
            i <= n,
            n == s@.len(),
            b64_encode(s@) == out@ + b64_encode(s@.skip(i as int)),
        decreases n - i,
    {
        let ghost sk = s@.skip(i as int);
        let b0 = s[i];
        let b1 = s[i + 1];
        let b2 = s[i + 2];
        proof {
            assert(sk[0] == b0 && sk[1] == b1 && sk[2] == b2);
            assert(sk.len() >= 3);
            lemma_pack_arith(b0, b1, b2);
            assert(sk.skip(3) =~= s@.skip(i + 3));
        }
        let ghost out0 = out@;
        out.push(b64_char_exec(b0 / 4));
        out.push(b64_char_exec((b0 % 4) * 16 + b1 / 16));
        out.push(b64_char_exec((b1 % 16) * 4 + b2 / 64));
        out.push(b64_char_exec(b2 % 64));
        proof {
            let g = seq![
                b64_char(b0 / 4),
                b64_char(((b0 % 4) * 16 + b1 / 16) as u8),
                b64_char(((b1 % 16) * 4 + b2 / 64) as u8),
                b64_char(b2 % 64),
            ];
            assert(out@ =~= out0 + g);
            assert(b64_encode(sk) == g + b64_encode(sk.skip(3)));
        }
        i += 3;
        proof {
            assert(b64_encode(s@) =~= out@ + b64_encode(s@.skip(i as int)));
        }
    }
    let ghost sk = s@.skip(i as int);
    if n - i == 1 {
        let b0 = s[i];
        proof {
            assert(sk.len() == 1);
            assert(sk[0] == b0);
            lemma_pack_arith(b0, 0, 0);
        }
        let ghost out0 = out@;
        out.push(b64_char_exec(b0 / 4));
        out.push(b64_char_exec((b0 % 4) * 16));
        out.push(61);
        out.push(61);
        proof {
            assert(out@ =~= out0 + b64_encode(sk));
        }
    } else if n - i == 2 {
        let b0 = s[i];
        let b1 = s[i + 1];
        proof {
            assert(sk.len() == 2);
            assert(sk[0] == b0 && sk[1] == b1);
            lemma_pack_arith(b0, b1, 0);
        }
        let ghost out0 = out@;
        out.push(b64_char_exec(b0 / 4));
        out.push(b64_char_exec((b0 % 4) * 16 + b1 / 16));
        out.push(b64_char_exec((b1 % 16) * 4));
        out.push(61);
        proof {
            assert(out@ =~= out0 + b64_encode(sk));
        }
    } else {
        proof {
            assert(sk.len() == 0);
            assert(sk =~= Seq::<u8>::empty());
            assert(out@ =~= out@ + b64_encode(sk));
        }
    }
    proof {
        assert(out@ =~= b64_encode(s@));
    }
    out
}

/// Strict base64 decoding of a byte slice.
pub fn b64_decode_exec(v: &[u8]) -> (r: Option<Vec<u8>>)
    ensures
        match r {
            Some(out) => b64_decode(v@) == Some(out@),
            None => b64_decode(v@) is None,
        },
{
    let mut out: Vec<u8> = Vec::new();
    let mut i: usize = 0;
    let n = v.len();
    proof {
        assert(v@.skip(0) =~= v@);
        assert forall|r2: Seq<u8>| true implies Seq::<u8>::empty() + r2 =~= r2 by {}
    }
    while i < n
        invariant
            i <= n,
            n == v@.len(),
            b64_decode(v@) == (match b64_decode(v@.skip(i as int)) {
                Some(r2) => Some(out@ + r2),
                None => None::<Seq<u8>>,
            }),
        decreases n - i,
    {
        let ghost sk = v@.skip(i as int);
        if n - i < 4 {
            proof {
                assert(sk.len() < 4 && sk.len() > 0);
            }
            return None;
        }
        let s0 = v[i];
        let s1 = v[i + 1];
        let s2 = v[i + 2];
        let s3 = v[i + 3];
        proof {
            assert(sk[0] == s0 && sk[1] == s1 && sk[2] == s2 && sk[3] == s3);
        }
        let c0 = match b64_inv_exec(s0) {
            Some(c) => c,
            None => {
                return None;
            },
        };
        let c1 = match b64_inv_exec(s1) {
            Some(c) => c,
            None => {
                return None;
            },
        };
        if s3 == 61 {
            if n - i != 4 {
                return None;
            }
            if s2 == 61 {
                if c1 % 16 != 0 {
                    return None;
                }
                proof {
                    assert(c0 * 4 + c1 / 16 < 256);
                }
                let ghost out0 = out@;
                out.push(c0 * 4 + c1 / 16);
                i += 4;
                proof {
                    assert(v@.skip(i as int) =~= Seq::<u8>::empty());
                    assert(out@ =~= out0 + b64_decode(sk).unwrap());
                }
            } else {
                let c2 = match b64_inv_exec(s2) {
                    Some(c) => c,
                    None => {
                        return None;
                    },
                };
                if c2 % 4 != 0 {
                    return None;
                }
                proof {
                    assert(c0 * 4 + c1 / 16 < 256);
                    assert((c1 % 16) * 16 + c2 / 4 < 256) by (nonlinear_arith)
                        requires c1 < 64 && c2 < 64;
                }
                let ghost out0 = out@;
                out.push(c0 * 4 + c1 / 16);
                out.push((c1 % 16) * 16 + c2 / 4);
                i += 4;
                proof {
                    assert(v@.skip(i as int) =~= Seq::<u8>::empty());
                    assert(out@ =~= out0 + b64_decode(sk).unwrap());
                }
            }
        } else {
            let c2 = match b64_inv_exec(s2) {
                Some(c) => c,
                None => {
                    return None;
                },
            };
            let c3 = match b64_inv_exec(s3) {
                Some(c) => c,
                None => {
                    return None;
                },
            };
            proof {
                assert(c0 * 4 + c1 / 16 < 256);
                assert((c1 % 16) * 16 + c2 / 4 < 256) by (nonlinear_arith)
                    requires c1 < 64 && c2 < 64;
                assert((c2 % 4) * 64 + c3 < 256) by (nonlinear_arith)
                    requires c2 < 64 && c3 < 64;
                assert(sk.skip(4) =~= v@.skip(i + 4));
            }
            let ghost out0 = out@;
            out.push(c0 * 4 + c1 / 16);
            out.push((c1 % 16) * 16 + c2 / 4);
            out.push((c2 % 4) * 64 + c3);
            i += 4;
            proof {
                let g = seq![
                    (c0 * 4 + c1 / 16) as u8,
                    ((c1 % 16) * 16 + c2 / 4) as u8,
                    ((c2 % 4) * 64 + c3) as u8,
                ];
                assert(out@ =~= out0 + g);
                match b64_decode(v@.skip(i as int)) {
                    Some(r3) => {
                        assert(out0 + (g + r3) =~= out@ + r3);
                    },
                    None => {},
                }
            }
        }
    }
    proof {
        assert(v@.skip(n as int) =~= Seq::<u8>::empty());
        assert(out@ + Seq::<u8>::empty() =~= out@);
    }
    Some(out)
}

} // verus!
