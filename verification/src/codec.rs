//! Byte-level building blocks of the query-string codec: percent-encoding of
//! arbitrary bytes and decimal rendering/parsing of numbers, each with a
//! proved round trip.

use vstd::prelude::*;
use vstd::utf8::{decode_utf8, valid_utf8};

verus! {

/// Bytes that the encoder escapes: controls, DEL and everything non-ASCII,
/// the query delimiters `? = &`, the nesting brackets `[ ]`, the escape
/// introducers `% +`, and `" # < >`.
pub open spec fn pct_escaped(b: u8) -> bool {
    b < 0x20 || b >= 0x7f || b == 34 || b == 35 || b == 60 || b == 62 || b == 37 || b == 43
        || b == 91 || b == 93 || b == 61 || b == 38 || b == 63
}

pub open spec fn is_digit(b: u8) -> bool {
    48 <= b <= 57
}

pub open spec fn is_hex_digit(b: u8) -> bool {
    48 <= b <= 57 || 65 <= b <= 70 || 97 <= b <= 102
}

/// Numeric value of a hex digit byte.
pub open spec fn hex_val(b: u8) -> u8 {
    if 48 <= b <= 57 {
        (b - 48) as u8
    } else if 65 <= b <= 70 {
        (b - 55) as u8
    } else {
        (b - 87) as u8
    }
}

/// Upper-case hex digit byte of a value below 16.
pub open spec fn hex_digit_of(n: u8) -> u8 {
    if n < 10 {
        (48 + n) as u8
    } else {
        (55 + n) as u8
    }
}

/// Percent-encoding of one byte: space becomes `+`, an escaped byte becomes
/// `%XX`, anything else stands for itself.
pub open spec fn pct_encode_byte(b: u8) -> Seq<u8> {
    if b == 32 {
        seq![43u8]
    } else if pct_escaped(b) {
        seq![37u8, hex_digit_of(b / 16), hex_digit_of(b % 16)]
    } else {
        seq![b]
    }
}

pub open spec fn pct_encode(s: Seq<u8>) -> Seq<u8>
    decreases s.len(),
{
    if s.len() == 0 {
        Seq::empty()
    } else {
        pct_encode_byte(s[0]) + pct_encode(s.drop_first())
    }
}

/// Strict percent-decoding: `+` is a space, `%` must introduce two hex digits,
/// every other byte stands for itself.
pub open spec fn pct_decode(s: Seq<u8>) -> Option<Seq<u8>>
    decreases s.len(),
{
    if s.len() == 0 {
        Some(Seq::empty())
    } else if s[0] == 37 {
        if s.len() >= 3 && is_hex_digit(s[1]) && is_hex_digit(s[2]) {
            match pct_decode(s.skip(3)) {
                Some(r) => Some(seq![(hex_val(s[1]) * 16 + hex_val(s[2])) as u8] + r),
                None => None,
            }
        } else {
            None
        }
    } else if s[0] == 43 {
        match pct_decode(s.drop_first()) {
            Some(r) => Some(seq![32u8] + r),
            None => None,
        }
    } else {
        match pct_decode(s.drop_first()) {
            Some(r) => Some(seq![s[0]] + r),
            None => None,
        }
    }
}

proof fn lemma_hex_digit_inverse(n: u8)
    requires
        n < 16,
    ensures
        is_hex_digit(hex_digit_of(n)),
        hex_val(hex_digit_of(n)) == n,
        hex_digit_of(n) != 37 && hex_digit_of(n) != 43,
{
}

/// Decoding inverts encoding, byte sequence by byte sequence.
pub proof fn lemma_pct_round_trip(s: Seq<u8>)
    ensures
        pct_decode(pct_encode(s)) == Some(s),
    decreases s.len(),
{
    if s.len() == 0 {
        assert(pct_encode(s) =~= Seq::<u8>::empty());
        assert(pct_decode(pct_encode(s)) == Some(Seq::<u8>::empty()));
        assert(s =~= Seq::<u8>::empty());
    } else {
        let b = s[0];
        let rest = s.drop_first();
        lemma_pct_round_trip(rest);
        let eb = pct_encode_byte(b);
        let e = pct_encode(s);
        assert(e == eb + pct_encode(rest));
        if b == 32 {
            assert(e[0] == 43);
            assert(e.drop_first() =~= pct_encode(rest));
            assert(pct_decode(e) == Some(seq![32u8] + rest));
            assert(seq![32u8] + rest =~= s);
        } else if pct_escaped(b) {
            lemma_hex_digit_inverse(b / 16);
            lemma_hex_digit_inverse(b % 16);
            assert(e[0] == 37 && e[1] == hex_digit_of(b / 16) && e[2] == hex_digit_of(b % 16));
            assert(e.len() >= 3);
            assert(e.skip(3) =~= pct_encode(rest));
            assert(hex_val(e[1]) * 16 + hex_val(e[2]) == (b / 16) * 16 + b % 16);
            assert((b / 16) * 16 + b % 16 == b);
            assert(pct_decode(e) == Some(seq![b] + rest));
            assert(seq![b] + rest =~= s);
        } else {
            assert(e[0] == b && b != 37 && b != 43 && b != 32);
            assert(e.drop_first() =~= pct_encode(rest));
            assert(pct_decode(e) == Some(seq![b] + rest));
            assert(seq![b] + rest =~= s);
        }
    }
}

/// Every encoded byte is printable ASCII, and none is a structural byte of
/// the query form: `&`, `=` and `?` never appear in an encoded value.
pub proof fn lemma_pct_encode_ascii(s: Seq<u8>)
    ensures
        forall|i: int|
            0 <= i < pct_encode(s).len() ==> {
                let b = #[trigger] pct_encode(s)[i];
                b < 0x7f && b != 38 && b != 61 && b != 63 && b >= 0x20
            },
    decreases s.len(),
{
    if s.len() > 0 {
        lemma_pct_encode_ascii(s.drop_first());
        if !(s[0] == 32) && pct_escaped(s[0]) {
            lemma_hex_digit_inverse(s[0] / 16);
            lemma_hex_digit_inverse(s[0] % 16);
        }
        assert forall|i: int| 0 <= i < pct_encode(s).len() implies {
            let b = #[trigger] pct_encode(s)[i];
            b < 0x7f && b != 38 && b != 61 && b != 63 && b >= 0x20
        } by {
            let eb = pct_encode_byte(s[0]);
            if i >= eb.len() {
                assert(pct_encode(s)[i] == pct_encode(s.drop_first())[i - eb.len()]);
            }
        }
    }
}

/// Appending a byte appends its encoding.
pub proof fn lemma_pct_encode_push(s: Seq<u8>, b: u8)
    ensures
        pct_encode(s.push(b)) == pct_encode(s) + pct_encode_byte(b),
    decreases s.len(),
{
    if s.len() == 0 {
        assert(s.push(b).len() == 1);
        assert(s.push(b)[0] == b);
        assert(s.push(b).drop_first() =~= Seq::<u8>::empty());
        assert(pct_encode(s.push(b)) == pct_encode_byte(b) + pct_encode(Seq::<u8>::empty()));
        assert(pct_encode_byte(b) + Seq::<u8>::empty() =~= pct_encode_byte(b));
        assert(pct_encode(s) + pct_encode_byte(b) =~= pct_encode_byte(b));
    } else {
        lemma_pct_encode_push(s.drop_first(), b);
        assert(s.push(b).drop_first() =~= s.drop_first().push(b));
        assert(s.push(b)[0] == s[0]);
        assert(pct_encode(s.push(b)) == pct_encode_byte(s[0]) + pct_encode(s.drop_first().push(b)));
        assert(pct_encode_byte(s[0]) + (pct_encode(s.drop_first()) + pct_encode_byte(b)) =~= (
        pct_encode_byte(s[0]) + pct_encode(s.drop_first())) + pct_encode_byte(b));
    }
}

/// Decimal digits of a number, most significant first.
pub open spec fn dec_of(n: nat) -> Seq<u8>
    decreases n,
{
    if n < 10 {
        seq![(48 + n) as u8]
    } else {
        dec_of(n / 10) + seq![(48 + n % 10) as u8]
    }
}

/// Value of a non-empty, all-digit byte sequence; `None` otherwise.
pub open spec fn parse_dec(s: Seq<u8>) -> Option<nat>
    decreases s.len(),
{
    if s.len() == 0 {
        None
    } else if !is_digit(s.last()) {
        None
    } else if s.len() == 1 {
        Some((s[0] - 48) as nat)
    } else {
        match parse_dec(s.drop_last()) {
            Some(v) => Some(v * 10 + (s.last() - 48) as nat),
            None => None,
        }
    }
}

/// All decimal digits are digit bytes.
pub proof fn lemma_dec_of_digits(n: nat)
    ensures
        dec_of(n).len() >= 1,
        forall|i: int| 0 <= i < dec_of(n).len() ==> is_digit(#[trigger] dec_of(n)[i]),
    decreases n,
{
    if n >= 10 {
        lemma_dec_of_digits(n / 10);
        assert forall|i: int| 0 <= i < dec_of(n).len() implies is_digit(#[trigger] dec_of(n)[i]) by {
            if i < dec_of(n / 10).len() {
                assert(dec_of(n)[i] == dec_of(n / 10)[i]);
            }
        }
    }
}

/// Index of the first `&` at or after `from`, or the length when there is none.
pub open spec fn find_amp(q: Seq<u8>, from: int) -> int
    decreases q.len() - from,
{
    if from < 0 || from >= q.len() {
        q.len() as int
    } else if q[from] == 38 {
        from
    } else {
        find_amp(q, from + 1)
    }
}

pub proof fn lemma_find_amp(q: Seq<u8>, from: int)
    requires
        0 <= from <= q.len(),
    ensures
        from <= find_amp(q, from) <= q.len(),
        find_amp(q, from) < q.len() ==> q[find_amp(q, from)] == 38,
        forall|k: int| from <= k < find_amp(q, from) ==> q[k] != 38,
    decreases q.len() - from,
{
    if from < q.len() && q[from] != 38 {
        lemma_find_amp(q, from + 1);
    }
}

pub proof fn lemma_find_amp_at(q: Seq<u8>, from: int, j: int)
    requires
        0 <= from <= j <= q.len(),
        forall|k: int| from <= k < j ==> q[k] != 38,
        j == q.len() || q[j] == 38,
    ensures
        find_amp(q, from) == j,
    decreases j - from,
{
    if from < j {
        lemma_find_amp_at(q, from + 1, j);
    }
}

pub(crate) fn find_amp_exec(q: &[u8], from: usize) -> (r: usize)
    requires
        from <= q@.len(),
    ensures
        r as int == find_amp(q@, from as int),
        from <= r <= q@.len(),
{
    let mut i = from;
    while i < q.len()
        invariant
            from <= i <= q@.len(),
            find_amp(q@, from as int) == find_amp(q@, i as int),
        decreases q@.len() - i,
    {
        if q[i] == 38 {
            return i;
        }
        i += 1;
    }
    i
}

/// Index of the first `/` at or after `from`, or the length when there is none.
pub open spec fn find_slash(q: Seq<u8>, from: int) -> int
    decreases q.len() - from,
{
    if from < 0 || from >= q.len() {
        q.len() as int
    } else if q[from] == 47 {
        from
    } else {
        find_slash(q, from + 1)
    }
}

pub proof fn lemma_find_slash(q: Seq<u8>, from: int)
    requires
        0 <= from <= q.len(),
    ensures
        from <= find_slash(q, from) <= q.len(),
    decreases q.len() - from,
{
    if from < q.len() && q[from] != 47 {
        lemma_find_slash(q, from + 1);
    }
}

pub proof fn lemma_find_slash_at(q: Seq<u8>, from: int, j: int)
    requires
        0 <= from <= j <= q.len(),
        forall|k: int| from <= k < j ==> q[k] != 47,
        j == q.len() || q[j] == 47,
    ensures
        find_slash(q, from) == j,
    decreases j - from,
{
    if from < j {
        lemma_find_slash_at(q, from + 1, j);
    }
}

pub(crate) fn find_slash_exec(q: &[u8], from: usize) -> (r: usize)
    requires
        from <= q@.len(),
    ensures
        r as int == find_slash(q@, from as int),
        from <= r <= q@.len(),
{
    let mut i = from;
    while i < q.len()
        invariant
            from <= i <= q@.len(),
            find_slash(q@, from as int) == find_slash(q@, i as int),
        decreases q@.len() - i,
    {
        if q[i] == 47 {
            return i;
        }
        i += 1;
    }
    i
}


/// Index of the first `=` at or after `from`, or the length when there is none.
pub open spec fn find_eq(q: Seq<u8>, from: int) -> int
    decreases q.len() - from,
{
    if from < 0 || from >= q.len() {
        q.len() as int
    } else if q[from] == 61 {
        from
    } else {
        find_eq(q, from + 1)
    }
}

pub proof fn lemma_find_eq_at(q: Seq<u8>, from: int, j: int)
    requires
        0 <= from <= j <= q.len(),
        forall|k: int| from <= k < j ==> q[k] != 61,
        j == q.len() || q[j] == 61,
    ensures
        find_eq(q, from) == j,
    decreases j - from,
{
    if from < j {
        lemma_find_eq_at(q, from + 1, j);
    }
}

pub(crate) fn find_eq_exec(q: &[u8], from: usize) -> (r: usize)
    requires
        from <= q@.len(),
    ensures
        r as int == find_eq(q@, from as int),
        from <= r <= q@.len(),
{
    let mut i = from;
    while i < q.len()
        invariant
            from <= i <= q@.len(),
            find_eq(q@, from as int) == find_eq(q@, i as int),
        decreases q@.len() - i,
    {
        if q[i] == 61 {
            return i;
        }
        i += 1;
    }
    i
}

/// A sequence free of `%` and `+` percent-decodes to itself.
pub proof fn lemma_pct_decode_plain(s: Seq<u8>)
    requires
        forall|i: int| 0 <= i < s.len() ==> s[i] != 37 && #[trigger] s[i] != 43,
    ensures
        pct_decode(s) == Some(s),
    decreases s.len(),
{
    if s.len() > 0 {
        assert(s[0] != 37 && s[0] != 43);
        assert forall|i: int| 0 <= i < s.drop_first().len() implies s.drop_first()[i] != 37
            && #[trigger] s.drop_first()[i] != 43 by {
            assert(s.drop_first()[i] == s[i + 1]);
        }
        lemma_pct_decode_plain(s.drop_first());
        assert(seq![s[0]] + s.drop_first() =~= s);
    }
}

/// Reads a decimal value, saturating just above `u32::MAX`: the saturated
/// result tells a range check everything it needs without holding the value.
pub(crate) fn parse_dec_sat(v: &[u8]) -> (r: Option<u64>)
    ensures
        match r {
            Some(x) => parse_dec(v@) matches Some(n) && ((n <= 0xffff_ffff && x == n) || (n
                > 0xffff_ffff && x == 0x1_0000_0000u64)),
            None => parse_dec(v@) is None,
        },
{
    let n = v.len();
    if n == 0 {
        return None;
    }
    let mut acc: u64 = 0;
    let mut k: usize = 0;
    while k < n
        invariant
            k <= n,
            n == v@.len(),
            n > 0,
            acc <= 0x1_0000_0000u64,
            k > 0 ==> (parse_dec(v@.take(k as int)) matches Some(m) && ((m <= 0xffff_ffff && acc
                == m) || (m > 0xffff_ffff && acc == 0x1_0000_0000u64))),
            k == 0 ==> acc == 0,
        decreases n - k,
    {
        let b = v[k];
        if !(48 <= b && b <= 57) {
            proof {
                if parse_dec(v@) is Some {
                    lemma_parse_dec_digits(v@);
                }
            }
            return None;
        }
        let d = (b - 48) as u64;
        proof {
            lemma_parse_dec_step(v@, k as int);
        }
        if acc > 0xffff_ffff {
            // already saturated; the exact value only grows with more digits
        } else {
            let na = acc * 10 + d;
            if na > 0xffff_ffff {
                acc = 0x1_0000_0000;
            } else {
                acc = na;
            }
        }
        k += 1;
    }
    proof {
        assert(v@.take(n as int) =~= v@);
    }
    Some(acc)
}

/// Compares two byte slices for equality.
pub(crate) fn eq_bytes(a: &[u8], b: &[u8]) -> (r: bool)
    ensures
        r == (a@ == b@),
{
    if a.len() != b.len() {
        proof {
            if a@ == b@ {
                assert(a@.len() == b@.len());
            }
        }
        return false;
    }
    let mut k: usize = 0;
    while k < a.len()
        invariant
            k <= a@.len(),
            a@.len() == b@.len(),
            forall|m: int| 0 <= m < k ==> a@[m] == b@[m],
        decreases a@.len() - k,
    {
        if a[k] != b[k] {
            return false;
        }
        k += 1;
    }
    proof {
        assert(a@ =~= b@);
    }
    true
}

/// A parsed sequence consists of digits only.
pub proof fn lemma_parse_dec_digits(s: Seq<u8>)
    requires
        parse_dec(s) is Some,
    ensures
        forall|i: int| 0 <= i < s.len() ==> is_digit(#[trigger] s[i]),
    decreases s.len(),
{
    if s.len() > 1 {
        lemma_parse_dec_digits(s.drop_last());
        assert forall|i: int| 0 <= i < s.len() implies is_digit(#[trigger] s[i]) by {
            if i < s.len() - 1 {
                assert(s.drop_last()[i] == s[i]);
            }
        }
    }
}

/// A prefix of a parsable sequence parses to a value no larger than the whole.
pub proof fn lemma_parse_dec_prefix(s: Seq<u8>, m: int)
    requires
        0 < m <= s.len(),
        parse_dec(s) is Some,
    ensures
        parse_dec(s.take(m)) is Some,
        parse_dec(s.take(m)).unwrap() <= parse_dec(s).unwrap(),
    decreases s.len(),
{
    if m == s.len() {
        assert(s.take(m) =~= s);
    } else {
        assert(s.len() >= 2);
        assert(s.drop_last().take(m) =~= s.take(m));
        lemma_parse_dec_prefix(s.drop_last(), m);
    }
}

/// One more digit extends the parsed value by that digit.
pub proof fn lemma_parse_dec_step(s: Seq<u8>, m: int)
    requires
        0 <= m < s.len(),
    ensures
        parse_dec(s.take(m + 1)) == (if is_digit(s[m]) {
            if m == 0 {
                Some((s[0] - 48) as nat)
            } else {
                match parse_dec(s.take(m)) {
                    Some(v) => Some((v * 10 + (s[m] - 48)) as nat),
                    None => None,
                }
            }
        } else {
            None
        }),
{
    let t = s.take(m + 1);
    assert(t.last() == s[m]);
    if m > 0 {
        assert(t.drop_last() =~= s.take(m));
    }
}

/// Parsing inverts decimal rendering.
pub proof fn lemma_dec_round_trip(n: nat)
    ensures
        parse_dec(dec_of(n)) == Some(n),
    decreases n,
{
    if n < 10 {
    } else {
        lemma_dec_round_trip(n / 10);
        lemma_dec_of_digits(n / 10);
        let s = dec_of(n);
        assert(s.last() == (48 + n % 10) as u8);
        assert(is_digit(s.last()));
        assert(s.drop_last() =~= dec_of(n / 10));
        assert(s.len() >= 2);
        assert(parse_dec(s) == Some((n / 10) * 10 + (n % 10)));
        assert((n / 10) * 10 + n % 10 == n);
    }
}

/// Relies on String::from_utf8: builds the string holding exactly the given
/// bytes, and refuses exactly the byte sequences that are not valid UTF-8.
#[verifier::external_body]
pub(crate) fn string_from_utf8(v: Vec<u8>) -> (r: Option<String>)
    ensures
        r is Some <==> valid_utf8(v@),
        r matches Some(s) ==> s@ == decode_utf8(v@),
{
    String::from_utf8(v).ok()
}

pub(crate) fn push_all(out: &mut Vec<u8>, v: &Vec<u8>)
    ensures
        final(out)@ == old(out)@ + v@,
{
    let mut k: usize = 0;
    while k < v.len()
        invariant
            k <= v@.len(),
            out@ == old(out)@ + v@.take(k as int),
        decreases v@.len() - k,
    {
        proof {
            assert(v@.take(k + 1) =~= v@.take(k as int).push(v@[k as int]));
            assert(old(out)@ + v@.take(k as int).push(v@[k as int]) =~= (old(out)@ + v@.take(
                k as int,
            )).push(v@[k as int]));
        }
        out.push(v[k]);
        k += 1;
    }
    assert(v@.take(v@.len() as int) =~= v@);
}

pub(crate) fn sub_vec(q: &[u8], a: usize, b: usize) -> (v: Vec<u8>)
    requires
        a <= b <= q@.len(),
    ensures
        v@ == q@.subrange(a as int, b as int),
{
    let mut v: Vec<u8> = Vec::new();
    let mut k = a;
    while k < b
        invariant
            a <= k <= b <= q@.len(),
            v@ == q@.subrange(a as int, k as int),
        decreases b - k,
    {
        proof {
            assert(q@.subrange(a as int, k + 1) =~= q@.subrange(a as int, k as int).push(
                q@[k as int],
            ));
        }
        v.push(q[k]);
        k += 1;
    }
    v
}

fn hex_digit_exec(n: u8) -> (r: u8)
    requires
        n < 16,
    ensures
        r == hex_digit_of(n),
{
    if n < 10 {
        48 + n
    } else {
        55 + n
    }
}

fn hex_val_exec(b: u8) -> (r: u8)
    requires
        is_hex_digit(b),
    ensures
        r == hex_val(b),
        r < 16,
{
    if 48 <= b && b <= 57 {
        b - 48
    } else if 65 <= b && b <= 70 {
        b - 55
    } else {
        b - 87
    }
}

pub(crate) fn push_pct_byte(out: &mut Vec<u8>, b: u8)
    ensures
        final(out)@ == old(out)@ + pct_encode_byte(b),
{
    if b == 32 {
        out.push(43);
    } else if b < 0x20 || b >= 0x7f || b == 34 || b == 35 || b == 60 || b == 62 || b == 37 || b
        == 43 || b == 91 || b == 93 || b == 61 || b == 38 || b == 63 {
        out.push(37);
        out.push(hex_digit_exec(b / 16));
        out.push(hex_digit_exec(b % 16));
    } else {
        out.push(b);
    }
    assert(out@ =~= old(out)@ + pct_encode_byte(b));
}

pub(crate) fn push_pct_bytes(out: &mut Vec<u8>, s: &[u8])
    ensures
        final(out)@ == old(out)@ + pct_encode(s@),
{
    let mut i: usize = 0;
    while i < s.len()
        invariant
            i <= s@.len(),
            out@ == old(out)@ + pct_encode(s@.take(i as int)),
        decreases s@.len() - i,
    {
        proof {
            lemma_pct_encode_push(s@.take(i as int), s@[i as int]);
            assert(s@.take(i + 1) =~= s@.take(i as int).push(s@[i as int]));
        }
        push_pct_byte(out, s[i]);
        i += 1;
    }
    assert(s@.take(s@.len() as int) =~= s@);
}

pub(crate) fn push_dec_u32(out: &mut Vec<u8>, n: u32)
    ensures
        final(out)@ == old(out)@ + dec_of(n as nat),
    decreases n,
{
    if n < 10 {
        out.push(48 + n as u8);
        assert(out@ =~= old(out)@ + dec_of(n as nat));
    } else {
        push_dec_u32(out, n / 10);
        out.push((48 + n % 10) as u8);
        assert(out@ =~= old(out)@ + dec_of(n as nat));
    }
}

/// Strict percent-decoding of a value slice.
pub(crate) fn pct_decode_exec(v: &[u8]) -> (r: Option<Vec<u8>>)
    ensures
        match r {
            Some(out) => pct_decode(v@) == Some(out@),
            None => pct_decode(v@) is None,
        },
{
    let mut out: Vec<u8> = Vec::new();
    let mut i: usize = 0;
    proof {
        assert(v@.skip(0) =~= v@);
        assert forall|r2: Seq<u8>| true implies Seq::<u8>::empty() + r2 =~= r2 by {}
    }
    while i < v.len()
        invariant
            i <= v@.len(),
            pct_decode(v@) == (match pct_decode(v@.skip(i as int)) {
                Some(r2) => Some(out@ + r2),
                None => None::<Seq<u8>>,
            }),
        decreases v@.len() - i,
    {
        let ghost sk = v@.skip(i as int);
        proof {
            assert(sk.len() == v@.len() - i);
            assert(sk[0] == v@[i as int]);
        }
        let b = v[i];
        if b == 37 {
            if v.len() - i < 3 {
                proof {
                    assert(sk.len() < 3);
                    assert(pct_decode(sk) is None);
                }
                return None;
            }
            let h1 = v[i + 1];
            let h2 = v[i + 2];
            proof {
                assert(sk[1] == v@[i + 1]);
                assert(sk[2] == v@[i + 2]);
            }
            let hex1 = (48 <= h1 && h1 <= 57) || (65 <= h1 && h1 <= 70) || (97 <= h1 && h1 <= 102);
            let hex2 = (48 <= h2 && h2 <= 57) || (65 <= h2 && h2 <= 70) || (97 <= h2 && h2 <= 102);
            if !hex1 || !hex2 {
                proof {
                    assert(pct_decode(sk) is None);
                }
                return None;
            }
            let x = hex_val_exec(h1) * 16 + hex_val_exec(h2);
            proof {
                assert(sk.skip(3) =~= v@.skip(i + 3));
                assert(pct_decode(sk) == (match pct_decode(v@.skip(i + 3)) {
                    Some(r3) => Some(seq![x] + r3),
                    None => None::<Seq<u8>>,
                }));
                assert forall|r3: Seq<u8>| true implies (out@ + (seq![x] + r3)) =~= (out@.push(x)
                    + r3) by {}
            }
            out.push(x);
            i += 3;
        } else if b == 43 {
            proof {
                assert(sk.drop_first() =~= v@.skip(i + 1));
                assert forall|r3: Seq<u8>| true implies (out@ + (seq![32u8] + r3)) =~= (out@.push(
                    32u8,
                ) + r3) by {}
            }
            out.push(32);
            i += 1;
        } else {
            proof {
                assert(sk.drop_first() =~= v@.skip(i + 1));
                assert forall|r3: Seq<u8>| true implies (out@ + (seq![b] + r3)) =~= (out@.push(b)
                    + r3) by {}
            }
            out.push(b);
            i += 1;
        }
    }
    proof {
        assert(v@.skip(v@.len() as int) =~= Seq::<u8>::empty());
        assert(pct_decode(v@) == Some(out@ + Seq::<u8>::empty()));
        assert(out@ + Seq::<u8>::empty() =~= out@);
    }
    Some(out)
}

} // verus!
