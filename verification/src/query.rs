//! The query-string form of a descriptor: a stable, field-ordered key/value
//! encoding (`src=...&option[r][w]=...`), a parser that takes the pairs in
//! any order and ignores unknown keys, and the proof that the parser inverts
//! the encoder on every descriptor.

use vstd::prelude::*;
use vstd::string::StringSliceAdditionalSpecFns;
use vstd::utf8::*;
use crate::codec::{
    dec_of, eq_bytes, find_amp, find_eq, find_eq_exec, is_digit, lemma_dec_of_digits,
    lemma_dec_round_trip, lemma_find_amp, lemma_find_amp_at, lemma_find_eq_at,
    lemma_pct_decode_plain, lemma_pct_encode_ascii, lemma_pct_round_trip, parse_dec,
    parse_dec_sat, pct_decode, pct_encode, push_all, sub_vec,
};
use crate::descriptor::{Blur, CachedImage, CachedImageOption, Resize};

verus! {

pub open spec fn lit_key_src() -> Seq<u8> {
    seq![115u8, 114u8, 99u8, 61u8]
}

pub open spec fn lit_rw() -> Seq<u8> {
    seq![38u8, 111u8, 112u8, 116u8, 105u8, 111u8, 110u8, 91u8, 114u8, 93u8, 91u8, 119u8, 93u8, 61u8]
}

pub open spec fn lit_rh() -> Seq<u8> {
    seq![38u8, 111u8, 112u8, 116u8, 105u8, 111u8, 110u8, 91u8, 114u8, 93u8, 91u8, 104u8, 93u8, 61u8]
}

pub open spec fn lit_rq() -> Seq<u8> {
    seq![38u8, 111u8, 112u8, 116u8, 105u8, 111u8, 110u8, 91u8, 114u8, 93u8, 91u8, 113u8, 93u8, 61u8]
}

pub open spec fn lit_bw() -> Seq<u8> {
    seq![38u8, 111u8, 112u8, 116u8, 105u8, 111u8, 110u8, 91u8, 98u8, 93u8, 91u8, 119u8, 93u8, 61u8]
}

pub open spec fn lit_bh() -> Seq<u8> {
    seq![38u8, 111u8, 112u8, 116u8, 105u8, 111u8, 110u8, 91u8, 98u8, 93u8, 91u8, 104u8, 93u8, 61u8]
}

pub open spec fn lit_bsw() -> Seq<u8> {
    seq![38u8, 111u8, 112u8, 116u8, 105u8, 111u8, 110u8, 91u8, 98u8, 93u8, 91u8, 115u8, 119u8, 93u8, 61u8]
}

pub open spec fn lit_bsh() -> Seq<u8> {
    seq![38u8, 111u8, 112u8, 116u8, 105u8, 111u8, 110u8, 91u8, 98u8, 93u8, 91u8, 115u8, 104u8, 93u8, 61u8]
}

pub open spec fn lit_bs() -> Seq<u8> {
    seq![38u8, 111u8, 112u8, 116u8, 105u8, 111u8, 110u8, 91u8, 98u8, 93u8, 91u8, 115u8, 93u8, 61u8]
}

/// The transform part of the query string, field tags in declaration order.
pub open spec fn tail_of(opt: CachedImageOption) -> Seq<u8> {
    match opt {
        CachedImageOption::Resize(r) => lit_rw() + dec_of(r.width as nat) + lit_rh() + dec_of(
            r.height as nat,
        ) + lit_rq() + dec_of(r.quality as nat),
        CachedImageOption::Blur(b) => lit_bw() + dec_of(b.width as nat) + lit_bh() + dec_of(
            b.height as nat,
        ) + lit_bsw() + dec_of(b.svg_width as nat) + lit_bsh() + dec_of(b.svg_height as nat)
            + lit_bs() + dec_of(b.sigma as nat),
    }
}

/// The full query string of a descriptor: `src=<value>` followed by the
/// transform fields; the source value is percent-encoded UTF-8.
pub open spec fn query_of(src: Seq<char>, opt: CachedImageOption) -> Seq<u8> {
    lit_key_src() + pct_encode(encode_utf8(src)) + tail_of(opt)
}

/// Bare key names of the query fields (the text left of `=`).
pub open spec fn key_src() -> Seq<u8> {
    seq![115u8, 114u8, 99u8]
}

pub open spec fn key_rw() -> Seq<u8> {
    lit_rw().subrange(1, 13)
}

pub open spec fn key_rh() -> Seq<u8> {
    lit_rh().subrange(1, 13)
}

pub open spec fn key_rq() -> Seq<u8> {
    lit_rq().subrange(1, 13)
}

pub open spec fn key_bw() -> Seq<u8> {
    lit_bw().subrange(1, 13)
}

pub open spec fn key_bh() -> Seq<u8> {
    lit_bh().subrange(1, 13)
}

pub open spec fn key_bsw() -> Seq<u8> {
    lit_bsw().subrange(1, 14)
}

pub open spec fn key_bsh() -> Seq<u8> {
    lit_bsh().subrange(1, 14)
}

pub open spec fn key_bs() -> Seq<u8> {
    lit_bs().subrange(1, 13)
}

/// What the pairs of a query have said so far, field by field; numbers stay
/// unbounded here and meet their range checks only at assembly.
pub struct QueryFields {
    pub src: Option<Seq<u8>>,
    pub rw: Option<nat>,
    pub rh: Option<nat>,
    pub rq: Option<nat>,
    pub bw: Option<nat>,
    pub bh: Option<nat>,
    pub bsw: Option<nat>,
    pub bsh: Option<nat>,
    pub bs: Option<nat>,
}

pub open spec fn empty_fields() -> QueryFields {
    QueryFields {
        src: None,
        rw: None,
        rh: None,
        rq: None,
        bw: None,
        bh: None,
        bsw: None,
        bsh: None,
        bs: None,
    }
}

/// A recognized field's numeric value: the percent-decoded text read as a
/// decimal number.
pub open spec fn num_val(raw: Seq<u8>) -> Option<nat> {
    match pct_decode(raw) {
        Some(v) => parse_dec(v),
        None => None,
    }
}

/// One `key=value` pair: a recognized key overwrites its field (so the last
/// occurrence wins), an unknown key is ignored, a malformed value of a
/// recognized key fails the parse, and a pair without `=` has an empty value.
pub open spec fn apply_pair(acc: QueryFields, pair: Seq<u8>) -> Option<QueryFields> {
    let eq = find_eq(pair, 0);
    let rawk = pair.subrange(0, eq);
    let rawv = if eq < pair.len() {
        pair.subrange(eq + 1, pair.len() as int)
    } else {
        Seq::<u8>::empty()
    };
    match pct_decode(rawk) {
        Some(k) => if k == key_src() {
            match pct_decode(rawv) {
                Some(v) => Some(QueryFields { src: Some(v), rw: acc.rw, rh: acc.rh, rq: acc.rq, bw: acc.bw, bh: acc.bh, bsw: acc.bsw, bsh: acc.bsh, bs: acc.bs }),
                None => None,
            }
        } else if k == key_rw() {
            match num_val(rawv) {
                Some(n) => Some(QueryFields { src: acc.src, rw: Some(n), rh: acc.rh, rq: acc.rq, bw: acc.bw, bh: acc.bh, bsw: acc.bsw, bsh: acc.bsh, bs: acc.bs }),
                None => None,
            }
        } else if k == key_rh() {
            match num_val(rawv) {
                Some(n) => Some(QueryFields { src: acc.src, rw: acc.rw, rh: Some(n), rq: acc.rq, bw: acc.bw, bh: acc.bh, bsw: acc.bsw, bsh: acc.bsh, bs: acc.bs }),
                None => None,
            }
        } else if k == key_rq() {
            match num_val(rawv) {
                Some(n) => Some(QueryFields { src: acc.src, rw: acc.rw, rh: acc.rh, rq: Some(n), bw: acc.bw, bh: acc.bh, bsw: acc.bsw, bsh: acc.bsh, bs: acc.bs }),
                None => None,
            }
        } else if k == key_bw() {
            match num_val(rawv) {
                Some(n) => Some(QueryFields { src: acc.src, rw: acc.rw, rh: acc.rh, rq: acc.rq, bw: Some(n), bh: acc.bh, bsw: acc.bsw, bsh: acc.bsh, bs: acc.bs }),
                None => None,
            }
        } else if k == key_bh() {
            match num_val(rawv) {
                Some(n) => Some(QueryFields { src: acc.src, rw: acc.rw, rh: acc.rh, rq: acc.rq, bw: acc.bw, bh: Some(n), bsw: acc.bsw, bsh: acc.bsh, bs: acc.bs }),
                None => None,
            }
        } else if k == key_bsw() {
            match num_val(rawv) {
                Some(n) => Some(QueryFields { src: acc.src, rw: acc.rw, rh: acc.rh, rq: acc.rq, bw: acc.bw, bh: acc.bh, bsw: Some(n), bsh: acc.bsh, bs: acc.bs }),
                None => None,
            }
        } else if k == key_bsh() {
            match num_val(rawv) {
                Some(n) => Some(QueryFields { src: acc.src, rw: acc.rw, rh: acc.rh, rq: acc.rq, bw: acc.bw, bh: acc.bh, bsw: acc.bsw, bsh: Some(n), bs: acc.bs }),
                None => None,
            }
        } else if k == key_bs() {
            match num_val(rawv) {
                Some(n) => Some(QueryFields { src: acc.src, rw: acc.rw, rh: acc.rh, rq: acc.rq, bw: acc.bw, bh: acc.bh, bsw: acc.bsw, bsh: acc.bsh, bs: Some(n) }),
                None => None,
            }
        } else {
            Some(acc)
        },
        None => None,
    }
}

/// Folds every `&`-separated pair of the query into the field record, in any
/// order the caller sent them.
pub open spec fn fold_pairs(q: Seq<u8>, from: int, acc: QueryFields) -> Option<QueryFields>
    decreases q.len() - from,
    when 0 <= from <= q.len()
    via fold_pairs_decreases
{
    let j = find_amp(q, from);
    let pair = q.subrange(from, j);
    match apply_pair(acc, pair) {
        Some(a2) => if j >= q.len() {
            Some(a2)
        } else {
            fold_pairs(q, j + 1, a2)
        },
        None => None,
    }
}

#[via_fn]
proof fn fold_pairs_decreases(q: Seq<u8>, from: int, acc: QueryFields) {
    lemma_find_amp(q, from);
}

/// Builds the descriptor from the collected fields: the source must be
/// present, exactly one variant's fields may appear, that variant must be
/// complete, and every number must fit its field.
pub open spec fn assemble(acc: QueryFields) -> Option<(Seq<u8>, CachedImageOption)> {
    match acc.src {
        Some(sb) => {
            let anyr = acc.rw is Some || acc.rh is Some || acc.rq is Some;
            let anyb = acc.bw is Some || acc.bh is Some || acc.bsw is Some || acc.bsh is Some
                || acc.bs is Some;
            if anyr && !anyb {
                match (acc.rw, acc.rh, acc.rq) {
                    (Some(w), Some(h), Some(qv)) => if w <= u32::MAX as nat && h <= u32::MAX as nat
                        && qv <= u8::MAX as nat {
                        Some(
                            (
                                sb,
                                CachedImageOption::Resize(
                                    Resize { width: w as u32, height: h as u32, quality: qv as u8 },
                                ),
                            ),
                        )
                    } else {
                        None
                    },
                    _ => None,
                }
            } else if anyb && !anyr {
                match (acc.bw, acc.bh, acc.bsw, acc.bsh, acc.bs) {
                    (Some(w), Some(h), Some(sw), Some(sh), Some(sg)) => if w <= u32::MAX as nat
                        && h <= u32::MAX as nat && sw <= u32::MAX as nat && sh <= u32::MAX as nat
                        && sg <= u8::MAX as nat {
                        Some(
                            (
                                sb,
                                CachedImageOption::Blur(
                                    Blur {
                                        width: w as u32,
                                        height: h as u32,
                                        svg_width: sw as u32,
                                        svg_height: sh as u32,
                                        sigma: sg as u8,
                                    },
                                ),
                            ),
                        )
                    } else {
                        None
                    },
                    _ => None,
                }
            } else {
                None
            }
        },
        None => None,
    }
}

/// A byte that may stand in a key without escaping or structure: none of
/// `% + = &`.
pub open spec fn plain_key_byte(b: u8) -> bool {
    b != 37 && b != 43 && b != 61 && b != 38
}

/// The nine keys: their lengths, their plain bytes, and their pairwise
/// distinctness (same-length keys differ at a known slot; the rest differ in
/// length).
pub proof fn lemma_key_facts()
    ensures
        key_src().len() == 3,
        key_rw().len() == 12,
        key_rh().len() == 12,
        key_rq().len() == 12,
        key_bw().len() == 12,
        key_bh().len() == 12,
        key_bsw().len() == 13,
        key_bsh().len() == 13,
        key_bs().len() == 12,
        forall|i: int| 0 <= i < key_src().len() ==> plain_key_byte(#[trigger] key_src()[i]),
        forall|i: int| 0 <= i < key_rw().len() ==> plain_key_byte(#[trigger] key_rw()[i]),
        forall|i: int| 0 <= i < key_rh().len() ==> plain_key_byte(#[trigger] key_rh()[i]),
        forall|i: int| 0 <= i < key_rq().len() ==> plain_key_byte(#[trigger] key_rq()[i]),
        forall|i: int| 0 <= i < key_bw().len() ==> plain_key_byte(#[trigger] key_bw()[i]),
        forall|i: int| 0 <= i < key_bh().len() ==> plain_key_byte(#[trigger] key_bh()[i]),
        forall|i: int| 0 <= i < key_bsw().len() ==> plain_key_byte(#[trigger] key_bsw()[i]),
        forall|i: int| 0 <= i < key_bsh().len() ==> plain_key_byte(#[trigger] key_bsh()[i]),
        forall|i: int| 0 <= i < key_bs().len() ==> plain_key_byte(#[trigger] key_bs()[i]),
        key_rw() != key_rh(),
        key_rw() != key_rq(),
        key_rh() != key_rq(),
        key_rw() != key_bw(),
        key_rw() != key_bh(),
        key_rw() != key_bs(),
        key_rh() != key_bw(),
        key_rh() != key_bh(),
        key_rh() != key_bs(),
        key_rq() != key_bw(),
        key_rq() != key_bh(),
        key_rq() != key_bs(),
        key_bw() != key_bh(),
        key_bw() != key_bs(),
        key_bh() != key_bs(),
        key_bsw() != key_bsh(),
{
    assert forall|i: int| 0 <= i < key_rw().len() implies plain_key_byte(#[trigger] key_rw()[i]) by {
        assert(key_rw()[i] == lit_rw()[i + 1]);
    }
    assert forall|i: int| 0 <= i < key_rh().len() implies plain_key_byte(#[trigger] key_rh()[i]) by {
        assert(key_rh()[i] == lit_rh()[i + 1]);
    }
    assert forall|i: int| 0 <= i < key_rq().len() implies plain_key_byte(#[trigger] key_rq()[i]) by {
        assert(key_rq()[i] == lit_rq()[i + 1]);
    }
    assert forall|i: int| 0 <= i < key_bw().len() implies plain_key_byte(#[trigger] key_bw()[i]) by {
        assert(key_bw()[i] == lit_bw()[i + 1]);
    }
    assert forall|i: int| 0 <= i < key_bh().len() implies plain_key_byte(#[trigger] key_bh()[i]) by {
        assert(key_bh()[i] == lit_bh()[i + 1]);
    }
    assert forall|i: int| 0 <= i < key_bsw().len() implies plain_key_byte(#[trigger] key_bsw()[i]) by {
        assert(key_bsw()[i] == lit_bsw()[i + 1]);
    }
    assert forall|i: int| 0 <= i < key_bsh().len() implies plain_key_byte(#[trigger] key_bsh()[i]) by {
        assert(key_bsh()[i] == lit_bsh()[i + 1]);
    }
    assert forall|i: int| 0 <= i < key_bs().len() implies plain_key_byte(#[trigger] key_bs()[i]) by {
        assert(key_bs()[i] == lit_bs()[i + 1]);
    }
    assert(key_rw() != key_rh()) by {
        assert(key_rw()[10] == lit_rw()[11]);
        assert(key_rh()[10] == lit_rh()[11]);
    }
    assert(key_rw() != key_rq()) by {
        assert(key_rw()[10] == lit_rw()[11]);
        assert(key_rq()[10] == lit_rq()[11]);
    }
    assert(key_rh() != key_rq()) by {
        assert(key_rh()[10] == lit_rh()[11]);
        assert(key_rq()[10] == lit_rq()[11]);
    }
    assert(key_rw() != key_bw()) by {
        assert(key_rw()[7] == lit_rw()[8]);
        assert(key_bw()[7] == lit_bw()[8]);
    }
    assert(key_rw() != key_bh()) by {
        assert(key_rw()[7] == lit_rw()[8]);
        assert(key_bh()[7] == lit_bh()[8]);
    }
    assert(key_rw() != key_bs()) by {
        assert(key_rw()[7] == lit_rw()[8]);
        assert(key_bs()[7] == lit_bs()[8]);
    }
    assert(key_rh() != key_bw()) by {
        assert(key_rh()[7] == lit_rh()[8]);
        assert(key_bw()[7] == lit_bw()[8]);
    }
    assert(key_rh() != key_bh()) by {
        assert(key_rh()[7] == lit_rh()[8]);
        assert(key_bh()[7] == lit_bh()[8]);
    }
    assert(key_rh() != key_bs()) by {
        assert(key_rh()[7] == lit_rh()[8]);
        assert(key_bs()[7] == lit_bs()[8]);
    }
    assert(key_rq() != key_bw()) by {
        assert(key_rq()[7] == lit_rq()[8]);
        assert(key_bw()[7] == lit_bw()[8]);
    }
    assert(key_rq() != key_bh()) by {
        assert(key_rq()[7] == lit_rq()[8]);
        assert(key_bh()[7] == lit_bh()[8]);
    }
    assert(key_rq() != key_bs()) by {
        assert(key_rq()[7] == lit_rq()[8]);
        assert(key_bs()[7] == lit_bs()[8]);
    }
    assert(key_bw() != key_bh()) by {
        assert(key_bw()[10] == lit_bw()[11]);
        assert(key_bh()[10] == lit_bh()[11]);
    }
    assert(key_bw() != key_bs()) by {
        assert(key_bw()[10] == lit_bw()[11]);
        assert(key_bs()[10] == lit_bs()[11]);
    }
    assert(key_bh() != key_bs()) by {
        assert(key_bh()[10] == lit_bh()[11]);
        assert(key_bs()[10] == lit_bs()[11]);
    }
    assert(key_bsw() != key_bsh()) by {
        assert(key_bsw()[11] == lit_bsw()[12]);
        assert(key_bsh()[11] == lit_bsh()[12]);
    }
}

/// Which field a recognized numeric key sets.
pub open spec fn set_num_field(acc: QueryFields, k: Seq<u8>, n: nat) -> QueryFields {
    if k == key_rw() {
        QueryFields { src: acc.src, rw: Some(n), rh: acc.rh, rq: acc.rq, bw: acc.bw, bh: acc.bh, bsw: acc.bsw, bsh: acc.bsh, bs: acc.bs }
    } else if k == key_rh() {
        QueryFields { src: acc.src, rw: acc.rw, rh: Some(n), rq: acc.rq, bw: acc.bw, bh: acc.bh, bsw: acc.bsw, bsh: acc.bsh, bs: acc.bs }
    } else if k == key_rq() {
        QueryFields { src: acc.src, rw: acc.rw, rh: acc.rh, rq: Some(n), bw: acc.bw, bh: acc.bh, bsw: acc.bsw, bsh: acc.bsh, bs: acc.bs }
    } else if k == key_bw() {
        QueryFields { src: acc.src, rw: acc.rw, rh: acc.rh, rq: acc.rq, bw: Some(n), bh: acc.bh, bsw: acc.bsw, bsh: acc.bsh, bs: acc.bs }
    } else if k == key_bh() {
        QueryFields { src: acc.src, rw: acc.rw, rh: acc.rh, rq: acc.rq, bw: acc.bw, bh: Some(n), bsw: acc.bsw, bsh: acc.bsh, bs: acc.bs }
    } else if k == key_bsw() {
        QueryFields { src: acc.src, rw: acc.rw, rh: acc.rh, rq: acc.rq, bw: acc.bw, bh: acc.bh, bsw: Some(n), bsh: acc.bsh, bs: acc.bs }
    } else if k == key_bsh() {
        QueryFields { src: acc.src, rw: acc.rw, rh: acc.rh, rq: acc.rq, bw: acc.bw, bh: acc.bh, bsw: acc.bsw, bsh: Some(n), bs: acc.bs }
    } else if k == key_bs() {
        QueryFields { src: acc.src, rw: acc.rw, rh: acc.rh, rq: acc.rq, bw: acc.bw, bh: acc.bh, bsw: acc.bsw, bsh: acc.bsh, bs: Some(n) }
    } else {
        acc
    }
}

pub open spec fn is_num_key(k: Seq<u8>) -> bool {
    k == key_rw() || k == key_rh() || k == key_rq() || k == key_bw() || k == key_bh() || k
        == key_bsw() || k == key_bsh() || k == key_bs()
}

/// Applying a canonical `key=<digits>` pair sets exactly that key's field.
pub proof fn lemma_apply_pair_num(acc: QueryFields, key: Seq<u8>, n: nat)
    requires
        is_num_key(key),
    ensures
        apply_pair(acc, key + seq![61u8] + dec_of(n)) == Some(set_num_field(acc, key, n)),
{
    lemma_key_facts();
    lemma_dec_of_digits(n);
    lemma_dec_round_trip(n);
    let d = dec_of(n);
    let pair = key + seq![61u8] + d;
    assert forall|i: int| 0 <= i < key.len() implies pair[i] != 61 by {
        assert(pair[i] == key[i]);
        assert(plain_key_byte(key[i]));
    }
    assert(pair[key.len() as int] == 61);
    lemma_find_eq_at(pair, 0, key.len() as int);
    assert(pair.subrange(0, key.len() as int) =~= key);
    assert forall|i: int| 0 <= i < key.len() implies key[i] != 37 && #[trigger] key[i] != 43 by {
        assert(plain_key_byte(key[i]));
    }
    lemma_pct_decode_plain(key);
    assert(pair.len() > key.len());
    assert(pair.subrange(key.len() as int + 1, pair.len() as int) =~= d);
    assert forall|i: int| 0 <= i < d.len() implies d[i] != 37 && #[trigger] d[i] != 43 by {
        assert(is_digit(d[i]));
    }
    lemma_pct_decode_plain(d);
    assert(num_val(d) == Some(n));
    assert(key != key_src());
}

/// Applying the canonical `src=<value>` pair sets the source field.
pub proof fn lemma_apply_pair_src(acc: QueryFields, src: Seq<char>)
    ensures
        apply_pair(acc, key_src() + seq![61u8] + pct_encode(encode_utf8(src))) == Some(
            QueryFields { src: Some(encode_utf8(src)), rw: acc.rw, rh: acc.rh, rq: acc.rq, bw: acc.bw, bh: acc.bh, bsw: acc.bsw, bsh: acc.bsh, bs: acc.bs },
        ),
{
    lemma_key_facts();
    lemma_pct_encode_ascii(encode_utf8(src));
    let p = pct_encode(encode_utf8(src));
    let pair = key_src() + seq![61u8] + p;
    assert forall|i: int| 0 <= i < 3 implies pair[i] != 61 by {
        assert(pair[i] == key_src()[i]);
        assert(plain_key_byte(key_src()[i]));
    }
    assert(pair[3] == 61);
    lemma_find_eq_at(pair, 0, 3);
    assert(pair.subrange(0, 3) =~= key_src());
    assert forall|i: int| 0 <= i < key_src().len() implies key_src()[i] != 37 && #[trigger] key_src()[i]
        != 43 by {
        assert(plain_key_byte(key_src()[i]));
    }
    lemma_pct_decode_plain(key_src());
    assert(pair.len() > 3);
    assert(pair.subrange(4, pair.len() as int) =~= p);
    lemma_pct_round_trip(encode_utf8(src));
}

/// Peels one `&`-free pair off the front of the remaining query.
pub proof fn lemma_fold_step(q: Seq<u8>, from: int, acc: QueryFields, pair: Seq<u8>, rest: Seq<u8>)
    requires
        0 <= from <= q.len(),
        q.subrange(from, q.len() as int) == pair + rest,
        forall|i: int| 0 <= i < pair.len() ==> (#[trigger] pair[i]) != 38,
        rest.len() == 0 || rest[0] == 38,
    ensures
        find_amp(q, from) == from + pair.len(),
        q.subrange(from, from + pair.len()) =~= pair,
        fold_pairs(q, from, acc) == (match apply_pair(acc, pair) {
            Some(a2) => if from + pair.len() >= q.len() {
                Some(a2)
            } else {
                fold_pairs(q, from + pair.len() + 1, a2)
            },
            None => None,
        }),
        q.subrange(from + pair.len(), q.len() as int) =~= rest,
{
    let w = pair + rest;
    assert(q.len() - from == w.len());
    assert forall|k: int| from <= k < q.len() implies q[k] == w[k - from] by {
        assert(q.subrange(from, q.len() as int)[k - from] == q[k]);
    }
    let e = from + pair.len();
    assert forall|k: int| from <= k < e implies q[k] != 38 by {
        assert(q[k] == pair[k - from]);
    }
    if rest.len() == 0 {
        assert(e == q.len());
    } else {
        assert(q[e] == rest[0]);
    }
    lemma_find_amp_at(q, from, e);
    assert(q.subrange(from, e) =~= pair);
    assert(q.subrange(e, q.len() as int) =~= rest);
}

/// The parser: key/value pairs in any order, unknown keys ignored, the
/// percent-decoded source must be valid UTF-8, and exactly one transform's
/// fields must be present and complete.
pub open spec fn parse_query(q: Seq<u8>) -> Option<(Seq<char>, CachedImageOption)> {
    match fold_pairs(q, 0, empty_fields()) {
        Some(acc) => match assemble(acc) {
            Some((sb, opt)) => if valid_utf8(sb) {
                Some((decode_utf8(sb), opt))
            } else {
                None
            },
            None => None,
        },
        None => None,
    }
}

/// What remains of a lookup URL after the last `?`; the whole input when it
/// has none.
pub open spec fn strip_to_query(s: Seq<u8>) -> Seq<u8>
    decreases s.len(),
{
    if s.len() == 0 {
        s
    } else if s.last() == 63 {
        Seq::empty()
    } else {
        strip_to_query(s.drop_last()).push(s.last())
    }
}

/// A query string (which never holds a `?`) survives the strip unchanged,
/// also behind any `?`-terminated prefix.
pub proof fn lemma_strip_no_mark(s: Seq<u8>)
    requires
        forall|i: int| 0 <= i < s.len() ==> s[i] != 63,
    ensures
        strip_to_query(s) == s,
    decreases s.len(),
{
    if s.len() > 0 {
        lemma_strip_no_mark(s.drop_last());
        assert(strip_to_query(s.drop_last()).push(s.last()) =~= s);
    }
}

pub proof fn lemma_strip_after_mark(p: Seq<u8>, s: Seq<u8>)
    requires
        forall|i: int| 0 <= i < s.len() ==> s[i] != 63,
    ensures
        strip_to_query(p.push(63u8) + s) == s,
    decreases s.len(),
{
    let w = p.push(63u8) + s;
    if s.len() == 0 {
        assert(w =~= p.push(63u8));
        assert(w.last() == 63);
        assert(strip_to_query(w) =~= s);
    } else {
        lemma_strip_after_mark(p, s.drop_last());
        assert(w.last() == s.last());
        assert(w.last() != 63);
        assert(w.drop_last() =~= p.push(63u8) + s.drop_last());
        assert(strip_to_query(w) == strip_to_query(w.drop_last()).push(s.last()));
        assert(s.drop_last().push(s.last()) =~= s);
    }
}

pub open spec fn is_ascii_bytes(s: Seq<u8>) -> bool {
    forall|i: int| 0 <= i < s.len() ==> #[trigger] s[i] < 128
}

/// All-ASCII byte sequences are valid UTF-8.
pub proof fn lemma_ascii_valid_utf8(s: Seq<u8>)
    requires
        is_ascii_bytes(s),
    ensures
        valid_utf8(s),
{
    assert(partial_valid_utf8(s, 0)) by {
        assert(s.subrange(0, 0) =~= Seq::<u8>::empty());
        reveal_with_fuel(valid_utf8, 1);
    }
    assert forall|i: int| 0 <= 0 <= i < s.len() <= s.len() implies #[trigger] is_leading_byte_width_1(
        s[i],
    ) by {
        assert(s[i] < 128);
    }
    partial_valid_utf8_extend_ascii_block(s, 0, s.len() as int);
    assert(s.subrange(0, s.len() as int) =~= s);
}

/// The whole encoded query is ASCII and free of `?`.
pub proof fn lemma_query_ascii(src: Seq<char>, opt: CachedImageOption)
    ensures
        is_ascii_bytes(query_of(src, opt)),
        forall|i: int|
            0 <= i < query_of(src, opt).len() ==> #[trigger] query_of(src, opt)[i] != 63
                && query_of(src, opt)[i] < 127,
{
    let l = lit_key_src();
    let p = pct_encode(encode_utf8(src));
    let t = tail_of(opt);
    let q = query_of(src, opt);
    lemma_pct_encode_ascii(encode_utf8(src));
    lemma_tail_bytes(opt);
    assert forall|i: int| 0 <= i < q.len() implies #[trigger] q[i] < 127 && q[i] != 63 by {
        if i < 4 {
            assert(q[i] == l[i]);
        } else if i < 4 + p.len() {
            assert(q[i] == p[i - 4]);
        } else {
            assert(q[i] == t[i - 4 - p.len()]);
        }
    }
}

/// Every byte of a transform tail is ASCII, not `?`; the first is `&`.
pub proof fn lemma_tail_bytes(opt: CachedImageOption)
    ensures
        tail_of(opt).len() > 0,
        tail_of(opt)[0] == 38,
        forall|i: int|
            0 <= i < tail_of(opt).len() ==> #[trigger] tail_of(opt)[i] < 127 && tail_of(opt)[i]
                != 63,
{
    let t = tail_of(opt);
    match opt {
        CachedImageOption::Resize(r) => {
            lemma_dec_of_digits(r.width as nat);
            lemma_dec_of_digits(r.height as nat);
            lemma_dec_of_digits(r.quality as nat);
            let d1 = dec_of(r.width as nat);
            let d2 = dec_of(r.height as nat);
            let d3 = dec_of(r.quality as nat);
            assert(t[0] == lit_rw()[0]);
            assert forall|i: int| 0 <= i < t.len() implies #[trigger] t[i] < 127 && t[i] != 63 by {
                let a1 = lit_rw().len() as int;
                let a2 = a1 + d1.len();
                let a3 = a2 + lit_rh().len();
                let a4 = a3 + d2.len();
                let a5 = a4 + lit_rq().len();
                if i < a1 {
                    assert(t[i] == lit_rw()[i]);
                } else if i < a2 {
                    assert(t[i] == d1[i - a1]);
                } else if i < a3 {
                    assert(t[i] == lit_rh()[i - a2]);
                } else if i < a4 {
                    assert(t[i] == d2[i - a3]);
                } else if i < a5 {
                    assert(t[i] == lit_rq()[i - a4]);
                } else {
                    assert(t[i] == d3[i - a5]);
                }
            }
        },
        CachedImageOption::Blur(b) => {
            lemma_dec_of_digits(b.width as nat);
            lemma_dec_of_digits(b.height as nat);
            lemma_dec_of_digits(b.svg_width as nat);
            lemma_dec_of_digits(b.svg_height as nat);
            lemma_dec_of_digits(b.sigma as nat);
            let d1 = dec_of(b.width as nat);
            let d2 = dec_of(b.height as nat);
            let d3 = dec_of(b.svg_width as nat);
            let d4 = dec_of(b.svg_height as nat);
            let d5 = dec_of(b.sigma as nat);
            assert(t[0] == lit_bw()[0]);
            assert forall|i: int| 0 <= i < t.len() implies #[trigger] t[i] < 127 && t[i] != 63 by {
                let a1 = lit_bw().len() as int;
                let a2 = a1 + d1.len();
                let a3 = a2 + lit_bh().len();
                let a4 = a3 + d2.len();
                let a5 = a4 + lit_bsw().len();
                let a6 = a5 + d3.len();
                let a7 = a6 + lit_bsh().len();
                let a8 = a7 + d4.len();
                let a9 = a8 + lit_bs().len();
                if i < a1 {
                    assert(t[i] == lit_bw()[i]);
                } else if i < a2 {
                    assert(t[i] == d1[i - a1]);
                } else if i < a3 {
                    assert(t[i] == lit_bh()[i - a2]);
                } else if i < a4 {
                    assert(t[i] == d2[i - a3]);
                } else if i < a5 {
                    assert(t[i] == lit_bsw()[i - a4]);
                } else if i < a6 {
                    assert(t[i] == d3[i - a5]);
                } else if i < a7 {
                    assert(t[i] == lit_bsh()[i - a6]);
                } else if i < a8 {
                    assert(t[i] == d4[i - a7]);
                } else if i < a9 {
                    assert(t[i] == lit_bs()[i - a8]);
                } else {
                    assert(t[i] == d5[i - a9]);
                }
            }
        },
    }
}

/// The round trip: parsing the encoding of any descriptor gives the
/// descriptor back, field for field.
#[verifier::rlimit(100)]
#[verifier::spinoff_prover]
pub proof fn lemma_query_round_trip(src: Seq<char>, opt: CachedImageOption)
    ensures
        parse_query(query_of(src, opt)) == Some((src, opt)),
{
    let p = pct_encode(encode_utf8(src));
    let t = tail_of(opt);
    let q = query_of(src, opt);
    let pair0 = key_src() + seq![61u8] + p;
    lemma_pct_encode_ascii(encode_utf8(src));
    lemma_key_facts();
    lemma_tail_bytes(opt);
    assert(lit_key_src() =~= key_src() + seq![61u8]);
    assert(q.subrange(0, q.len() as int) =~= pair0 + t);
    assert forall|i: int| 0 <= i < pair0.len() implies (#[trigger] pair0[i]) != 38 by {
        if i < 3 {
            assert(pair0[i] == key_src()[i]);
            assert(plain_key_byte(key_src()[i]));
        } else if i > 3 {
            assert(pair0[i] == p[i - 4]);
        }
    }
    lemma_fold_step(q, 0, empty_fields(), pair0, t);
    lemma_apply_pair_src(empty_fields(), src);
    let acc1 = QueryFields { src: Some(encode_utf8(src)), rw: None, rh: None, rq: None, bw: None, bh: None, bsw: None, bsh: None, bs: None };
    assert(apply_pair(empty_fields(), pair0) == Some(acc1));
    let at = pair0.len() as int;
    assert(q.subrange(at, q.len() as int) =~= t);
    assert(at < q.len());
    encode_utf8_valid_utf8(src);
    encode_utf8_decode_utf8(src);
    match opt {
        CachedImageOption::Resize(r) => {
            lemma_resize_fold(q, at, acc1, encode_utf8(src), r);
            let accn = QueryFields { src: Some(encode_utf8(src)), rw: Some(r.width as nat), rh: Some(r.height as nat), rq: Some(r.quality as nat), bw: None, bh: None, bsw: None, bsh: None, bs: None };
            assert(fold_pairs(q, 0, empty_fields()) == Some(accn));
            assert(assemble(accn) == Some(
                (
                    encode_utf8(src),
                    CachedImageOption::Resize(
                        Resize {
                            width: (r.width as nat) as u32,
                            height: (r.height as nat) as u32,
                            quality: (r.quality as nat) as u8,
                        },
                    ),
                ),
            ));
            assert((r.width as nat) as u32 == r.width);
        },
        CachedImageOption::Blur(b) => {
            lemma_blur_fold(q, at, acc1, encode_utf8(src), b);
            let accn = QueryFields { src: Some(encode_utf8(src)), rw: None, rh: None, rq: None, bw: Some(b.width as nat), bh: Some(b.height as nat), bsw: Some(b.svg_width as nat), bsh: Some(b.svg_height as nat), bs: Some(b.sigma as nat) };
            assert(fold_pairs(q, 0, empty_fields()) == Some(accn));
            assert(assemble(accn) == Some(
                (
                    encode_utf8(src),
                    CachedImageOption::Blur(
                        Blur {
                            width: (b.width as nat) as u32,
                            height: (b.height as nat) as u32,
                            svg_width: (b.svg_width as nat) as u32,
                            svg_height: (b.svg_height as nat) as u32,
                            sigma: (b.sigma as nat) as u8,
                        },
                    ),
                ),
            ));
            assert((b.width as nat) as u32 == b.width);
        },
    }
}

#[verifier::rlimit(100)]
#[verifier::spinoff_prover]
proof fn lemma_resize_fold(q: Seq<u8>, at: int, acc1: QueryFields, sb: Seq<u8>, r: Resize)
    requires
        0 <= at < q.len(),
        q.subrange(at, q.len() as int) == tail_of(CachedImageOption::Resize(r)),
        acc1 == (QueryFields { src: Some(sb), rw: None, rh: None, rq: None, bw: None, bh: None, bsw: None, bsh: None, bs: None }),
    ensures
        fold_pairs(q, at + 1, acc1) == Some(QueryFields { src: Some(sb), rw: Some(r.width as nat), rh: Some(r.height as nat), rq: Some(r.quality as nat), bw: None, bh: None, bsw: None, bsh: None, bs: None }),
{
    lemma_key_facts();
    let d1 = dec_of(r.width as nat);
    lemma_dec_of_digits(r.width as nat);
    let d2 = dec_of(r.height as nat);
    lemma_dec_of_digits(r.height as nat);
    let d3 = dec_of(r.quality as nat);
    lemma_dec_of_digits(r.quality as nat);
    let p1 = key_rw() + seq![61u8] + d1;
    let p2 = key_rh() + seq![61u8] + d2;
    let p3 = key_rq() + seq![61u8] + d3;
    assert(lit_rw() =~= seq![38u8] + key_rw() + seq![61u8]);
    assert(lit_rh() =~= seq![38u8] + key_rh() + seq![61u8]);
    assert(lit_rq() =~= seq![38u8] + key_rq() + seq![61u8]);
    let rest1 = seq![38u8] + p2 + seq![38u8] + p3;
    let rest2 = seq![38u8] + p3;
    let acc2 = QueryFields { src: Some(sb), rw: Some(r.width as nat), rh: None, rq: None, bw: None, bh: None, bsw: None, bsh: None, bs: None };
    let acc3 = QueryFields { src: Some(sb), rw: Some(r.width as nat), rh: Some(r.height as nat), rq: None, bw: None, bh: None, bsw: None, bsh: None, bs: None };
    let acc4 = QueryFields { src: Some(sb), rw: Some(r.width as nat), rh: Some(r.height as nat), rq: Some(r.quality as nat), bw: None, bh: None, bsw: None, bsh: None, bs: None };
    let t = tail_of(CachedImageOption::Resize(r));
    assert(t =~= seq![38u8] + p1 + seq![38u8] + p2 + seq![38u8] + p3);
    assert(q.subrange(at + 1, q.len() as int) =~= p1 + rest1) by {
        assert forall|m: int| 0 <= m < q.len() - (at + 1) implies #[trigger] q.subrange(at + 1, q.len() as int)[m]
            == (p1 + rest1)[m] by {
            assert(q.subrange(at + 1, q.len() as int)[m] == q[at + 1 + m]);
            assert(q.subrange(at, q.len() as int)[at + 1 + m - (at)] == q[at + 1 + m]);
        }
    }
    assert forall|m: int| 0 <= m < p1.len() implies (#[trigger] p1[m]) != 38 by {
        if m < key_rw().len() {
            assert(p1[m] == key_rw()[m]);
            assert(plain_key_byte(key_rw()[m]));
        } else if m > key_rw().len() {
            assert(p1[m] == d1[m - key_rw().len() - 1]);
            assert(is_digit(d1[m - key_rw().len() - 1]));
        }
    }
    lemma_fold_step(q, at + 1, acc1, p1, rest1);
    lemma_apply_pair_num(acc1, key_rw(), r.width as nat);
    assert(set_num_field(acc1, key_rw(), r.width as nat) == acc2);
    let a1 = at + 1 + p1.len();
    assert(q.subrange(a1, q.len() as int) =~= rest1);
    assert(q.subrange(a1 + 1, q.len() as int) =~= p2 + rest2) by {
        assert forall|m: int| 0 <= m < q.len() - (a1 + 1) implies #[trigger] q.subrange(a1 + 1, q.len() as int)[m]
            == (p2 + rest2)[m] by {
            assert(q.subrange(a1 + 1, q.len() as int)[m] == q[a1 + 1 + m]);
            assert(q.subrange(a1, q.len() as int)[a1 + 1 + m - (a1)] == q[a1 + 1 + m]);
        }
    }
    assert forall|m: int| 0 <= m < p2.len() implies (#[trigger] p2[m]) != 38 by {
        if m < key_rh().len() {
            assert(p2[m] == key_rh()[m]);
            assert(plain_key_byte(key_rh()[m]));
        } else if m > key_rh().len() {
            assert(p2[m] == d2[m - key_rh().len() - 1]);
            assert(is_digit(d2[m - key_rh().len() - 1]));
        }
    }
    lemma_fold_step(q, a1 + 1, acc2, p2, rest2);
    lemma_apply_pair_num(acc2, key_rh(), r.height as nat);
    assert(set_num_field(acc2, key_rh(), r.height as nat) == acc3);
    let a2 = a1 + 1 + p2.len();
    assert(q.subrange(a2, q.len() as int) =~= rest2);
    assert(q.subrange(a2 + 1, q.len() as int) =~= p3 + Seq::<u8>::empty()) by {
        assert forall|m: int| 0 <= m < q.len() - (a2 + 1) implies #[trigger] q.subrange(a2 + 1, q.len() as int)[m]
            == (p3 + Seq::<u8>::empty())[m] by {
            assert(q.subrange(a2 + 1, q.len() as int)[m] == q[a2 + 1 + m]);
            assert(q.subrange(a2, q.len() as int)[a2 + 1 + m - (a2)] == q[a2 + 1 + m]);
        }
    }
    assert(p3 + Seq::<u8>::empty() =~= p3);
    assert forall|m: int| 0 <= m < p3.len() implies (#[trigger] p3[m]) != 38 by {
        if m < key_rq().len() {
            assert(p3[m] == key_rq()[m]);
            assert(plain_key_byte(key_rq()[m]));
        } else if m > key_rq().len() {
            assert(p3[m] == d3[m - key_rq().len() - 1]);
            assert(is_digit(d3[m - key_rq().len() - 1]));
        }
    }
    lemma_fold_step(q, a2 + 1, acc3, p3, Seq::<u8>::empty());
    lemma_apply_pair_num(acc3, key_rq(), r.quality as nat);
    assert(set_num_field(acc3, key_rq(), r.quality as nat) == acc4);
    let a3 = a2 + 1 + p3.len();
    assert(q.subrange(a3, q.len() as int) =~= Seq::<u8>::empty());
    assert(a3 == q.len());
}

#[verifier::rlimit(100)]
#[verifier::spinoff_prover]
proof fn lemma_blur_fold(q: Seq<u8>, at: int, acc1: QueryFields, sb: Seq<u8>, b: Blur)
    requires
        0 <= at < q.len(),
        q.subrange(at, q.len() as int) == tail_of(CachedImageOption::Blur(b)),
        acc1 == (QueryFields { src: Some(sb), rw: None, rh: None, rq: None, bw: None, bh: None, bsw: None, bsh: None, bs: None }),
    ensures
        fold_pairs(q, at + 1, acc1) == Some(QueryFields { src: Some(sb), rw: None, rh: None, rq: None, bw: Some(b.width as nat), bh: Some(b.height as nat), bsw: Some(b.svg_width as nat), bsh: Some(b.svg_height as nat), bs: Some(b.sigma as nat) }),
{
    lemma_key_facts();
    let d1 = dec_of(b.width as nat);
    lemma_dec_of_digits(b.width as nat);
    let d2 = dec_of(b.height as nat);
    lemma_dec_of_digits(b.height as nat);
    let d3 = dec_of(b.svg_width as nat);
    lemma_dec_of_digits(b.svg_width as nat);
    let d4 = dec_of(b.svg_height as nat);
    lemma_dec_of_digits(b.svg_height as nat);
    let d5 = dec_of(b.sigma as nat);
    lemma_dec_of_digits(b.sigma as nat);
    let p1 = key_bw() + seq![61u8] + d1;
    let p2 = key_bh() + seq![61u8] + d2;
    let p3 = key_bsw() + seq![61u8] + d3;
    let p4 = key_bsh() + seq![61u8] + d4;
    let p5 = key_bs() + seq![61u8] + d5;
    assert(lit_bw() =~= seq![38u8] + key_bw() + seq![61u8]);
    assert(lit_bh() =~= seq![38u8] + key_bh() + seq![61u8]);
    assert(lit_bsw() =~= seq![38u8] + key_bsw() + seq![61u8]);
    assert(lit_bsh() =~= seq![38u8] + key_bsh() + seq![61u8]);
    assert(lit_bs() =~= seq![38u8] + key_bs() + seq![61u8]);
    let rest1 = seq![38u8] + p2 + seq![38u8] + p3 + seq![38u8] + p4 + seq![38u8] + p5;
    let rest2 = seq![38u8] + p3 + seq![38u8] + p4 + seq![38u8] + p5;
    let rest3 = seq![38u8] + p4 + seq![38u8] + p5;
    let rest4 = seq![38u8] + p5;
    let acc2 = QueryFields { src: Some(sb), rw: None, rh: None, rq: None, bw: Some(b.width as nat), bh: None, bsw: None, bsh: None, bs: None };
    let acc3 = QueryFields { src: Some(sb), rw: None, rh: None, rq: None, bw: Some(b.width as nat), bh: Some(b.height as nat), bsw: None, bsh: None, bs: None };
    let acc4 = QueryFields { src: Some(sb), rw: None, rh: None, rq: None, bw: Some(b.width as nat), bh: Some(b.height as nat), bsw: Some(b.svg_width as nat), bsh: None, bs: None };
    let acc5 = QueryFields { src: Some(sb), rw: None, rh: None, rq: None, bw: Some(b.width as nat), bh: Some(b.height as nat), bsw: Some(b.svg_width as nat), bsh: Some(b.svg_height as nat), bs: None };
    let acc6 = QueryFields { src: Some(sb), rw: None, rh: None, rq: None, bw: Some(b.width as nat), bh: Some(b.height as nat), bsw: Some(b.svg_width as nat), bsh: Some(b.svg_height as nat), bs: Some(b.sigma as nat) };
    let t = tail_of(CachedImageOption::Blur(b));
    assert(t =~= seq![38u8] + p1 + seq![38u8] + p2 + seq![38u8] + p3 + seq![38u8] + p4 + seq![38u8] + p5);
    assert(q.subrange(at + 1, q.len() as int) =~= p1 + rest1) by {
        assert forall|m: int| 0 <= m < q.len() - (at + 1) implies #[trigger] q.subrange(at + 1, q.len() as int)[m]
            == (p1 + rest1)[m] by {
            assert(q.subrange(at + 1, q.len() as int)[m] == q[at + 1 + m]);
            assert(q.subrange(at, q.len() as int)[at + 1 + m - (at)] == q[at + 1 + m]);
        }
    }
    assert forall|m: int| 0 <= m < p1.len() implies (#[trigger] p1[m]) != 38 by {
        if m < key_bw().len() {
            assert(p1[m] == key_bw()[m]);
            assert(plain_key_byte(key_bw()[m]));
        } else if m > key_bw().len() {
            assert(p1[m] == d1[m - key_bw().len() - 1]);
            assert(is_digit(d1[m - key_bw().len() - 1]));
        }
    }
    lemma_fold_step(q, at + 1, acc1, p1, rest1);
    lemma_apply_pair_num(acc1, key_bw(), b.width as nat);
    assert(set_num_field(acc1, key_bw(), b.width as nat) == acc2);
    let a1 = at + 1 + p1.len();
    assert(q.subrange(a1, q.len() as int) =~= rest1);
    assert(q.subrange(a1 + 1, q.len() as int) =~= p2 + rest2) by {
        assert forall|m: int| 0 <= m < q.len() - (a1 + 1) implies #[trigger] q.subrange(a1 + 1, q.len() as int)[m]
            == (p2 + rest2)[m] by {
            assert(q.subrange(a1 + 1, q.len() as int)[m] == q[a1 + 1 + m]);
            assert(q.subrange(a1, q.len() as int)[a1 + 1 + m - (a1)] == q[a1 + 1 + m]);
        }
    }
    assert forall|m: int| 0 <= m < p2.len() implies (#[trigger] p2[m]) != 38 by {
        if m < key_bh().len() {
            assert(p2[m] == key_bh()[m]);
            assert(plain_key_byte(key_bh()[m]));
        } else if m > key_bh().len() {
            assert(p2[m] == d2[m - key_bh().len() - 1]);
            assert(is_digit(d2[m - key_bh().len() - 1]));
        }
    }
    lemma_fold_step(q, a1 + 1, acc2, p2, rest2);
    lemma_apply_pair_num(acc2, key_bh(), b.height as nat);
    assert(set_num_field(acc2, key_bh(), b.height as nat) == acc3);
    let a2 = a1 + 1 + p2.len();
    assert(q.subrange(a2, q.len() as int) =~= rest2);
    assert(q.subrange(a2 + 1, q.len() as int) =~= p3 + rest3) by {
        assert forall|m: int| 0 <= m < q.len() - (a2 + 1) implies #[trigger] q.subrange(a2 + 1, q.len() as int)[m]
            == (p3 + rest3)[m] by {
            assert(q.subrange(a2 + 1, q.len() as int)[m] == q[a2 + 1 + m]);
            assert(q.subrange(a2, q.len() as int)[a2 + 1 + m - (a2)] == q[a2 + 1 + m]);
        }
    }
    assert forall|m: int| 0 <= m < p3.len() implies (#[trigger] p3[m]) != 38 by {
        if m < key_bsw().len() {
            assert(p3[m] == key_bsw()[m]);
            assert(plain_key_byte(key_bsw()[m]));
        } else if m > key_bsw().len() {
            assert(p3[m] == d3[m - key_bsw().len() - 1]);
            assert(is_digit(d3[m - key_bsw().len() - 1]));
        }
    }
    lemma_fold_step(q, a2 + 1, acc3, p3, rest3);
    lemma_apply_pair_num(acc3, key_bsw(), b.svg_width as nat);
    assert(set_num_field(acc3, key_bsw(), b.svg_width as nat) == acc4);
    let a3 = a2 + 1 + p3.len();
    assert(q.subrange(a3, q.len() as int) =~= rest3);
    assert(q.subrange(a3 + 1, q.len() as int) =~= p4 + rest4) by {
        assert forall|m: int| 0 <= m < q.len() - (a3 + 1) implies #[trigger] q.subrange(a3 + 1, q.len() as int)[m]
            == (p4 + rest4)[m] by {
            assert(q.subrange(a3 + 1, q.len() as int)[m] == q[a3 + 1 + m]);
            assert(q.subrange(a3, q.len() as int)[a3 + 1 + m - (a3)] == q[a3 + 1 + m]);
        }
    }
    assert forall|m: int| 0 <= m < p4.len() implies (#[trigger] p4[m]) != 38 by {
        if m < key_bsh().len() {
            assert(p4[m] == key_bsh()[m]);
            assert(plain_key_byte(key_bsh()[m]));
        } else if m > key_bsh().len() {
            assert(p4[m] == d4[m - key_bsh().len() - 1]);
            assert(is_digit(d4[m - key_bsh().len() - 1]));
        }
    }
    lemma_fold_step(q, a3 + 1, acc4, p4, rest4);
    lemma_apply_pair_num(acc4, key_bsh(), b.svg_height as nat);
    assert(set_num_field(acc4, key_bsh(), b.svg_height as nat) == acc5);
    let a4 = a3 + 1 + p4.len();
    assert(q.subrange(a4, q.len() as int) =~= rest4);
    assert(q.subrange(a4 + 1, q.len() as int) =~= p5 + Seq::<u8>::empty()) by {
        assert forall|m: int| 0 <= m < q.len() - (a4 + 1) implies #[trigger] q.subrange(a4 + 1, q.len() as int)[m]
            == (p5 + Seq::<u8>::empty())[m] by {
            assert(q.subrange(a4 + 1, q.len() as int)[m] == q[a4 + 1 + m]);
            assert(q.subrange(a4, q.len() as int)[a4 + 1 + m - (a4)] == q[a4 + 1 + m]);
        }
    }
    assert(p5 + Seq::<u8>::empty() =~= p5);
    assert forall|m: int| 0 <= m < p5.len() implies (#[trigger] p5[m]) != 38 by {
        if m < key_bs().len() {
            assert(p5[m] == key_bs()[m]);
            assert(plain_key_byte(key_bs()[m]));
        } else if m > key_bs().len() {
            assert(p5[m] == d5[m - key_bs().len() - 1]);
            assert(is_digit(d5[m - key_bs().len() - 1]));
        }
    }
    lemma_fold_step(q, a4 + 1, acc5, p5, Seq::<u8>::empty());
    lemma_apply_pair_num(acc5, key_bs(), b.sigma as nat);
    assert(set_num_field(acc5, key_bs(), b.sigma as nat) == acc6);
    let a5 = a4 + 1 + p5.len();
    assert(q.subrange(a5, q.len() as int) =~= Seq::<u8>::empty());
    assert(a5 == q.len());
}

/// Distinct descriptors have distinct query encodings.
pub proof fn lemma_query_injective(
    src1: Seq<char>,
    opt1: CachedImageOption,
    src2: Seq<char>,
    opt2: CachedImageOption,
)
    requires
        query_of(src1, opt1) == query_of(src2, opt2),
    ensures
        src1 == src2,
        opt1 == opt2,
{
    lemma_query_round_trip(src1, opt1);
    lemma_query_round_trip(src2, opt2);
}


pub open spec fn lit_url_prefix() -> Seq<u8> {
    seq![47u8, 99u8, 97u8, 99u8, 104u8, 101u8, 47u8, 105u8, 109u8, 97u8, 103u8, 101u8, 63u8]
}

/// The full lookup URL of a descriptor: the fixed handler path, `?`, and the
/// query string.
pub open spec fn url_of(src: Seq<char>, opt: CachedImageOption) -> Seq<u8> {
    lit_url_prefix() + query_of(src, opt)
}

fn push_key_src(out: &mut Vec<u8>)
    ensures
        final(out)@ == old(out)@ + lit_key_src(),
{
    out.push(115);
    out.push(114);
    out.push(99);
    out.push(61);
    assert(out@ =~= old(out)@ + lit_key_src());
}

fn push_rw(out: &mut Vec<u8>)
    ensures
        final(out)@ == old(out)@ + lit_rw(),
{
    out.push(38);
    out.push(111);
    out.push(112);
    out.push(116);
    out.push(105);
    out.push(111);
    out.push(110);
    out.push(91);
    out.push(114);
    out.push(93);
    out.push(91);
    out.push(119);
    out.push(93);
    out.push(61);
    assert(out@ =~= old(out)@ + lit_rw());
}

fn push_rh(out: &mut Vec<u8>)
    ensures
        final(out)@ == old(out)@ + lit_rh(),
{
    out.push(38);
    out.push(111);
    out.push(112);
    out.push(116);
    out.push(105);
    out.push(111);
    out.push(110);
    out.push(91);
    out.push(114);
    out.push(93);
    out.push(91);
    out.push(104);
    out.push(93);
    out.push(61);
    assert(out@ =~= old(out)@ + lit_rh());
}

fn push_rq(out: &mut Vec<u8>)
    ensures
        final(out)@ == old(out)@ + lit_rq(),
{
    out.push(38);
    out.push(111);
    out.push(112);
    out.push(116);
    out.push(105);
    out.push(111);
    out.push(110);
    out.push(91);
    out.push(114);
    out.push(93);
    out.push(91);
    out.push(113);
    out.push(93);
    out.push(61);
    assert(out@ =~= old(out)@ + lit_rq());
}

fn push_bw(out: &mut Vec<u8>)
    ensures
        final(out)@ == old(out)@ + lit_bw(),
{
    out.push(38);
    out.push(111);
    out.push(112);
    out.push(116);
    out.push(105);
    out.push(111);
    out.push(110);
    out.push(91);
    out.push(98);
    out.push(93);
    out.push(91);
    out.push(119);
    out.push(93);
    out.push(61);
    assert(out@ =~= old(out)@ + lit_bw());
}

fn push_bh(out: &mut Vec<u8>)
    ensures
        final(out)@ == old(out)@ + lit_bh(),
{
    out.push(38);
    out.push(111);
    out.push(112);
    out.push(116);
    out.push(105);
    out.push(111);
    out.push(110);
    out.push(91);
    out.push(98);
    out.push(93);
    out.push(91);
    out.push(104);
    out.push(93);
    out.push(61);
    assert(out@ =~= old(out)@ + lit_bh());
}

fn push_bsw(out: &mut Vec<u8>)
    ensures
        final(out)@ == old(out)@ + lit_bsw(),
{
    out.push(38);
    out.push(111);
    out.push(112);
    out.push(116);
    out.push(105);
    out.push(111);
    out.push(110);
    out.push(91);
    out.push(98);
    out.push(93);
    out.push(91);
    out.push(115);
    out.push(119);
    out.push(93);
    out.push(61);
    assert(out@ =~= old(out)@ + lit_bsw());
}

fn push_bsh(out: &mut Vec<u8>)
    ensures
        final(out)@ == old(out)@ + lit_bsh(),
{
    out.push(38);
    out.push(111);
    out.push(112);
    out.push(116);
    out.push(105);
    out.push(111);
    out.push(110);
    out.push(91);
    out.push(98);
    out.push(93);
    out.push(91);
    out.push(115);
    out.push(104);
    out.push(93);
    out.push(61);
    assert(out@ =~= old(out)@ + lit_bsh());
}

fn push_bs(out: &mut Vec<u8>)
    ensures
        final(out)@ == old(out)@ + lit_bs(),
{
    out.push(38);
    out.push(111);
    out.push(112);
    out.push(116);
    out.push(105);
    out.push(111);
    out.push(110);
    out.push(91);
    out.push(98);
    out.push(93);
    out.push(91);
    out.push(115);
    out.push(93);
    out.push(61);
    assert(out@ =~= old(out)@ + lit_bs());
}

fn push_url_prefix(out: &mut Vec<u8>)
    ensures
        final(out)@ == old(out)@ + lit_url_prefix(),
{
    out.push(47);
    out.push(99);
    out.push(97);
    out.push(99);
    out.push(104);
    out.push(101);
    out.push(47);
    out.push(105);
    out.push(109);
    out.push(97);
    out.push(103);
    out.push(101);
    out.push(63);
    assert(out@ =~= old(out)@ + lit_url_prefix());
}

/// Signals a query string that does not spell a descriptor.
#[derive(Clone, Copy, Debug, PartialEq, Eq, Structural)]
pub struct DecodeError;

/// The collected fields as executable state; numbers saturate just above
/// `u32::MAX`, which no assembly range check can tell apart from the exact
/// value.
struct FieldsExec {
    src: Option<Vec<u8>>,
    rw: Option<u64>,
    rh: Option<u64>,
    rq: Option<u64>,
    bw: Option<u64>,
    bh: Option<u64>,
    bsw: Option<u64>,
    bsh: Option<u64>,
    bs: Option<u64>,
}

spec fn num_rel(v: Option<nat>, x: Option<u64>) -> bool {
    match (v, x) {
        (None, None) => true,
        (Some(n), Some(m)) => (n <= 0xffff_ffff && m == n) || (n > 0xffff_ffff && m
            == 0x1_0000_0000u64),
        _ => false,
    }
}

spec fn fields_rel(s: QueryFields, e: FieldsExec) -> bool {
    &&& (match (s.src, e.src) {
        (None, None) => true,
        (Some(v), Some(ev)) => ev@ == v,
        _ => false,
    })
    &&& num_rel(s.rw, e.rw)
    &&& num_rel(s.rh, e.rh)
    &&& num_rel(s.rq, e.rq)
    &&& num_rel(s.bw, e.bw)
    &&& num_rel(s.bh, e.bh)
    &&& num_rel(s.bsw, e.bsw)
    &&& num_rel(s.bsh, e.bsh)
    &&& num_rel(s.bs, e.bs)
}

/// A recognized field's value as the executable side reads it.
fn num_of_raw(raw: &[u8]) -> (r: Option<u64>)
    ensures
        match r {
            Some(x) => num_val(raw@) matches Some(n) && num_rel(Some(n), Some(x)),
            None => num_val(raw@) is None,
        },
{
    match crate::codec::pct_decode_exec(raw) {
        Some(v) => parse_dec_sat(v.as_slice()),
        None => None,
    }
}

/// Folds the remaining pairs into the field record, mirroring `fold_pairs`.
#[verifier::rlimit(100)]
#[verifier::spinoff_prover]
fn fold_pairs_exec(q: &[u8], from: usize, acc: FieldsExec, Ghost(sacc): Ghost<QueryFields>) -> (r:
    Option<FieldsExec>)
    requires
        from <= q@.len(),
        fields_rel(sacc, acc),
    ensures
        match r {
            Some(e2) => fold_pairs(q@, from as int, sacc) matches Some(s2) && fields_rel(s2, e2),
            None => fold_pairs(q@, from as int, sacc) is None,
        },
    decreases q@.len() - from,
{
    let j = crate::codec::find_amp_exec(q, from);
    let pair = sub_vec(q, from, j);
    let ghost pv = pair@;
    let eqp = find_eq_exec(pair.as_slice(), 0);
    let rawk = sub_vec(pair.as_slice(), 0, eqp);
    let rawv: Vec<u8> = if eqp < pair.len() {
        sub_vec(pair.as_slice(), eqp + 1, pair.len())
    } else {
        Vec::new()
    };
    let ghost sv = (if (eqp as int) < pv.len() {
        pv.subrange(eqp as int + 1, pv.len() as int)
    } else {
        Seq::<u8>::empty()
    });
    proof {
        assert(rawv@ == sv);
        assert(rawk@ == pv.subrange(0, eqp as int));
    }
    let dk = match crate::codec::pct_decode_exec(rawk.as_slice()) {
        Some(k) => k,
        None => {
            proof {
                assert(apply_pair(sacc, pv) is None);
            }
            return None;
        },
    };
    let mut ksrc: Vec<u8> = Vec::new();
    ksrc.push(115);
    ksrc.push(114);
    ksrc.push(99);
    proof {
        assert(ksrc@ =~= key_src());
    }
    let mut lrw: Vec<u8> = Vec::new();
    push_rw(&mut lrw);
    let krw = sub_vec(lrw.as_slice(), 1, 13);
    let mut lrh: Vec<u8> = Vec::new();
    push_rh(&mut lrh);
    let krh = sub_vec(lrh.as_slice(), 1, 13);
    let mut lrq: Vec<u8> = Vec::new();
    push_rq(&mut lrq);
    let krq = sub_vec(lrq.as_slice(), 1, 13);
    let mut lbw: Vec<u8> = Vec::new();
    push_bw(&mut lbw);
    let kbw = sub_vec(lbw.as_slice(), 1, 13);
    let mut lbh: Vec<u8> = Vec::new();
    push_bh(&mut lbh);
    let kbh = sub_vec(lbh.as_slice(), 1, 13);
    let mut lbsw: Vec<u8> = Vec::new();
    push_bsw(&mut lbsw);
    let kbsw = sub_vec(lbsw.as_slice(), 1, 14);
    let mut lbsh: Vec<u8> = Vec::new();
    push_bsh(&mut lbsh);
    let kbsh = sub_vec(lbsh.as_slice(), 1, 14);
    let mut lbs: Vec<u8> = Vec::new();
    push_bs(&mut lbs);
    let kbs = sub_vec(lbs.as_slice(), 1, 13);
    let mut out = acc;
    let ghost mut sacc2 = sacc;
    if eq_bytes(dk.as_slice(), ksrc.as_slice()) {
        match crate::codec::pct_decode_exec(rawv.as_slice()) {
            Some(v) => {
                proof {
                    sacc2 = QueryFields { src: Some(v@), rw: sacc.rw, rh: sacc.rh, rq: sacc.rq, bw: sacc.bw, bh: sacc.bh, bsw: sacc.bsw, bsh: sacc.bsh, bs: sacc.bs };
                }
                out.src = Some(v);
            },
            None => {
                proof {
                    assert(apply_pair(sacc, pv) is None);
                }
                return None;
            },
        }
    } else if eq_bytes(dk.as_slice(), krw.as_slice()) {
        match num_of_raw(rawv.as_slice()) {
            Some(x) => {
                proof {
                    sacc2 = QueryFields { src: sacc.src, rw: Some(num_val(sv).unwrap()), rh: sacc.rh, rq: sacc.rq, bw: sacc.bw, bh: sacc.bh, bsw: sacc.bsw, bsh: sacc.bsh, bs: sacc.bs };
                }
                out.rw = Some(x);
            },
            None => {
                proof {
                    assert(apply_pair(sacc, pv) is None);
                }
                return None;
            },
        }
    } else if eq_bytes(dk.as_slice(), krh.as_slice()) {
        match num_of_raw(rawv.as_slice()) {
            Some(x) => {
                proof {
                    sacc2 = QueryFields { src: sacc.src, rw: sacc.rw, rh: Some(num_val(sv).unwrap()), rq: sacc.rq, bw: sacc.bw, bh: sacc.bh, bsw: sacc.bsw, bsh: sacc.bsh, bs: sacc.bs };
                }
                out.rh = Some(x);
            },
            None => {
                proof {
                    assert(apply_pair(sacc, pv) is None);
                }
                return None;
            },
        }
    } else if eq_bytes(dk.as_slice(), krq.as_slice()) {
        match num_of_raw(rawv.as_slice()) {
            Some(x) => {
                proof {
                    sacc2 = QueryFields { src: sacc.src, rw: sacc.rw, rh: sacc.rh, rq: Some(num_val(sv).unwrap()), bw: sacc.bw, bh: sacc.bh, bsw: sacc.bsw, bsh: sacc.bsh, bs: sacc.bs };
                }
                out.rq = Some(x);
            },
            None => {
                proof {
                    assert(apply_pair(sacc, pv) is None);
                }
                return None;
            },
        }
    } else if eq_bytes(dk.as_slice(), kbw.as_slice()) {
        match num_of_raw(rawv.as_slice()) {
            Some(x) => {
                proof {
                    sacc2 = QueryFields { src: sacc.src, rw: sacc.rw, rh: sacc.rh, rq: sacc.rq, bw: Some(num_val(sv).unwrap()), bh: sacc.bh, bsw: sacc.bsw, bsh: sacc.bsh, bs: sacc.bs };
                }
                out.bw = Some(x);
            },
            None => {
                proof {
                    assert(apply_pair(sacc, pv) is None);
                }
                return None;
            },
        }
    } else if eq_bytes(dk.as_slice(), kbh.as_slice()) {
        match num_of_raw(rawv.as_slice()) {
            Some(x) => {
                proof {
                    sacc2 = QueryFields { src: sacc.src, rw: sacc.rw, rh: sacc.rh, rq: sacc.rq, bw: sacc.bw, bh: Some(num_val(sv).unwrap()), bsw: sacc.bsw, bsh: sacc.bsh, bs: sacc.bs };
                }
                out.bh = Some(x);
            },
            None => {
                proof {
                    assert(apply_pair(sacc, pv) is None);
                }
                return None;
            },
        }
    } else if eq_bytes(dk.as_slice(), kbsw.as_slice()) {
        match num_of_raw(rawv.as_slice()) {
            Some(x) => {
                proof {
                    sacc2 = QueryFields { src: sacc.src, rw: sacc.rw, rh: sacc.rh, rq: sacc.rq, bw: sacc.bw, bh: sacc.bh, bsw: Some(num_val(sv).unwrap()), bsh: sacc.bsh, bs: sacc.bs };
                }
                out.bsw = Some(x);
            },
            None => {
                proof {
                    assert(apply_pair(sacc, pv) is None);
                }
                return None;
            },
        }
    } else if eq_bytes(dk.as_slice(), kbsh.as_slice()) {
        match num_of_raw(rawv.as_slice()) {
            Some(x) => {
                proof {
                    sacc2 = QueryFields { src: sacc.src, rw: sacc.rw, rh: sacc.rh, rq: sacc.rq, bw: sacc.bw, bh: sacc.bh, bsw: sacc.bsw, bsh: Some(num_val(sv).unwrap()), bs: sacc.bs };
                }
                out.bsh = Some(x);
            },
            None => {
                proof {
                    assert(apply_pair(sacc, pv) is None);
                }
                return None;
            },
        }
    } else if eq_bytes(dk.as_slice(), kbs.as_slice()) {
        match num_of_raw(rawv.as_slice()) {
            Some(x) => {
                proof {
                    sacc2 = QueryFields { src: sacc.src, rw: sacc.rw, rh: sacc.rh, rq: sacc.rq, bw: sacc.bw, bh: sacc.bh, bsw: sacc.bsw, bsh: sacc.bsh, bs: Some(num_val(sv).unwrap()) };
                }
                out.bs = Some(x);
            },
            None => {
                proof {
                    assert(apply_pair(sacc, pv) is None);
                }
                return None;
            },
        }
    } else {
        // unknown key: the pair is ignored
    }
    proof {
        assert(apply_pair(sacc, pv) == Some(sacc2));
        assert(fields_rel(sacc2, out));
    }
    if j >= q.len() {
        Some(out)
    } else {
        fold_pairs_exec(q, j + 1, out, Ghost(sacc2))
    }
}

/// The parser as executable code: exactly the queries that `parse_query`
/// accepts come back as descriptors, everything else is refused.
#[verifier::rlimit(100)]
#[verifier::spinoff_prover]
pub fn parse_query_exec(q: &[u8]) -> (r: Option<CachedImage>)
    ensures
        match r {
            Some(d) => parse_query(q@) == Some((d.src@, d.option)),
            None => parse_query(q@) is None,
        },
{
    let acc0 = FieldsExec {
        src: None,
        rw: None,
        rh: None,
        rq: None,
        bw: None,
        bh: None,
        bsw: None,
        bsh: None,
        bs: None,
    };
    match fold_pairs_exec(q, 0, acc0, Ghost(empty_fields())) {
        None => None,
        Some(e) => {
            let ghost s2 = fold_pairs(q@, 0, empty_fields()).unwrap();
            match e.src {
                None => None,
                Some(sv) => {
                    let anyr = e.rw.is_some() || e.rh.is_some() || e.rq.is_some();
                    let anyb = e.bw.is_some() || e.bh.is_some() || e.bsw.is_some()
                        || e.bsh.is_some() || e.bs.is_some();
                    if anyr && !anyb {
                        match (e.rw, e.rh, e.rq) {
                            (Some(w), Some(h), Some(qv)) => {
                                if w <= 0xffff_ffff && h <= 0xffff_ffff && qv <= 255 {
                                    let opt = CachedImageOption::Resize(
                                        Resize {
                                            width: w as u32,
                                            height: h as u32,
                                            quality: qv as u8,
                                        },
                                    );
                                    match crate::codec::string_from_utf8(sv) {
                                        Some(s) => Some(CachedImage { src: s, option: opt }),
                                        None => None,
                                    }
                                } else {
                                    None
                                }
                            },
                            _ => None,
                        }
                    } else if anyb && !anyr {
                        match (e.bw, e.bh, e.bsw, e.bsh, e.bs) {
                            (Some(w), Some(h), Some(sw), Some(sh), Some(sg)) => {
                                if w <= 0xffff_ffff && h <= 0xffff_ffff && sw <= 0xffff_ffff && sh
                                    <= 0xffff_ffff && sg <= 255 {
                                    let opt = CachedImageOption::Blur(
                                        Blur {
                                            width: w as u32,
                                            height: h as u32,
                                            svg_width: sw as u32,
                                            svg_height: sh as u32,
                                            sigma: sg as u8,
                                        },
                                    );
                                    match crate::codec::string_from_utf8(sv) {
                                        Some(s) => Some(CachedImage { src: s, option: opt }),
                                        None => None,
                                    }
                                } else {
                                    None
                                }
                            },
                            _ => None,
                        }
                    } else {
                        None
                    }
                },
            }
        },
    }
}

/// The encoder: the query-string bytes of a descriptor.
pub fn encode_query(d: &CachedImage) -> (r: Vec<u8>)
    ensures
        r@ == query_of(d.src@, d.option),
{
    let mut out: Vec<u8> = Vec::new();
    push_key_src(&mut out);
    let sb = d.src.as_str().as_bytes();
    crate::codec::push_pct_bytes(&mut out, sb);
    match d.option {
        CachedImageOption::Resize(r) => {
            push_rw(&mut out);
            crate::codec::push_dec_u32(&mut out, r.width);
            push_rh(&mut out);
            crate::codec::push_dec_u32(&mut out, r.height);
            push_rq(&mut out);
            crate::codec::push_dec_u32(&mut out, r.quality as u32);
        },
        CachedImageOption::Blur(b) => {
            push_bw(&mut out);
            crate::codec::push_dec_u32(&mut out, b.width);
            push_bh(&mut out);
            crate::codec::push_dec_u32(&mut out, b.height);
            push_bsw(&mut out);
            crate::codec::push_dec_u32(&mut out, b.svg_width);
            push_bsh(&mut out);
            crate::codec::push_dec_u32(&mut out, b.svg_height);
            push_bs(&mut out);
            crate::codec::push_dec_u32(&mut out, b.sigma as u32);
        },
    }
    assert(out@ =~= query_of(d.src@, d.option));
    out
}

proof fn lemma_strip_at(s: Seq<u8>, start: int)
    requires
        0 <= start <= s.len(),
        start == 0 ==> forall|k: int| 0 <= k < s.len() ==> s[k] != 63,
        start > 0 ==> s[start - 1] == 63,
        forall|k: int| start <= k < s.len() ==> s[k] != 63,
    ensures
        strip_to_query(s) == s.subrange(start, s.len() as int),
{
    let suffix = s.subrange(start, s.len() as int);
    assert forall|k: int| 0 <= k < suffix.len() implies suffix[k] != 63 by {
        assert(suffix[k] == s[start + k]);
    }
    if start == 0 {
        lemma_strip_no_mark(s);
        assert(s.subrange(0, s.len() as int) =~= s);
    } else {
        let p = s.subrange(0, start - 1);
        lemma_strip_after_mark(p, suffix);
        assert(p.push(63u8) + suffix =~= s);
    }
}

impl CachedImage {
    /// The lookup URL: the fixed handler path, `?`, and the query encoding.
    pub fn get_url_encoded(&self) -> (r: String)
        ensures
            encode_utf8(r@) == url_of(self.src@, self.option),
    {
        let mut out: Vec<u8> = Vec::new();
        push_url_prefix(&mut out);
        let qv = encode_query(self);
        push_all(&mut out, &qv);
        proof {
            lemma_query_ascii(self.src@, self.option);
            assert(is_ascii_bytes(out@)) by {
                assert forall|i: int| 0 <= i < out@.len() implies #[trigger] out@[i] < 128 by {
                    if i < lit_url_prefix().len() {
                        assert(out@[i] == lit_url_prefix()[i]);
                    } else {
                        assert(out@[i] == query_of(self.src@, self.option)[i - lit_url_prefix().len()]);
                    }
                }
            }
            lemma_ascii_valid_utf8(out@);
        }
        let ghost outview = out@;
        match crate::codec::string_from_utf8(out) {
            Some(s) => {
                proof {
                    encode_utf8_decode_utf8_bytes(outview);
                }
                s
            },
            None => {
                proof {
                    assert(false);
                }
                String::new()
            },
        }
    }

    /// Decodes a lookup URL (or a bare query string): everything up to and
    /// including the last `?` is stripped, the rest must parse.
    pub fn from_url_encoded(url: &str) -> (r: Result<CachedImage, DecodeError>)
        ensures
            ({
                let q = strip_to_query(url.spec_bytes());
                match r {
                    Ok(d) => parse_query(q) == Some((d.src@, d.option)),
                    Err(_) => parse_query(q) is None,
                }
            }),
    {
        let bytes = url.as_bytes();
        let mut start: usize = 0;
        let mut k: usize = 0;
        while k < bytes.len()
            invariant
                start <= k <= bytes@.len(),
                start == 0 ==> forall|m: int| 0 <= m < k ==> bytes@[m] != 63,
                start > 0 ==> bytes@[start - 1] == 63,
                forall|m: int| start <= m < k ==> bytes@[m] != 63,
            decreases bytes@.len() - k,
        {
            if bytes[k] == 63 {
                start = k + 1;
            }
            k += 1;
        }
        proof {
            lemma_strip_at(bytes@, start as int);
        }
        let qv = sub_vec(bytes, start, bytes.len());
        match parse_query_exec(qv.as_slice()) {
            Some(d) => Ok(d),
            None => Err(DecodeError),
        }
    }
}

/// Valid UTF-8 bytes come back unchanged from decode and re-encode.
proof fn encode_utf8_decode_utf8_bytes(bytes: Seq<u8>)
    requires
        valid_utf8(bytes),
    ensures
        encode_utf8(decode_utf8(bytes)) == bytes,
{
    decode_utf8_encode_utf8(bytes);
}


/// Every query encoding is reasonably long and ends in a decimal digit (the
/// last transform field's value).
pub proof fn lemma_query_shape(src: Seq<char>, opt: CachedImageOption)
    ensures
        query_of(src, opt).len() >= 19,
        is_digit(query_of(src, opt).last()),
{
    let p = pct_encode(encode_utf8(src));
    let t = tail_of(opt);
    let q = query_of(src, opt);
    lemma_tail_bytes(opt);
    match opt {
        CachedImageOption::Resize(r) => {
            let d3 = dec_of(r.quality as nat);
            lemma_dec_of_digits(r.quality as nat);
            assert(t.last() == d3.last());
        },
        CachedImageOption::Blur(b) => {
            let d5 = dec_of(b.sigma as nat);
            lemma_dec_of_digits(b.sigma as nat);
            assert(t.last() == d5.last());
        },
    }
    assert(q.last() == t.last());
    assert(t.len() >= 15);
}


/// The full URL round trip: what `get_url_encoded` produces, `from_url_encoded`
/// strips and parses back to the same descriptor.
pub proof fn lemma_url_round_trip(src: Seq<char>, opt: CachedImageOption)
    ensures
        strip_to_query(url_of(src, opt)) == query_of(src, opt),
        parse_query(strip_to_query(url_of(src, opt))) == Some((src, opt)),
{
    let pre = lit_url_prefix();
    let q = query_of(src, opt);
    lemma_query_ascii(src, opt);
    assert(pre =~= pre.subrange(0, 12).push(63u8));
    assert(url_of(src, opt) =~= pre.subrange(0, 12).push(63u8) + q);
    lemma_strip_after_mark(pre.subrange(0, 12), q);
    lemma_query_round_trip(src, opt);
}

} // verus!
