//! The path resolver: joining slash-trimmed segments, forcing the extension
//! that the transform variant selects, and the content-addressing guarantee
//! that distinct descriptors resolve to distinct paths.

use vstd::prelude::*;
use vstd::utf8::{
    decode_utf8, decode_utf8_encode_utf8, encode_utf8, encode_utf8_valid_utf8,
    is_char_boundary_iff_not_is_continuation_byte, is_char_boundary_start_end_of_seq,
    is_leading_byte_width_1, length_of_first_scalar, pop_first_scalar, valid_first_scalar,
    valid_utf8, valid_utf8_concat, valid_utf8_split,
};
use vstd::string::StringSliceAdditionalSpecFns;
use crate::b64::{b64_decode, b64_encode};
use crate::codec::{string_from_utf8, sub_vec};
use crate::descriptor::{CachedImage, CachedImageOption};
use crate::query::{lemma_ascii_valid_utf8, is_ascii_bytes, parse_query, query_of};

verus! {

pub open spec fn lit_cache_image() -> Seq<u8> {
    seq![99u8, 97u8, 99u8, 104u8, 101u8, 47u8, 105u8, 109u8, 97u8, 103u8, 101u8]
}

/// The extension a variant selects: `webp` for a resize, `svg` for a blur.
pub open spec fn ext_of(opt: CachedImageOption) -> Seq<u8> {
    match opt {
        CachedImageOption::Resize(_) => seq![119u8, 101u8, 98u8, 112u8],
        CachedImageOption::Blur(_) => seq![115u8, 118u8, 103u8],
    }
}

pub open spec fn trim_lead(s: Seq<u8>) -> Seq<u8>
    decreases s.len(),
{
    if s.len() > 0 && s[0] == 47 {
        trim_lead(s.drop_first())
    } else {
        s
    }
}

pub open spec fn trim_trail(s: Seq<u8>) -> Seq<u8>
    decreases s.len(),
{
    if s.len() > 0 && s.last() == 47 {
        trim_trail(s.drop_last())
    } else {
        s
    }
}

/// A segment with stray leading and trailing slashes removed.
pub open spec fn trim_seg(s: Seq<u8>) -> Seq<u8> {
    trim_trail(trim_lead(s))
}

/// Joins an already-joined prefix with one further trimmed segment.
pub open spec fn join1(a: Seq<u8>, b: Seq<u8>) -> Seq<u8> {
    if b.len() == 0 {
        a
    } else if a.len() == 0 {
        b
    } else {
        a + seq![47u8] + b
    }
}

/// Joins segments with `/`, dropping the ones that trim to nothing.
pub open spec fn join_segs(segs: Seq<Seq<u8>>) -> Seq<u8>
    decreases segs.len(),
{
    if segs.len() == 0 {
        Seq::empty()
    } else {
        let t = trim_seg(segs[0]);
        let rest = join_segs(segs.drop_first());
        if t.len() == 0 {
            rest
        } else if rest.len() == 0 {
            t
        } else {
            t + seq![47u8] + rest
        }
    }
}

/// Joining is a left fold as well: a snoc joins onto the end.
pub proof fn lemma_join_snoc(segs: Seq<Seq<u8>>, x: Seq<u8>)
    ensures
        join_segs(segs.push(x)) == join1(join_segs(segs), trim_seg(x)),
    decreases segs.len(),
{
    let t = trim_seg(x);
    if segs.len() == 0 {
        assert(segs.push(x).len() == 1);
        assert(segs.push(x)[0] == x);
        assert(segs.push(x).drop_first() =~= segs);
        assert(join_segs(segs) == Seq::<u8>::empty());
    } else {
        assert(segs.push(x)[0] == segs[0]);
        assert(segs.push(x).drop_first() =~= segs.drop_first().push(x));
        lemma_join_snoc(segs.drop_first(), x);
        let t0 = trim_seg(segs[0]);
        let jr = join_segs(segs.drop_first());
        if t0.len() == 0 {
        } else if t.len() == 0 {
        } else if jr.len() == 0 {
        } else {
            assert(t0 + seq![47u8] + (jr + seq![47u8] + t) =~= (t0 + seq![47u8] + jr) + seq![47u8]
                + t);
        }
    }
}

/// Index where the last path component starts: just after the last `/`.
pub open spec fn last_slash(s: Seq<u8>) -> int
    decreases s.len(),
{
    if s.len() == 0 {
        0
    } else if s.last() == 47 {
        s.len() as int
    } else {
        last_slash(s.drop_last())
    }
}

/// Index of the last `.`, or -1 when there is none.
pub open spec fn rfind_dot(s: Seq<u8>) -> int
    decreases s.len(),
{
    if s.len() == 0 {
        -1
    } else if s.last() == 46 {
        s.len() - 1
    } else {
        rfind_dot(s.drop_last())
    }
}

/// Forces the extension of the last path component: replaces an existing
/// extension, appends one otherwise, and leaves a `..` component alone.
pub open spec fn set_ext(s: Seq<u8>, ext: Seq<u8>) -> Seq<u8> {
    let cs = last_slash(s);
    let comp = s.subrange(cs, s.len() as int);
    if comp == seq![46u8, 46u8] {
        s
    } else {
        let di = rfind_dot(comp);
        if di > 0 {
            s.subrange(0, cs + di) + seq![46u8] + ext
        } else {
            s + seq![46u8] + ext
        }
    }
}

pub proof fn lemma_last_slash(s: Seq<u8>)
    ensures
        0 <= last_slash(s) <= s.len(),
        forall|k: int| last_slash(s) <= k < s.len() ==> s[k] != 47,
        last_slash(s) > 0 ==> s[last_slash(s) - 1] == 47,
    decreases s.len(),
{
    if s.len() > 0 && s.last() != 47 {
        lemma_last_slash(s.drop_last());
        assert forall|k: int| last_slash(s) <= k < s.len() implies s[k] != 47 by {
            if k < s.len() - 1 {
                assert(s.drop_last()[k] == s[k]);
            }
        }
        if last_slash(s) > 0 {
            assert(s.drop_last()[last_slash(s) - 1] == s[last_slash(s) - 1]);
        }
    }
}

pub proof fn lemma_last_slash_at(s: Seq<u8>, j: int)
    requires
        0 <= j <= s.len(),
        j == 0 || s[j - 1] == 47,
        forall|k: int| j <= k < s.len() ==> s[k] != 47,
    ensures
        last_slash(s) == j,
    decreases s.len(),
{
    if s.len() == 0 {
    } else if s.last() == 47 {
        assert(j == s.len());
    } else {
        assert(j < s.len());
        lemma_last_slash_at(s.drop_last(), j);
    }
}

pub proof fn lemma_rfind_dot(s: Seq<u8>)
    ensures
        -1 <= rfind_dot(s) < s.len(),
        forall|k: int| rfind_dot(s) < k < s.len() ==> s[k] != 46,
        rfind_dot(s) >= 0 ==> s[rfind_dot(s)] == 46,
    decreases s.len(),
{
    if s.len() > 0 && s.last() != 46 {
        lemma_rfind_dot(s.drop_last());
        assert forall|k: int| rfind_dot(s) < k < s.len() implies s[k] != 46 by {
            if k < s.len() - 1 {
                assert(s.drop_last()[k] == s[k]);
            }
        }
        if rfind_dot(s) >= 0 {
            assert(s.drop_last()[rfind_dot(s)] == s[rfind_dot(s)]);
        }
    }
}

pub proof fn lemma_rfind_dot_at(s: Seq<u8>, j: int)
    requires
        -1 <= j < s.len(),
        j == -1 || s[j] == 46,
        forall|k: int| j < k < s.len() ==> s[k] != 46,
    ensures
        rfind_dot(s) == j,
    decreases s.len(),
{
    if s.len() == 0 {
    } else if s.last() == 46 {
        assert(j == s.len() - 1);
    } else {
        assert(j < s.len() - 1);
        lemma_rfind_dot_at(s.drop_last(), j);
    }
}

/// Splitting a valid UTF-8 sequence just before an ASCII byte (or at its end)
/// leaves two valid sequences.
pub proof fn lemma_valid_cut(s: Seq<u8>, i: int)
    requires
        valid_utf8(s),
        0 <= i <= s.len(),
        i < s.len() ==> s[i] < 128,
    ensures
        valid_utf8(s.subrange(0, i)),
        valid_utf8(s.subrange(i, s.len() as int)),
{
    if i == s.len() {
        is_char_boundary_start_end_of_seq(s);
        valid_utf8_split(s, i);
    } else {
        is_char_boundary_iff_not_is_continuation_byte(s, i);
        valid_utf8_split(s, i);
    }
}

/// A valid sequence opening with an ASCII byte stays valid without it.
pub proof fn lemma_valid_drop_first_ascii(s: Seq<u8>)
    requires
        valid_utf8(s),
        s.len() > 0,
        s[0] < 128,
    ensures
        valid_utf8(s.drop_first()),
{
    assert(valid_first_scalar(s) && valid_utf8(pop_first_scalar(s)));
    assert(is_leading_byte_width_1(s[0]));
    assert(length_of_first_scalar(s) == 1);
    assert(pop_first_scalar(s) =~= s.drop_first());
}

pub proof fn lemma_trim_lead_valid(s: Seq<u8>)
    requires
        valid_utf8(s),
    ensures
        valid_utf8(trim_lead(s)),
    decreases s.len(),
{
    if s.len() > 0 && s[0] == 47 {
        lemma_valid_drop_first_ascii(s);
        lemma_trim_lead_valid(s.drop_first());
    }
}

pub proof fn lemma_trim_trail_valid(s: Seq<u8>)
    requires
        valid_utf8(s),
    ensures
        valid_utf8(trim_trail(s)),
    decreases s.len(),
{
    if s.len() > 0 && s.last() == 47 {
        lemma_valid_cut(s, s.len() - 1);
        assert(s.drop_last() =~= s.subrange(0, s.len() - 1));
        lemma_trim_trail_valid(s.drop_last());
    }
}

pub proof fn lemma_join1_valid(a: Seq<u8>, b: Seq<u8>)
    requires
        valid_utf8(a),
        valid_utf8(b),
    ensures
        valid_utf8(join1(a, b)),
{
    lemma_ascii_valid_utf8(seq![47u8]);
    if b.len() != 0 && a.len() != 0 {
        valid_utf8_concat(a, seq![47u8]);
        valid_utf8_concat(a + seq![47u8], b);
    }
}

/// Characterizes the trims by their cut points, for the executable scan.
pub proof fn lemma_trim_lead_at(s: Seq<u8>, k: int)
    requires
        0 <= k <= s.len(),
        forall|i: int| 0 <= i < k ==> s[i] == 47,
        k < s.len() ==> s[k] != 47,
    ensures
        trim_lead(s) == s.subrange(k, s.len() as int),
    decreases s.len(),
{
    if s.len() > 0 && s[0] == 47 {
        assert(k >= 1);
        assert forall|i: int| 0 <= i < k - 1 implies s.drop_first()[i] == 47 by {
            assert(s.drop_first()[i] == s[i + 1]);
        }
        lemma_trim_lead_at(s.drop_first(), k - 1);
        assert(s.drop_first().subrange(k - 1, s.drop_first().len() as int) =~= s.subrange(
            k,
            s.len() as int,
        ));
    } else {
        assert(k == 0);
        assert(s.subrange(0, s.len() as int) =~= s);
    }
}

pub proof fn lemma_trim_trail_at(s: Seq<u8>, k: int)
    requires
        0 <= k <= s.len(),
        forall|i: int| k <= i < s.len() ==> s[i] == 47,
        k > 0 ==> s[k - 1] != 47,
    ensures
        trim_trail(s) == s.subrange(0, k),
    decreases s.len(),
{
    if s.len() > 0 && s.last() == 47 {
        assert(k < s.len());
        assert forall|i: int| k <= i < s.drop_last().len() implies s.drop_last()[i] == 47 by {
            assert(s.drop_last()[i] == s[i]);
        }
        lemma_trim_trail_at(s.drop_last(), k);
        assert(s.drop_last().subrange(0, k) =~= s.subrange(0, k));
    } else {
        assert(k == s.len());
        assert(s.subrange(0, s.len() as int) =~= s);
    }
}

/// Appends one trimmed segment (and a separator where needed) to a joined
/// prefix.
pub(crate) fn join_push(out: &mut Vec<u8>, seg: &[u8])
    ensures
        final(out)@ == join1(old(out)@, trim_seg(seg@)),
{
    let n = seg.len();
    let mut lo: usize = 0;
    while lo < n && seg[lo] == 47
        invariant
            lo <= n,
            n == seg@.len(),
            forall|i: int| 0 <= i < lo ==> seg@[i] == 47,
        decreases n - lo,
    {
        lo += 1;
    }
    proof {
        lemma_trim_lead_at(seg@, lo as int);
    }
    let mut hi: usize = n;
    while hi > lo && seg[hi - 1] == 47
        invariant
            lo <= hi <= n,
            n == seg@.len(),
            forall|i: int| hi <= i < n ==> seg@[i] == 47,
        decreases hi,
    {
        hi -= 1;
    }
    let ghost tl = seg@.subrange(lo as int, n as int);
    proof {
        assert forall|i: int| hi - lo <= i < tl.len() implies tl[i] == 47 by {
            assert(tl[i] == seg@[lo + i]);
        }
        if hi > lo {
            assert(tl[hi - lo - 1] == seg@[hi - 1]);
        }
        lemma_trim_trail_at(tl, hi - lo);
        assert(tl.subrange(0, hi - lo) =~= seg@.subrange(lo as int, hi as int));
    }
    if lo == hi {
        return ;
    }
    if out.len() > 0 {
        out.push(47);
    }
    let mut k = lo;
    while k < hi
        invariant
            lo <= k <= hi <= n,
            n == seg@.len(),
            out@ == (if old(out)@.len() == 0 {
                Seq::<u8>::empty()
            } else {
                old(out)@ + seq![47u8]
            }) + seg@.subrange(lo as int, k as int),
        decreases hi - k,
    {
        proof {
            assert(seg@.subrange(lo as int, k + 1) =~= seg@.subrange(lo as int, k as int).push(
                seg@[k as int],
            ));
        }
        out.push(seg[k]);
        k += 1;
    }
    proof {
        assert(out@ =~= join1(old(out)@, trim_seg(seg@)));
    }
}

/// Joins path segments with `/`, after stripping each segment's stray leading
/// and trailing slashes and dropping segments that are left empty.
pub fn path_from_segments(segments: Vec<&str>) -> (r: String)
    ensures
        encode_utf8(r@) == join_segs(segments@.map_values(|s: &str| s.spec_bytes())),
{
    let ghost mapped = segments@.map_values(|s: &str| s.spec_bytes());
    let mut out: Vec<u8> = Vec::new();
    let mut i: usize = 0;
    proof {
        assert(mapped.take(0) =~= Seq::<Seq<u8>>::empty());
    }
    while i < segments.len()
        invariant
            i <= segments@.len(),
            mapped == segments@.map_values(|s: &str| s.spec_bytes()),
            out@ == join_segs(mapped.take(i as int)),
            valid_utf8(out@),
        decreases segments@.len() - i,
    {
        let seg: &str = segments[i];
        let sb = seg.as_bytes();
        proof {
            lemma_join_snoc(mapped.take(i as int), sb@);
            assert(mapped.take(i + 1) =~= mapped.take(i as int).push(sb@));
            encode_utf8_valid_utf8(seg@);
            lemma_trim_lead_valid(sb@);
            lemma_trim_trail_valid(trim_lead(sb@));
            lemma_join1_valid(out@, trim_seg(sb@));
        }
        join_push(&mut out, sb);
        i += 1;
    }
    proof {
        assert(mapped.take(segments@.len() as int) =~= mapped);
    }
    bytes_to_string(out)
}

/// Turns valid UTF-8 bytes into the string spelling exactly those bytes.
pub(crate) fn bytes_to_string(v: Vec<u8>) -> (r: String)
    requires
        valid_utf8(v@),
    ensures
        encode_utf8(r@) == v@,
        r@ == decode_utf8(v@),
{
    let ghost vv = v@;
    match string_from_utf8(v) {
        Some(s) => {
            proof {
                decode_utf8_encode_utf8(vv);
            }
            s
        },
        None => {
            proof {
                assert(false);
            }
            String::new()
        },
    }
}


/// Scans for the start of the last path component.
fn last_slash_exec(s: &[u8]) -> (r: usize)
    ensures
        r as int == last_slash(s@),
        r <= s@.len(),
{
    let n = s.len();
    let mut cs: usize = 0;
    let mut k: usize = 0;
    while k < n
        invariant
            cs <= k <= n,
            n == s@.len(),
            cs == 0 || s@[cs - 1] == 47,
            forall|m: int| cs <= m < k ==> s@[m] != 47,
        decreases n - k,
    {
        if s[k] == 47 {
            cs = k + 1;
        }
        k += 1;
    }
    proof {
        lemma_last_slash_at(s@, cs as int);
    }
    cs
}


/// Forces the extension on the last component of the joined bytes.
fn set_ext_exec(s: Vec<u8>, ext: &[u8]) -> (r: Vec<u8>)
    ensures
        r@ == set_ext(s@, ext@),
{
    let n = s.len();
    let cs = last_slash_exec(s.as_slice());
    let ghost comp = s@.subrange(cs as int, n as int);
    if n - cs == 2 && s[cs] == 46 && s[cs + 1] == 46 {
        proof {
            assert(comp =~= seq![46u8, 46u8]);
        }
        return s;
    }
    proof {
        if comp == seq![46u8, 46u8] {
            assert(s@[cs as int] == comp[0]);
            assert(s@[cs + 1] == comp[1]);
        }
    }
    // last dot inside the component
    let mut di: usize = 0;
    let mut found = false;
    let mut k = cs;
    while k < n
        invariant
            cs <= k <= n,
            n == s@.len(),
            found ==> cs <= di < k && s@[di as int] == 46,
            !found ==> forall|m: int| cs <= m < k ==> s@[m] != 46,
            found ==> forall|m: int| di < m < k ==> s@[m] != 46,
        decreases n - k,
    {
        if s[k] == 46 {
            di = k;
            found = true;
        }
        k += 1;
    }
    proof {
        if found {
            assert(comp[di - cs] == s@[di as int]);
            assert forall|m: int| di - cs < m < comp.len() implies comp[m] != 46 by {
                assert(comp[m] == s@[cs + m]);
            }
            lemma_rfind_dot_at(comp, di - cs);
        } else {
            assert forall|m: int| -1 < m < comp.len() implies comp[m] != 46 by {
                assert(comp[m] == s@[cs + m]);
            }
            lemma_rfind_dot_at(comp, -1);
        }
    }
    let mut out = s;
    if found && di > cs {
        out.truncate(di);
        proof {
            assert(out@ =~= s@.subrange(0, cs + (di - cs)));
        }
    }
    let ghost base = out@;
    out.push(46);
    let mut k2: usize = 0;
    while k2 < ext.len()
        invariant
            k2 <= ext@.len(),
            out@ == base.push(46u8) + ext@.take(k2 as int),
        decreases ext@.len() - k2,
    {
        proof {
            assert(ext@.take(k2 + 1) =~= ext@.take(k2 as int).push(ext@[k2 as int]));
            assert((base.push(46u8) + ext@.take(k2 as int)).push(ext@[k2 as int]) =~= base.push(
                46u8,
            ) + ext@.take(k2 as int).push(ext@[k2 as int]));
        }
        out.push(ext[k2]);
        k2 += 1;
    }
    proof {
        assert(ext@.take(ext@.len() as int) =~= ext@);
        assert(base.push(46u8) + ext@ =~= base + seq![46u8] + ext@);
        if found && di > cs {
            assert(out@ =~= set_ext(s@, ext@));
        } else {
            assert(rfind_dot(comp) <= 0);
            assert(out@ =~= set_ext(s@, ext@));
        }
    }
    out
}

/// Validity of the forced-extension result.
pub proof fn lemma_set_ext_valid(s: Seq<u8>, ext: Seq<u8>)
    requires
        valid_utf8(s),
        is_ascii_bytes(ext),
    ensures
        valid_utf8(set_ext(s, ext)),
{
    let cs = last_slash(s);
    lemma_last_slash(s);
    let comp = s.subrange(cs, s.len() as int);
    lemma_ascii_valid_utf8(seq![46u8]);
    lemma_ascii_valid_utf8(ext);
    if comp == seq![46u8, 46u8] {
    } else {
        let di = rfind_dot(comp);
        lemma_rfind_dot(comp);
        if di > 0 {
            assert(s[cs + di] == comp[di]);
            lemma_valid_cut(s, cs + di);
            valid_utf8_concat(s.subrange(0, cs + di), seq![46u8]);
            valid_utf8_concat(s.subrange(0, cs + di) + seq![46u8], ext);
        } else {
            valid_utf8_concat(s, seq![46u8]);
            valid_utf8_concat(s + seq![46u8], ext);
        }
    }
}

/// The opaque filesystem token of a descriptor: base64 of its query form.
pub open spec fn token_of(src: Seq<char>, opt: CachedImageOption) -> Seq<u8> {
    b64_encode(query_of(src, opt))
}

/// The cache-relative output path: `cache/image/<token>/<source>` with the
/// variant's extension forced.
pub open spec fn rel_path_of(src: Seq<char>, opt: CachedImageOption) -> Seq<u8> {
    set_ext(
        join_segs(seq![lit_cache_image(), token_of(src, opt), encode_utf8(src)]),
        ext_of(opt),
    )
}

/// The output path under a root directory.
pub open spec fn full_path_of(root: Seq<char>, src: Seq<char>, opt: CachedImageOption) -> Seq<
    u8,
> {
    join_segs(seq![encode_utf8(root), rel_path_of(src, opt)])
}

/// The token is ASCII (so it is valid UTF-8 and joins safely).
pub proof fn lemma_token_ascii(src: Seq<char>, opt: CachedImageOption)
    ensures
        is_ascii_bytes(token_of(src, opt)),
        valid_utf8(token_of(src, opt)),
{
    crate::query::lemma_query_ascii(src, opt);
    crate::b64::lemma_b64_shape(query_of(src, opt));
    assert forall|i: int| 0 <= i < token_of(src, opt).len() implies #[trigger] token_of(
        src,
        opt,
    )[i] < 128 by {
        assert(crate::b64::is_b64_out(token_of(src, opt)[i]));
    }
    lemma_ascii_valid_utf8(token_of(src, opt));
}

impl CachedImage {
    /// The opaque path token: standard base64 of the query-string form.
    pub fn encode_for_path(&self) -> (r: String)
        ensures
            encode_utf8(r@) == token_of(self.src@, self.option),
    {
        let qv = crate::query::encode_query(self);
        let tok = crate::b64::b64_encode_exec(qv.as_slice());
        proof {
            lemma_token_ascii(self.src@, self.option);
        }
        bytes_to_string(tok)
    }

    /// Inverse of `encode_for_path` for a single path segment: the token must
    /// be well-formed base64 of a well-formed query string.
    pub fn decode_from_path_segment(t: &str) -> (r: Result<
        CachedImage,
        crate::query::DecodeError,
    >)
        ensures
            ({
                let d = b64_decode(t.spec_bytes());
                match r {
                    Ok(c) => d matches Some(q) && parse_query(q) == Some((c.src@, c.option)),
                    Err(_) => d is None || parse_query(d.unwrap()) is None,
                }
            }),
    {
        let bytes = t.as_bytes();
        match crate::b64::b64_decode_exec(bytes) {
            None => Err(crate::query::DecodeError),
            Some(q) => match crate::query::parse_query_exec(q.as_slice()) {
                Some(d) => Ok(d),
                None => Err(crate::query::DecodeError),
            },
        }
    }

    /// The cache-relative file path of this descriptor's derivative.
    pub fn get_file_path(&self) -> (r: String)
        ensures
            encode_utf8(r@) == rel_path_of(self.src@, self.option),
    {
        let qv = crate::query::encode_query(self);
        let tok = crate::b64::b64_encode_exec(qv.as_slice());
        let mut ci: Vec<u8> = Vec::new();
        ci.push(99);
        ci.push(97);
        ci.push(99);
        ci.push(104);
        ci.push(101);
        ci.push(47);
        ci.push(105);
        ci.push(109);
        ci.push(97);
        ci.push(103);
        ci.push(101);
        proof {
            assert(ci@ =~= lit_cache_image());
        }
        let sb = self.src.as_str().as_bytes();
        let mut joined: Vec<u8> = Vec::new();
        let ghost segs = seq![lit_cache_image(), token_of(self.src@, self.option), sb@];
        proof {
            lemma_token_ascii(self.src@, self.option);
            encode_utf8_valid_utf8(self.src@);
            lemma_ascii_valid_utf8(lit_cache_image());
            lemma_join_snoc(Seq::<Seq<u8>>::empty(), lit_cache_image());
            lemma_join_snoc(Seq::<Seq<u8>>::empty().push(lit_cache_image()), token_of(self.src@, self.option));
            lemma_join_snoc(
                Seq::<Seq<u8>>::empty().push(lit_cache_image()).push(token_of(self.src@, self.option)),
                sb@,
            );
            assert(segs =~= Seq::<Seq<u8>>::empty().push(lit_cache_image()).push(
                token_of(self.src@, self.option),
            ).push(sb@));
            assert(join_segs(Seq::<Seq<u8>>::empty()) == Seq::<u8>::empty());
        }
        join_push(&mut joined, ci.as_slice());
        join_push(&mut joined, tok.as_slice());
        join_push(&mut joined, sb);
        proof {
            assert(joined@ == join_segs(segs));
            lemma_trim_lead_valid(lit_cache_image());
            lemma_trim_trail_valid(trim_lead(lit_cache_image()));
            lemma_trim_lead_valid(token_of(self.src@, self.option));
            lemma_trim_trail_valid(trim_lead(token_of(self.src@, self.option)));
            lemma_trim_lead_valid(sb@);
            lemma_trim_trail_valid(trim_lead(sb@));
            lemma_join1_valid(Seq::<u8>::empty(), trim_seg(lit_cache_image()));
            lemma_join1_valid(
                join1(Seq::<u8>::empty(), trim_seg(lit_cache_image())),
                trim_seg(token_of(self.src@, self.option)),
            );
            lemma_join1_valid(
                join1(
                    join1(Seq::<u8>::empty(), trim_seg(lit_cache_image())),
                    trim_seg(token_of(self.src@, self.option)),
                ),
                trim_seg(sb@),
            );
        }
        let mut ext: Vec<u8> = Vec::new();
        match self.option {
            CachedImageOption::Resize(_) => {
                ext.push(119);
                ext.push(101);
                ext.push(98);
                ext.push(112);
            },
            CachedImageOption::Blur(_) => {
                ext.push(115);
                ext.push(118);
                ext.push(103);
            },
        }
        proof {
            assert(ext@ =~= ext_of(self.option));
            lemma_set_ext_valid(joined@, ext@);
        }
        let out = set_ext_exec(joined, ext.as_slice());
        bytes_to_string(out)
    }
}

/// The path round trip: decoding the path token of any descriptor gives the
/// descriptor back.
pub proof fn lemma_path_segment_round_trip(src: Seq<char>, opt: CachedImageOption)
    ensures
        b64_decode(token_of(src, opt)) == Some(query_of(src, opt)),
        parse_query(query_of(src, opt)) == Some((src, opt)),
{
    crate::b64::lemma_b64_round_trip(query_of(src, opt));
    crate::query::lemma_query_round_trip(src, opt);
}

/// Extension selection: a resize resolves to a `.webp` path and a blur to a
/// `.svg` path, for every source whose final path component is not `..`.
pub proof fn lemma_extension_selected(src: Seq<char>, opt: CachedImageOption)
    requires
        ({
            let p = join_segs(seq![lit_cache_image(), token_of(src, opt), encode_utf8(src)]);
            p.subrange(last_slash(p), p.len() as int) != seq![46u8, 46u8]
        }),
    ensures
        ({
            let r = rel_path_of(src, opt);
            let e = ext_of(opt);
            r.len() > e.len() + 1 && r.subrange(r.len() - e.len() - 1, r.len() as int) == seq![
                46u8,
            ] + e
        }),
{
    let p = join_segs(seq![lit_cache_image(), token_of(src, opt), encode_utf8(src)]);
    let e = ext_of(opt);
    let r = rel_path_of(src, opt);
    let cs = last_slash(p);
    lemma_last_slash(p);
    let comp = p.subrange(cs, p.len() as int);
    let di = rfind_dot(comp);
    lemma_rfind_dot(comp);
    if di > 0 {
        assert(r == p.subrange(0, cs + di) + seq![46u8] + e);
        assert(r.subrange(r.len() - e.len() - 1, r.len() as int) =~= seq![46u8] + e);
    } else {
        assert(r == p + seq![46u8] + e);
        assert(r.len() > e.len() + 1) by {
            lemma_join_nonempty_parts(src, opt);
        }
        assert(r.subrange(r.len() - e.len() - 1, r.len() as int) =~= seq![46u8] + e);
    }
}

/// The joined path always starts with the fixed cache segment, so it is never
/// empty.
proof fn lemma_join_nonempty_parts(src: Seq<char>, opt: CachedImageOption)
    ensures
        join_segs(seq![lit_cache_image(), token_of(src, opt), encode_utf8(src)]).len() >= 11,
{
    let segs = seq![lit_cache_image(), token_of(src, opt), encode_utf8(src)];
    let ci = lit_cache_image();
    assert(trim_lead(ci) == ci);
    assert(trim_trail(ci) == ci);
    assert(trim_seg(segs[0]).len() == 11);
}


/// The first path segment, scanning left to right, whose base64 decoding
/// spells a descriptor; the scheme the reverse lookup relies on.
pub open spec fn first_descriptor_from(bytes: Seq<u8>, from: int) -> Option<
    (Seq<char>, CachedImageOption),
>
    decreases bytes.len() - from,
    when 0 <= from <= bytes.len()
    via first_descriptor_from_decreases
{
    let j = crate::codec::find_slash(bytes, from);
    let seg = bytes.subrange(from, j);
    let cur = match b64_decode(seg) {
        Some(q) => parse_query(q),
        None => None,
    };
    match cur {
        Some(v) => Some(v),
        None => if j >= bytes.len() {
            None
        } else {
            first_descriptor_from(bytes, j + 1)
        },
    }
}

#[via_fn]
proof fn first_descriptor_from_decreases(bytes: Seq<u8>, from: int) {
    crate::codec::lemma_find_slash(bytes, from);
}

impl CachedImage {
    /// Tries to recover a descriptor from an arbitrary cache file path by
    /// base64-decoding each `/`-separated segment and taking the first that
    /// parses. Inherently ambiguous when the source path itself looks like
    /// base64; the token position is the only reliable boundary.
    pub fn from_file_path(path: &str) -> (r: Option<CachedImage>)
        ensures
            match r {
                Some(d) => first_descriptor_from(path.spec_bytes(), 0) == Some(
                    (d.src@, d.option),
                ),
                None => first_descriptor_from(path.spec_bytes(), 0) is None,
            },
    {
        Self::scan_segments(path.as_bytes(), 0)
    }

    /// One scan step: try the segment that starts at `from`, then the rest.
    #[verifier::rlimit(60)]
    #[verifier::spinoff_prover]
    fn scan_segments(bytes: &[u8], from: usize) -> (r: Option<CachedImage>)
        requires
            from <= bytes@.len(),
        ensures
            match r {
                Some(d) => first_descriptor_from(bytes@, from as int) == Some(
                    (d.src@, d.option),
                ),
                None => first_descriptor_from(bytes@, from as int) is None,
            },
        decreases bytes@.len() - from,
    {
        let j = crate::codec::find_slash_exec(bytes, from);
        let seg = sub_vec(bytes, from, j);
        let cur: Option<CachedImage> = match crate::b64::b64_decode_exec(seg.as_slice()) {
            Some(q) => crate::query::parse_query_exec(q.as_slice()),
            None => None,
        };
        match cur {
            Some(d) => Some(d),
            None => {
                if j >= bytes.len() {
                    None
                } else {
                    Self::scan_segments(bytes, j + 1)
                }
            },
        }
    }
}


/// What trimming guarantees at the ends.
proof fn lemma_trim_trail_last(s: Seq<u8>)
    ensures
        trim_trail(s).len() > 0 ==> trim_trail(s).last() != 47,
    decreases s.len(),
{
    if s.len() > 0 && s.last() == 47 {
        lemma_trim_trail_last(s.drop_last());
    }
}

proof fn lemma_trim_lead_first(s: Seq<u8>)
    ensures
        trim_lead(s).len() > 0 ==> trim_lead(s)[0] != 47,
    decreases s.len(),
{
    if s.len() > 0 && s[0] == 47 {
        lemma_trim_lead_first(s.drop_first());
    }
}

proof fn lemma_trim_seg_ends(s: Seq<u8>)
    ensures
        trim_seg(s).len() > 0 ==> trim_seg(s)[0] != 47 && trim_seg(s).last() != 47,
    decreases s.len(),
{
    lemma_trim_lead_first(s);
    lemma_trim_trail_last(trim_lead(s));
    let tl = trim_lead(s);
    let tt = trim_trail(tl);
    if tt.len() > 0 {
        assert(tt[0] != 47) by {
            lemma_trim_trail_prefix(tl);
        }
    }
}

/// The trailing trim keeps a prefix of its input.
proof fn lemma_trim_trail_prefix(s: Seq<u8>)
    ensures
        trim_trail(s).len() <= s.len(),
        forall|i: int| 0 <= i < trim_trail(s).len() ==> trim_trail(s)[i] == s[i],
    decreases s.len(),
{
    if s.len() > 0 && s.last() == 47 {
        lemma_trim_trail_prefix(s.drop_last());
        assert forall|i: int| 0 <= i < trim_trail(s).len() implies trim_trail(s)[i] == s[i] by {
            assert(s.drop_last()[i] == s[i]);
        }
    }
}

/// Tokens join cleanly: a token is never empty and never starts or ends with
/// a slash, so trimming leaves it whole, and its alphabet avoids `.` always
/// and `/` everywhere but the last slot of a four-byte group.
proof fn lemma_token_shape(src: Seq<char>, opt: CachedImageOption)
    ensures
        ({
            let tok = token_of(src, opt);
            &&& tok.len() >= 4
            &&& tok.len() % 4 == 0
            &&& trim_seg(tok) == tok
            &&& tok.last() != 47
            &&& forall|j: int|
                0 <= j < tok.len() ==> crate::b64::is_b64_out(#[trigger] tok[j]) && tok[j] != 46
            &&& forall|j: int| 0 <= j < tok.len() && j % 4 != 3 ==> #[trigger] tok[j] != 47
        }),
{
    let q = query_of(src, opt);
    let tok = token_of(src, opt);
    crate::query::lemma_query_ascii(src, opt);
    crate::query::lemma_query_shape(src, opt);
    crate::b64::lemma_b64_shape(q);
    let g: int = ((q.len() + 2) / 3) as int;
    assert(tok.len() == 4 * g);
    assert(g >= 1);
    assert((4 * g) % 4 == 0) by (nonlinear_arith);
    assert forall|j: int| 0 <= j < tok.len() implies crate::b64::is_b64_out(#[trigger] tok[j])
        && tok[j] != 46 by {
        assert(crate::b64::is_b64_out(tok[j]));
    }
    assert(tok[0] != 47);
    assert(trim_lead(tok) == tok);
    assert(trim_trail(tok) == tok);
}

/// The resolved relative path opens with `cache/image/`, carries the whole
/// token next, and resumes with `.` or `/` right after the token.
#[verifier::rlimit(100)]
#[verifier::spinoff_prover]
pub proof fn lemma_rel_path_structure(src: Seq<char>, opt: CachedImageOption)
    ensures
        ({
            let rel = rel_path_of(src, opt);
            let tok = token_of(src, opt);
            &&& rel.len() > 12 + tok.len()
            &&& rel.subrange(0, 12) == lit_cache_image() + seq![47u8]
            &&& rel.subrange(12, 12 + tok.len() as int) == tok
            &&& (rel[12 + tok.len() as int] == 46 || rel[12 + tok.len() as int] == 47)
            &&& (trim_seg(encode_utf8(src)).len() > 0 ==> rel[12 + tok.len() as int] == 47)
            &&& rel[0] == 99
            &&& rel.last() != 47
        }),
{
    let rel = rel_path_of(src, opt);
    let tok = token_of(src, opt);
    let ci = lit_cache_image();
    let sb = encode_utf8(src);
    let e = ext_of(opt);
    lemma_token_shape(src, opt);
    assert(trim_seg(ci) == ci) by {
        assert(trim_lead(ci) == ci);
        assert(trim_trail(ci) == ci);
    }
    let segs = seq![ci, tok, sb];
    let tsb = trim_seg(sb);
    lemma_trim_seg_ends(sb);
    assert(segs.len() == 3 && segs[0] == ci);
    assert(seq![tok, sb].len() == 2 && seq![tok, sb][0] == tok);
    assert(seq![sb].len() == 1 && seq![sb][0] == sb);
    assert(segs.drop_first() =~= seq![tok, sb]);
    assert(seq![tok, sb].drop_first() =~= seq![sb]);
    assert(seq![sb].drop_first() =~= Seq::<Seq<u8>>::empty());
    assert(join_segs(Seq::<Seq<u8>>::empty()) == Seq::<u8>::empty());
    let j1 = join_segs(seq![sb]);
    assert(j1 == (if tsb.len() == 0 { Seq::<u8>::empty() } else { tsb }));
    let j2 = join_segs(seq![tok, sb]);
    assert(j2 == (if tsb.len() == 0 { tok } else { tok + seq![47u8] + tsb }));
    let p = join_segs(segs);
    assert(p == ci + seq![47u8] + j2);
    assert(p.len() == 12 + j2.len());
    // indexing of the joined path
    assert forall|i: int| 0 <= i < p.len() implies p[i] == (if i < 11 {
        ci[i]
    } else if i == 11 {
        47u8
    } else {
        j2[i - 12]
    }) by {
        if i < 11 {
            assert(p[i] == (ci + seq![47u8])[i]);
        } else if i == 11 {
            assert(p[i] == (ci + seq![47u8])[i]);
        }
    }
    assert forall|i: int| 12 <= i < 12 + tok.len() implies p[i] == tok[i - 12] by {
        if tsb.len() > 0 {
            assert(j2[i - 12] == (tok + seq![47u8])[i - 12]);
        }
    }
    assert(p[11] == 47);
    let cs = last_slash(p);
    lemma_last_slash(p);
    assert(cs >= 12) by {
        if cs < 12 {
            assert(p[11] != 47);
        }
    }
    let comp = p.subrange(cs, p.len() as int);
    lemma_rfind_dot(comp);
    let di = rfind_dot(comp);
    if tsb.len() == 0 {
        // the last component is a suffix of the token: no dot in it
        assert(p.len() == 12 + tok.len());
        assert(comp.len() > 0) by {
            assert(p.last() == tok.last());
            assert(cs < p.len()) by {
                if cs == p.len() {
                    assert(p[cs - 1] == 47);
                    assert(p[p.len() - 1] == tok[tok.len() - 1]);
                }
            }
        }
        assert forall|m: int| 0 <= m < comp.len() implies comp[m] != 46 by {
            assert(comp[m] == p[cs + m]);
            assert(p[cs + m] == tok[cs + m - 12]);
        }
        assert(comp[0] != 46);
        assert(comp != seq![46u8, 46u8]);
        assert(di == -1) by {
            if di >= 0 {
                assert(comp[di] == 46);
            }
        }
        assert(rel == p + seq![46u8] + e);
        assert(rel.subrange(12, 12 + tok.len() as int) =~= tok);
        assert(rel[12 + tok.len() as int] == 46);
        assert(rel.subrange(0, 12) =~= ci + seq![47u8]);
        assert(rel.last() == e.last());
    } else {
        assert(p.len() == 12 + tok.len() + 1 + tsb.len());
        assert(p[12 + tok.len() as int] == j2[tok.len() as int]);
        assert(j2[tok.len() as int] == 47) by {
            assert(j2 == tok + seq![47u8] + tsb);
            assert(j2[tok.len() as int] == (tok + seq![47u8])[tok.len() as int]);
        }
        assert(cs >= 13 + tok.len()) by {
            if cs < 13 + tok.len() {
                assert(p[12 + tok.len() as int] != 47);
            }
        }
        assert(comp.len() > 0) by {
            assert(p.last() == j2.last());
            assert(j2.last() == tsb.last());
            assert(tsb.last() != 47);
            if cs == p.len() {
                assert(p[cs - 1] == 47);
            }
        }
        if comp == seq![46u8, 46u8] {
            assert(rel == p);
            assert(rel.subrange(12, 12 + tok.len() as int) =~= tok);
            assert(rel[12 + tok.len() as int] == 47);
            assert(rel.subrange(0, 12) =~= ci + seq![47u8]);
            assert(rel.last() == tsb.last());
        } else if di > 0 {
            assert(rel == p.subrange(0, cs + di) + seq![46u8] + e);
            assert(rel.len() == cs + di + 1 + e.len());
            assert forall|i: int| 0 <= i < cs + di implies rel[i] == p[i] by {
                assert(rel[i] == p.subrange(0, cs + di)[i]);
            }
            assert(rel.subrange(12, 12 + tok.len() as int) =~= tok);
            assert(rel[12 + tok.len() as int] == 47);
            assert(rel.subrange(0, 12) =~= ci + seq![47u8]);
            assert(rel.last() == e.last());
        } else {
            assert(rel == p + seq![46u8] + e);
            assert(rel.subrange(12, 12 + tok.len() as int) =~= tok);
            assert(rel[12 + tok.len() as int] == 47);
            assert(rel.subrange(0, 12) =~= ci + seq![47u8]);
            assert(rel.last() == e.last());
        }
    }
}


/// Two descriptors whose relative paths coincide cannot have tokens of
/// different lengths: right after the shorter token the path resumes with
/// `.` or `/`, while inside the longer token that slot holds an alphabet
/// byte (never `.`, and `/` only closes a four-byte group).
proof fn lemma_token_length_clash(
    src1: Seq<char>,
    opt1: CachedImageOption,
    src2: Seq<char>,
    opt2: CachedImageOption,
)
    requires
        token_of(src1, opt1).len() < token_of(src2, opt2).len(),
    ensures
        rel_path_of(src1, opt1) != rel_path_of(src2, opt2),
{
    let rel1 = rel_path_of(src1, opt1);
    let rel2 = rel_path_of(src2, opt2);
    let t1 = token_of(src1, opt1);
    let t2 = token_of(src2, opt2);
    lemma_rel_path_structure(src1, opt1);
    lemma_rel_path_structure(src2, opt2);
    lemma_token_shape(src1, opt1);
    lemma_token_shape(src2, opt2);
    if rel1 == rel2 {
        let pos = 12 + t1.len() as int;
        assert(rel1[pos] == 46 || rel1[pos] == 47);
        assert(rel2[pos] == t2[t1.len() as int]) by {
            assert(rel2.subrange(12, 12 + t2.len() as int)[t1.len() as int] == rel2[pos]);
        }
        let j = t1.len() as int;
        assert(j % 4 == 0);
        assert(t2[j] != 47);
        assert(t2[j] != 46);
    }
}

/// Content-addressing: under any root, two distinct descriptors resolve to
/// distinct output paths. The token region decides: tokens of equal length
/// must be equal (and then the descriptors are, by the two round trips), and
/// unequal lengths collide with the byte that follows the shorter token.
pub proof fn lemma_content_addressing(
    root: Seq<char>,
    src1: Seq<char>,
    opt1: CachedImageOption,
    src2: Seq<char>,
    opt2: CachedImageOption,
)
    requires
        !(src1 == src2 && opt1 == opt2),
    ensures
        full_path_of(root, src1, opt1) != full_path_of(root, src2, opt2),
{
    let rb = encode_utf8(root);
    let rel1 = rel_path_of(src1, opt1);
    let rel2 = rel_path_of(src2, opt2);
    let full1 = full_path_of(root, src1, opt1);
    let full2 = full_path_of(root, src2, opt2);
    lemma_rel_path_structure(src1, opt1);
    lemma_rel_path_structure(src2, opt2);
    if full1 == full2 {
        let tr = trim_seg(rb);
        assert(seq![rb, rel1].len() == 2 && seq![rb, rel1][0] == rb);
        assert(seq![rb, rel1].drop_first() =~= seq![rel1]);
        assert(seq![rel1].len() == 1 && seq![rel1][0] == rel1);
        assert(seq![rel1].drop_first() =~= Seq::<Seq<u8>>::empty());
        assert(seq![rb, rel2].drop_first() =~= seq![rel2]);
        assert(seq![rel2].len() == 1 && seq![rel2][0] == rel2);
        assert(seq![rel2].drop_first() =~= Seq::<Seq<u8>>::empty());
        assert(trim_seg(rel1) == rel1) by {
            assert(rel1.len() > 0 && rel1[0] == 99 && rel1.last() != 47);
            assert(trim_lead(rel1) == rel1);
            assert(trim_trail(rel1) == rel1);
        }
        assert(trim_seg(rel2) == rel2) by {
            assert(rel2.len() > 0 && rel2[0] == 99 && rel2.last() != 47);
            assert(trim_lead(rel2) == rel2);
            assert(trim_trail(rel2) == rel2);
        }
        assert(join_segs(Seq::<Seq<u8>>::empty()) == Seq::<u8>::empty());
        assert(join_segs(seq![rel1]) == rel1);
        assert(join_segs(seq![rel2]) == rel2);
        assert(full1 == join1(tr, rel1));
        assert(full2 == join1(tr, rel2));
        let a = tr.len() as int;
        if tr.len() == 0 {
            assert(rel1 == rel2);
        } else {
            assert(full1 == tr + seq![47u8] + rel1);
            assert(full2 == tr + seq![47u8] + rel2);
            assert(rel1.len() == rel2.len());
            assert(rel1 =~= rel2) by {
                assert forall|i: int| 0 <= i < rel1.len() implies rel1[i] == rel2[i] by {
                    assert(full1[a + 1 + i] == rel1[i]);
                    assert(full2[a + 1 + i] == rel2[i]);
                }
            }
        }
        let t1 = token_of(src1, opt1);
        let t2 = token_of(src2, opt2);
        if t1.len() == t2.len() {
            assert(t1 =~= t2) by {
                assert(rel1.subrange(12, 12 + t1.len() as int) == rel2.subrange(
                    12,
                    12 + t2.len() as int,
                ));
            }
            crate::b64::lemma_b64_injective(query_of(src1, opt1), query_of(src2, opt2));
            crate::query::lemma_query_injective(src1, opt1, src2, opt2);
        } else if t1.len() < t2.len() {
            lemma_token_length_clash(src1, opt1, src2, opt2);
        } else {
            lemma_token_length_clash(src2, opt2, src1, opt1);
        }
    }
}


/// The token never holds a slash: every query byte stays below DEL and is
/// never `?`, so no six-bit group of the base64 form comes out as 63.
proof fn lemma_token_slash_free(src: Seq<char>, opt: CachedImageOption)
    ensures
        forall|j: int| 0 <= j < token_of(src, opt).len() ==> #[trigger] token_of(src, opt)[j] != 47,
{
    crate::query::lemma_query_ascii(src, opt);
    crate::b64::lemma_b64_no_slash(query_of(src, opt));
}

/// The reverse lookup: scanning the resolved relative path of any descriptor
/// whose source does not trim away entirely lands on the token segment and
/// recovers the descriptor. (A source of slashes only folds the extension
/// onto the token itself, and the scan then finds nothing.)
#[verifier::rlimit(100)]
#[verifier::spinoff_prover]
pub proof fn lemma_reverse_lookup(src: Seq<char>, opt: CachedImageOption)
    requires
        trim_seg(encode_utf8(src)).len() > 0,
    ensures
        first_descriptor_from(rel_path_of(src, opt), 0) == Some((src, opt)),
{
    let rel = rel_path_of(src, opt);
    let tok = token_of(src, opt);
    lemma_rel_path_structure(src, opt);
    lemma_token_shape(src, opt);
    lemma_token_slash_free(src, opt);
    let pre = lit_cache_image() + seq![47u8];
    assert forall|i: int| 0 <= i < 12 implies rel[i] == pre[i] by {
        assert(rel.subrange(0, 12)[i] == rel[i]);
    }
    assert forall|i: int| 12 <= i < 12 + tok.len() implies rel[i] == tok[i - 12] by {
        assert(rel.subrange(12, 12 + tok.len() as int)[i - 12] == rel[i]);
    }
    // first segment: `cache`, which is not well-formed base64
    crate::codec::lemma_find_slash_at(rel, 0, 5);
    let seg1 = rel.subrange(0, 5);
    assert(seg1 =~= seq![99u8, 97u8, 99u8, 104u8, 101u8]);
    assert(b64_decode(seg1) is None) by {
        assert(seg1.len() == 5);
        assert(seg1[3] == 104);
        assert(seg1.skip(4) =~= seq![101u8]);
        assert(b64_decode(seg1.skip(4)) is None);
    }
    // second segment: `image`, not well-formed base64 either
    crate::codec::lemma_find_slash_at(rel, 6, 11);
    let seg2 = rel.subrange(6, 11);
    assert(seg2 =~= seq![105u8, 109u8, 97u8, 103u8, 101u8]);
    assert(b64_decode(seg2) is None) by {
        assert(seg2.len() == 5);
        assert(seg2[3] == 103);
        assert(seg2.skip(4) =~= seq![101u8]);
        assert(b64_decode(seg2.skip(4)) is None);
    }
    // third segment: the whole token, followed by the separator
    assert(rel[12 + tok.len() as int] == 47);
    assert forall|k: int| 12 <= k < 12 + tok.len() implies rel[k] != 47 by {
        assert(rel[k] == tok[k - 12]);
    }
    crate::codec::lemma_find_slash_at(rel, 12, 12 + tok.len() as int);
    assert(rel.subrange(12, 12 + tok.len() as int) == tok);
    crate::b64::lemma_b64_round_trip(query_of(src, opt));
    crate::query::lemma_query_round_trip(src, opt);
    assert(first_descriptor_from(rel, 12) == Some((src, opt)));
    assert(first_descriptor_from(rel, 6) == Some((src, opt)));
    assert(first_descriptor_from(rel, 0) == Some((src, opt)));
}

} // verus!
