//! Byte-level text helpers shared by the Dockerfile decoder and the DNS codec:
//! ASCII predicates, scanners over byte sequences with their characterization
//! lemmas, joining and decimal rendering.
use vstd::prelude::*;

use vstd::slice::slice_subrange;
use vstd::string::StrSliceExecFns;

verus! {

pub const SPACE: u8 = 32;

pub const TAB: u8 = 9;

pub const NEWLINE: u8 = 10;

pub const HASH: u8 = 35;

pub const BACKSLASH: u8 = 92;

pub const DQUOTE: u8 = 34;

pub const LBRACKET: u8 = 91;

pub const RBRACKET: u8 = 93;

pub const COMMA: u8 = 44;

/// The bytes of an ASCII character sequence, character by character.
pub open spec fn bytes_of(s: Seq<char>) -> Seq<u8> {
    s.map_values(|c: char| c as u8)
}

/// Bytes of an ASCII string literal, as a `Vec<u8>`.
pub fn lit(s: &str) -> (r: Vec<u8>)
    requires
        s.is_ascii(),
    ensures
        r@ == bytes_of(s@),
        r@.len() == s@.len(),
{
    proof {
        broadcast use vstd::string::is_ascii_spec_bytes;
    }
    let r = s.as_bytes_vec();
    proof {
        assert(r@ =~= bytes_of(s@));
    }
    r
}

pub open spec fn is_line_space(b: u8) -> bool {
    b == SPACE || b == TAB
}

pub open spec fn is_alpha(b: u8) -> bool {
    (65 <= b && b <= 90) || (97 <= b && b <= 122)
}

pub open spec fn is_digit(b: u8) -> bool {
    48 <= b && b <= 57
}

pub open spec fn to_upper(b: u8) -> u8 {
    if 97 <= b && b <= 122 {
        (b - 32) as u8
    } else {
        b
    }
}

pub open spec fn upper_bytes(s: Seq<u8>) -> Seq<u8> {
    s.map_values(|b: u8| to_upper(b))
}

pub fn line_space(b: u8) -> (r: bool)
    ensures
        r == is_line_space(b),
{
    b == SPACE || b == TAB
}

pub fn alpha(b: u8) -> (r: bool)
    ensures
        r == is_alpha(b),
{
    (65 <= b && b <= 90) || (97 <= b && b <= 122)
}

pub fn digit(b: u8) -> (r: bool)
    ensures
        r == is_digit(b),
{
    48 <= b && b <= 57
}

pub fn upper(b: u8) -> (r: u8)
    ensures
        r == to_upper(b),
{
    if 97 <= b && b <= 122 {
        b - 32
    } else {
        b
    }
}

/// First index at or after `i` whose byte is not a space or tab; `s.len()` if none.
pub open spec fn ws_end(s: Seq<u8>, i: int) -> int
    decreases s.len() - i,
{
    if !(0 <= i < s.len()) {
        i
    } else if !is_line_space(s[i]) {
        i
    } else {
        ws_end(s, i + 1)
    }
}

pub proof fn lemma_ws_end(s: Seq<u8>, i: int)
    requires
        0 <= i <= s.len(),
    ensures
        i <= ws_end(s, i) <= s.len(),
        forall|j: int| i <= j < ws_end(s, i) ==> is_line_space(s[j]),
        ws_end(s, i) < s.len() ==> !is_line_space(s[ws_end(s, i)]),
    decreases s.len() - i,
{
    if i < s.len() && is_line_space(s[i]) {
        lemma_ws_end(s, i + 1);
    }
}

pub proof fn lemma_ws_end_is(s: Seq<u8>, i: int, j: int)
    requires
        0 <= i <= j <= s.len(),
        forall|k: int| i <= k < j ==> is_line_space(s[k]),
        j == s.len() || !is_line_space(s[j]),
    ensures
        ws_end(s, i) == j,
    decreases j - i,
{
    if i < j {
        lemma_ws_end_is(s, i + 1, j);
    }
}

/// First index at or after `i` whose byte is not an ASCII letter; `s.len()` if none.
pub open spec fn alpha_end(s: Seq<u8>, i: int) -> int
    decreases s.len() - i,
{
    if !(0 <= i < s.len()) {
        i
    } else if !is_alpha(s[i]) {
        i
    } else {
        alpha_end(s, i + 1)
    }
}

pub proof fn lemma_alpha_end(s: Seq<u8>, i: int)
    requires
        0 <= i <= s.len(),
    ensures
        i <= alpha_end(s, i) <= s.len(),
        forall|j: int| i <= j < alpha_end(s, i) ==> is_alpha(s[j]),
        alpha_end(s, i) < s.len() ==> !is_alpha(s[alpha_end(s, i)]),
    decreases s.len() - i,
{
    if i < s.len() && is_alpha(s[i]) {
        lemma_alpha_end(s, i + 1);
    }
}

pub proof fn lemma_alpha_end_is(s: Seq<u8>, i: int, j: int)
    requires
        0 <= i <= j <= s.len(),
        forall|k: int| i <= k < j ==> is_alpha(s[k]),
        j == s.len() || !is_alpha(s[j]),
    ensures
        alpha_end(s, i) == j,
    decreases j - i,
{
    if i < j {
        lemma_alpha_end_is(s, i + 1, j);
    }
}

/// First index at or after `i` holding byte `b`; `s.len()` if none.
pub open spec fn find_byte(s: Seq<u8>, i: int, b: u8) -> int
    decreases s.len() - i,
{
    if !(0 <= i < s.len()) {
        i
    } else if s[i] == b {
        i
    } else {
        find_byte(s, i + 1, b)
    }
}

pub proof fn lemma_find_byte(s: Seq<u8>, i: int, b: u8)
    requires
        0 <= i <= s.len(),
    ensures
        i <= find_byte(s, i, b) <= s.len(),
        forall|j: int| i <= j < find_byte(s, i, b) ==> s[j] != b,
        find_byte(s, i, b) < s.len() ==> s[find_byte(s, i, b)] == b,
    decreases s.len() - i,
{
    if i < s.len() && s[i] != b {
        lemma_find_byte(s, i + 1, b);
    }
}

pub proof fn lemma_find_byte_is(s: Seq<u8>, i: int, b: u8, j: int)
    requires
        0 <= i <= j <= s.len(),
        forall|k: int| i <= k < j ==> s[k] != b,
        j == s.len() || s[j] == b,
    ensures
        find_byte(s, i, b) == j,
    decreases j - i,
{
    if i < j {
        lemma_find_byte_is(s, i + 1, b, j);
    }
}

pub fn ws_end_exec(s: &[u8], i: usize) -> (r: usize)
    requires
        i <= s@.len(),
    ensures
        r == ws_end(s@, i as int),
        i <= r <= s@.len(),
{
    let mut j: usize = i;
    loop
        invariant
            i <= j <= s@.len(),
            forall|k: int| i <= k < j ==> is_line_space(s@[k]),
        decreases s@.len() - j,
    {
        if j == s.len() || !line_space(s[j]) {
            proof {
                lemma_ws_end_is(s@, i as int, j as int);
            }
            return j;
        }
        j = j + 1;
    }
}

pub fn alpha_end_exec(s: &[u8], i: usize) -> (r: usize)
    requires
        i <= s@.len(),
    ensures
        r == alpha_end(s@, i as int),
        i <= r <= s@.len(),
{
    let mut j: usize = i;
    loop
        invariant
            i <= j <= s@.len(),
            forall|k: int| i <= k < j ==> is_alpha(s@[k]),
        decreases s@.len() - j,
    {
        if j == s.len() || !alpha(s[j]) {
            proof {
                lemma_alpha_end_is(s@, i as int, j as int);
            }
            return j;
        }
        j = j + 1;
    }
}

pub fn find_byte_exec(s: &[u8], i: usize, b: u8) -> (r: usize)
    requires
        i <= s@.len(),
    ensures
        r == find_byte(s@, i as int, b),
        i <= r <= s@.len(),
{
    let mut j: usize = i;
    loop
        invariant
            i <= j <= s@.len(),
            forall|k: int| i <= k < j ==> s@[k] != b,
        decreases s@.len() - j,
    {
        if j == s.len() || s[j] == b {
            proof {
                lemma_find_byte_is(s@, i as int, b, j as int);
            }
            return j;
        }
        j = j + 1;
    }
}

/// Copy of `s[i..j]` as a fresh vector.
pub fn sub_vec(s: &[u8], i: usize, j: usize) -> (r: Vec<u8>)
    requires
        i <= j <= s@.len(),
    ensures
        r@ == s@.subrange(i as int, j as int),
{
    let piece: &[u8] = slice_subrange(s, i, j);
    let mut r: Vec<u8> = Vec::new();
    r.extend_from_slice(piece);
    proof {
        assert(r@ =~= s@.subrange(i as int, j as int));
    }
    r
}

/// Append all of `s` onto `out`.
pub fn push_bytes(out: &mut Vec<u8>, s: &[u8])
    ensures
        final(out)@ == old(out)@ + s@,
{
    out.extend_from_slice(s);
    proof {
        assert(out@ =~= old(out)@ + s@);
    }
}

/// Append the bytes of an ASCII literal onto `out`.
pub fn push_lit(out: &mut Vec<u8>, s: &str)
    requires
        s.is_ascii(),
    ensures
        final(out)@ == old(out)@ + bytes_of(s@),
{
    let v = lit(s);
    push_bytes(out, v.as_slice());
}

pub fn bytes_eq(a: &[u8], b: &[u8]) -> (r: bool)
    ensures
        r == (a@ == b@),
{
    if a.len() != b.len() {
        proof {
            assert(a@ != b@);
        }
        return false;
    }
    let n: usize = a.len();
    let mut i: usize = 0;
    while i < n
        invariant
            n == a@.len() == b@.len(),
            i <= n,
            forall|k: int| 0 <= k < i ==> a@[k] == b@[k],
        decreases n - i,
    {
        if a[i] != b[i] {
            proof {
                assert(a@ != b@);
            }
            return false;
        }
        i = i + 1;
    }
    proof {
        assert(a@ =~= b@);
    }
    true
}

/// The elements of `xs` concatenated with `sep` between neighbours.
pub open spec fn spec_join(xs: Seq<Seq<u8>>, sep: Seq<u8>) -> Seq<u8>
    decreases xs.len(),
{
    if xs.len() == 0 {
        Seq::empty()
    } else if xs.len() == 1 {
        xs[0]
    } else {
        xs[0] + sep + spec_join(xs.drop_first(), sep)
    }
}

/// Join byte strings with a separator.
pub fn join(xs: &Vec<Vec<u8>>, sep: &Vec<u8>) -> (r: Vec<u8>)
    ensures
        r@ == spec_join(xs.deep_view(), sep@),
    decreases xs@.len(),
{
    let mut r: Vec<u8> = Vec::new();
    let n: usize = xs.len();
    let mut i: usize = 0;
    while i < n
        invariant
            n == xs@.len(),
            i <= n,
            r@ == spec_join_prefix(xs.deep_view(), sep@, i as int),
        decreases n - i,
    {
        if i > 0 {
            push_bytes(&mut r, sep.as_slice());
        }
        push_bytes(&mut r, xs[i].as_slice());
        proof {
            lemma_spec_join_prefix_step(xs.deep_view(), sep@, i as int);
        }
        i = i + 1;
    }
    proof {
        lemma_spec_join_prefix_all(xs.deep_view(), sep@);
    }
    r
}

/// Join of the first `i` elements, used as a loop invariant shape.
pub open spec fn spec_join_prefix(xs: Seq<Seq<u8>>, sep: Seq<u8>, i: int) -> Seq<u8> {
    spec_join(xs.subrange(0, i), sep)
}

proof fn lemma_spec_join_step(xs: Seq<Seq<u8>>, sep: Seq<u8>)
    requires
        xs.len() >= 1,
    ensures
        spec_join(xs, sep) == if xs.len() == 1 {
            xs[0]
        } else {
            spec_join(xs.drop_last(), sep) + sep + xs.last()
        },
    decreases xs.len(),
{
    if xs.len() > 1 {
        lemma_spec_join_step(xs.drop_first(), sep);
        assert(xs.drop_first().drop_last() =~= xs.drop_last().drop_first());
        if xs.len() == 2 {
            assert(spec_join(xs.drop_last(), sep) == xs[0]);
        } else {
            assert(xs.drop_last().len() > 1);
            assert(spec_join(xs.drop_last(), sep) == xs.drop_last()[0] + sep + spec_join(
                xs.drop_last().drop_first(),
                sep,
            ));
        }
        assert(spec_join(xs, sep) =~= spec_join(xs.drop_last(), sep) + sep + xs.last());
    }
}

proof fn lemma_spec_join_prefix_step(xs: Seq<Seq<u8>>, sep: Seq<u8>, i: int)
    requires
        0 <= i < xs.len(),
    ensures
        spec_join_prefix(xs, sep, i + 1) == if i == 0 {
            xs[0]
        } else {
            spec_join_prefix(xs, sep, i) + sep + xs[i]
        },
{
    let pre = xs.subrange(0, i + 1);
    lemma_spec_join_step(pre, sep);
    assert(pre.drop_last() =~= xs.subrange(0, i));
    if i == 0 {
        assert(spec_join(pre, sep) == pre[0]);
    }
}

proof fn lemma_spec_join_prefix_all(xs: Seq<Seq<u8>>, sep: Seq<u8>)
    ensures
        spec_join_prefix(xs, sep, xs.len() as int) == spec_join(xs, sep),
{
    assert(xs.subrange(0, xs.len() as int) =~= xs);
}

/// Decimal rendering of a non-negative integer.
pub open spec fn spec_dec(n: int) -> Seq<u8>
    decreases n,
{
    if n < 10 {
        seq![(48 + if n >= 0 { n } else { 0 }) as u8]
    } else {
        spec_dec(n / 10) + seq![(48 + n % 10) as u8]
    }
}

pub fn dec_u16(n: u16) -> (r: Vec<u8>)
    ensures
        r@ == spec_dec(n as int),
    decreases n,
{
    if n < 10 {
        let mut r: Vec<u8> = Vec::new();
        r.push(48 + (n as u8));
        proof {
            assert(r@ =~= spec_dec(n as int));
        }
        r
    } else {
        let mut r = dec_u16(n / 10);
        r.push(48 + ((n % 10) as u8));
        proof {
            assert(r@ =~= spec_dec(n as int));
        }
        r
    }
}

pub open spec fn all_digits(s: Seq<u8>) -> bool {
    forall|i: int| 0 <= i < s.len() ==> is_digit(s[i])
}

/// Numeric value of a digit string, most significant digit first.
pub open spec fn spec_digits_val(s: Seq<u8>) -> int
    decreases s.len(),
{
    if s.len() == 0 {
        0
    } else {
        spec_digits_val(s.drop_last()) * 10 + (s.last() - 48)
    }
}

pub proof fn lemma_dec_digits(n: int)
    requires
        n >= 0,
    ensures
        all_digits(spec_dec(n)),
        spec_digits_val(spec_dec(n)) == n,
        spec_dec(n).len() >= 1,
    decreases n,
{
    if n < 10 {
        assert(spec_dec(n) =~= seq![(48 + n) as u8]);
        assert(spec_dec(n).drop_last() =~= Seq::<u8>::empty());
        assert(spec_digits_val(Seq::<u8>::empty()) == 0);
        assert(spec_digits_val(spec_dec(n)) == ((48 + n) as u8) - 48);
    } else {
        lemma_dec_digits(n / 10);
        assert(spec_dec(n).drop_last() =~= spec_dec(n / 10));
        assert(spec_dec(n).last() == (48 + n % 10) as u8);
        assert(spec_digits_val(spec_dec(n)) == spec_digits_val(spec_dec(n / 10)) * 10 + (((48 + n
            % 10) as u8) - 48));
        assert(n / 10 * 10 + n % 10 == n);
    }
}

pub proof fn lemma_digits_val_bounds(s: Seq<u8>)
    requires
        all_digits(s),
    ensures
        spec_digits_val(s) >= 0,
    decreases s.len(),
{
    if s.len() > 0 {
        assert(all_digits(s.drop_last()));
        lemma_digits_val_bounds(s.drop_last());
    }
}

/// Parse a decimal port number; `None` unless the whole string is digits and
/// the value fits in sixteen bits.
pub open spec fn spec_parse_port(s: Seq<u8>) -> Option<u16> {
    if s.len() > 0 && all_digits(s) && spec_digits_val(s) <= 65535 {
        Some(spec_digits_val(s) as u16)
    } else {
        None
    }
}

proof fn lemma_digits_val_prefix(s: Seq<u8>, k: int)
    requires
        all_digits(s),
        0 <= k <= s.len(),
    ensures
        spec_digits_val(s) >= spec_digits_val(s.subrange(0, k)),
    decreases s.len() - k,
{
    lemma_digits_val_bounds(s);
    if k < s.len() {
        lemma_digits_val_prefix(s, k + 1);
        let p = s.subrange(0, k + 1);
        assert(p.drop_last() =~= s.subrange(0, k));
        assert(all_digits(p));
        lemma_digits_val_bounds(p.drop_last());
        assert(spec_digits_val(p) == spec_digits_val(s.subrange(0, k)) * 10 + (p.last() - 48));
        assert(spec_digits_val(p) >= spec_digits_val(s.subrange(0, k)));
    } else {
        assert(s.subrange(0, k) =~= s);
    }
}

pub fn parse_port(s: &[u8]) -> (r: Option<u16>)
    ensures
        r == spec_parse_port(s@),
{
    let n: usize = s.len();
    if n == 0 {
        return None;
    }
    let mut acc: u32 = 0;
    let mut i: usize = 0;
    while i < n
        invariant
            n == s@.len(),
            0 < n,
            i <= n,
            forall|k: int| 0 <= k < i ==> is_digit(s@[k]),
            acc == spec_digits_val(s@.subrange(0, i as int)),
            acc <= 65535,
        decreases n - i,
    {
        if !digit(s[i]) {
            return None;
        }
        let d: u32 = (s[i] - 48) as u32;
        proof {
            assert(s@.subrange(0, i + 1).drop_last() =~= s@.subrange(0, i as int));
        }
        let next: u32 = acc * 10 + d;
        if next > 65535 {
            proof {
                assert(forall|k: int| 0 <= k < i + 1 ==> is_digit(s@[k]));
                if all_digits(s@) {
                    lemma_digits_val_prefix(s@, i + 1);
                }
            }
            return None;
        }
        acc = next;
        i = i + 1;
    }
    proof {
        assert(s@.subrange(0, n as int) =~= s@);
    }
    Some(acc as u16)
}

} // verus!
