//! Character-sequence utilities shared by the whole pipeline.
//!
//! Source text is handled as a sequence of Unicode scalar values; byte
//! lengths are recovered through the UTF-8 width of each scalar.  Keys are
//! ordered lexicographically by scalar value, which coincides with the
//! byte-lexicographic order of their UTF-8 encodings.

use vstd::prelude::*;
use vstd::string::StrSliceExecFns;

verus! {

/// Two characters with the same scalar value are the same character.
pub proof fn lemma_char_eq(c1: char, c2: char)
    requires
        c1 as u32 == c2 as u32,
    ensures
        c1 == c2,
{
    vstd::utf8::char_u32_cast(c1, c1 as u32);
    vstd::utf8::char_u32_cast(c2, c2 as u32);
}

/// The width in bytes of the UTF-8 encoding of a scalar value.
pub open spec fn utf8_len(c: char) -> int {
    if (c as u32) < 0x80 {
        1
    } else if (c as u32) < 0x800 {
        2
    } else if (c as u32) < 0x10000 {
        3
    } else {
        4
    }
}

/// The byte length of the UTF-8 encoding of a character sequence.
pub open spec fn byte_len(s: Seq<char>) -> int
    decreases s.len(),
{
    if s.len() == 0 {
        0
    } else {
        utf8_len(s[0]) + byte_len(s.drop_first())
    }
}

/// Byte length distributes over concatenation.
pub proof fn lemma_byte_len_concat(a: Seq<char>, b: Seq<char>)
    ensures
        byte_len(a + b) == byte_len(a) + byte_len(b),
    decreases a.len(),
{
    if a.len() == 0 {
        assert(a + b =~= b);
    } else {
        assert((a + b).drop_first() =~= a.drop_first() + b);
        assert((a + b)[0] == a[0]);
        lemma_byte_len_concat(a.drop_first(), b);
    }
}

/// Every character takes one to four bytes.
pub proof fn lemma_byte_len_bounds(s: Seq<char>)
    ensures
        s.len() <= byte_len(s) <= 4 * s.len(),
    decreases s.len(),
{
    if s.len() > 0 {
        lemma_byte_len_bounds(s.drop_first());
    }
}

/// Lexicographic order on character sequences by scalar value; for valid
/// UTF-8 this equals byte-lexicographic order of the encodings.
pub open spec fn lex_lt(a: Seq<char>, b: Seq<char>) -> bool
    decreases a.len() + b.len(),
{
    if b.len() == 0 {
        false
    } else if a.len() == 0 {
        true
    } else if (a[0] as u32) < (b[0] as u32) {
        true
    } else if a[0] == b[0] {
        lex_lt(a.drop_first(), b.drop_first())
    } else {
        false
    }
}

pub open spec fn lex_leq(a: Seq<char>, b: Seq<char>) -> bool {
    lex_lt(a, b) || a == b
}

/// `p` is a prefix of `s`.
pub open spec fn is_prefix_of(p: Seq<char>, s: Seq<char>) -> bool {
    p.len() <= s.len() && s.subrange(0, p.len() as int) == p
}

pub proof fn lemma_lex_trichotomy(a: Seq<char>, b: Seq<char>)
    ensures
        lex_lt(a, b) || lex_lt(b, a) || a == b,
    decreases a.len() + b.len(),
{
    if a.len() == 0 || b.len() == 0 {
        if a.len() == 0 && b.len() == 0 {
            assert(a =~= b);
        }
    } else if a[0] == b[0] {
        lemma_lex_trichotomy(a.drop_first(), b.drop_first());
        if a.drop_first() == b.drop_first() {
            assert forall|i: int| 0 <= i < a.len() implies a[i] == b[i] by {
                if i > 0 {
                    assert(a.drop_first()[i - 1] == b.drop_first()[i - 1]);
                }
            }
            assert(a =~= b);
        }
    } else {
        if !((a[0] as u32) < (b[0] as u32)) && !((b[0] as u32) < (a[0] as u32)) {
            lemma_char_eq(a[0], b[0]);
        }
    }
}

pub proof fn lemma_lex_lt_asym(a: Seq<char>, b: Seq<char>)
    requires
        lex_lt(a, b),
    ensures
        !lex_lt(b, a),
        a != b,
    decreases a.len() + b.len(),
{
    if a.len() != 0 && b.len() != 0 && a[0] == b[0] {
        lemma_lex_lt_asym(a.drop_first(), b.drop_first());
        assert(a != b) by {
            if a == b {
                assert(a.drop_first() == b.drop_first());
            }
        }
    } else {
        assert(a != b) by {
            if a == b {
                assert(a.len() == b.len());
            }
        }
    }
}

pub proof fn lemma_lex_lt_trans(a: Seq<char>, b: Seq<char>, c: Seq<char>)
    requires
        lex_lt(a, b),
        lex_lt(b, c),
    ensures
        lex_lt(a, c),
    decreases a.len() + b.len() + c.len(),
{
    if a.len() == 0 {
    } else {
        // a, b, c are all non-empty here.
        if a[0] == b[0] && b[0] == c[0] {
            lemma_lex_lt_trans(a.drop_first(), b.drop_first(), c.drop_first());
        }
    }
}

pub proof fn lemma_lt_leq_trans(a: Seq<char>, b: Seq<char>, c: Seq<char>)
    requires
        lex_lt(a, b),
        lex_leq(b, c),
    ensures
        lex_lt(a, c),
{
    if b != c {
        lemma_lex_lt_trans(a, b, c);
    }
}

pub proof fn lemma_leq_lt_trans(a: Seq<char>, b: Seq<char>, c: Seq<char>)
    requires
        lex_leq(a, b),
        lex_lt(b, c),
    ensures
        lex_lt(a, c),
{
    if a != b {
        lemma_lex_lt_trans(a, b, c);
    }
}

pub proof fn lemma_leq_antisym(a: Seq<char>, b: Seq<char>)
    requires
        lex_leq(a, b),
        lex_leq(b, a),
    ensures
        a == b,
{
    if a != b {
        lemma_lex_lt_asym(a, b);
    }
}

/// A prefix is never greater than what it prefixes.
pub proof fn lemma_prefix_leq(p: Seq<char>, s: Seq<char>)
    requires
        is_prefix_of(p, s),
    ensures
        lex_leq(p, s),
    decreases p.len(),
{
    if p.len() == 0 {
        if s.len() == 0 {
            assert(p =~= s);
        }
    } else {
        assert(p[0] == s[0]) by {
            assert(s.subrange(0, p.len() as int)[0] == s[0]);
        }
        assert(is_prefix_of(p.drop_first(), s.drop_first())) by {
            assert(s.drop_first().subrange(0, p.len() - 1) =~= p.drop_first());
        }
        lemma_prefix_leq(p.drop_first(), s.drop_first());
        if p.drop_first() == s.drop_first() && p.len() == s.len() {
            assert(p =~= s);
        }
    }
}

/// Everything between a prefixed string and the prefix itself carries the
/// same prefix: if `p <= a <= b` and `p` prefixes `b`, then `p` prefixes `a`.
pub proof fn lemma_prefix_window(p: Seq<char>, a: Seq<char>, b: Seq<char>)
    requires
        lex_leq(p, a),
        lex_leq(a, b),
        is_prefix_of(p, b),
    ensures
        is_prefix_of(p, a),
    decreases p.len() + a.len() + b.len(),
{
    if p.len() == 0 {
        assert(a.subrange(0, 0) =~= p);
    } else {
        // b is non-empty and b[0] == p[0].
        assert(p[0] == b[0]) by {
            assert(b.subrange(0, p.len() as int)[0] == b[0]);
        }
        if a.len() == 0 {
            assert(lex_lt(a, p));
            lemma_lex_lt_asym(a, p);
            assert(false);
        } else {
            assert(a[0] == p[0]) by {
                if (p[0] as u32) < (a[0] as u32) {
                    // then a[0] > b[0] contradicts a <= b
                    assert((b[0] as u32) < (a[0] as u32));
                    assert(!lex_leq(a, b));
                } else if (a[0] as u32) < (p[0] as u32) {
                    assert(!lex_leq(p, a));
                }
            }
            assert(lex_leq(p.drop_first(), a.drop_first())) by {
                if p != a {
                    assert(lex_lt(p, a));
                } else {
                    assert(p.drop_first() == a.drop_first());
                }
            }
            assert(lex_leq(a.drop_first(), b.drop_first())) by {
                if a != b {
                    assert(lex_lt(a, b));
                } else {
                    assert(a.drop_first() == b.drop_first());
                }
            }
            assert(is_prefix_of(p.drop_first(), b.drop_first())) by {
                assert(b.drop_first().subrange(0, p.len() - 1) =~= p.drop_first());
            }
            lemma_prefix_window(p.drop_first(), a.drop_first(), b.drop_first());
            assert(a.subrange(0, p.len() as int) =~= p) by {
                let pa = a.subrange(0, p.len() as int);
                assert(a.drop_first().subrange(0, p.len() - 1) == p.drop_first());
                assert forall|i: int| 0 <= i < p.len() implies pa[i] == p[i] by {
                    if i > 0 {
                        let j = i - 1;
                        assert(a.drop_first().subrange(0, p.len() - 1)[j] == p.drop_first()[j]);
                    }
                }
            }
        }
    }
}

/// The UTF-8 width of one character.
pub fn char_utf8_len(c: char) -> (n: u32)
    ensures
        n == utf8_len(c),
        1 <= n <= 4,
{
    let u = c as u32;
    if u < 0x80 {
        1
    } else if u < 0x800 {
        2
    } else if u < 0x10000 {
        3
    } else {
        4
    }
}

/// The characters of a string slice, in order.
pub fn str_chars(s: &str) -> (r: Vec<char>)
    ensures
        r@ == s@,
{
    let n = s.unicode_len();
    let mut r: Vec<char> = Vec::new();
    let mut i: usize = 0;
    while i < n
        invariant
            n == s@.len(),
            i <= n,
            r@ == s@.take(i as int),
        decreases n - i,
    {
        r.push(s.get_char(i));
        assert(r@ =~= s@.take(i + 1));
        i = i + 1;
    }
    assert(r@ =~= s@);
    r
}

/// Relies on `String`'s `FromIterator<char>`: collecting copies the
/// characters in order into a fresh string.
#[verifier::external_body]
pub(crate) fn chars_to_string(v: &[char]) -> (s: String)
    ensures
        s@ == v@,
{
    v.iter().collect()
}

/// Compares two character slices lexicographically by scalar value.
pub fn chars_lt(a: &[char], b: &[char]) -> (r: bool)
    ensures
        r == lex_lt(a@, b@),
{
    let mut i: usize = 0;
    proof {
        assert(a@.subrange(0, a@.len() as int) =~= a@);
        assert(b@.subrange(0, b@.len() as int) =~= b@);
    }
    loop
        invariant
            i <= a.len(),
            i <= b.len(),
            a@.subrange(0, i as int) =~= b@.subrange(0, i as int),
            lex_lt(a@, b@) == lex_lt(a@.subrange(i as int, a@.len() as int), b@.subrange(i as int, b@.len() as int)),
        decreases a.len() - i,
    {
        let ghost ar = a@.subrange(i as int, a@.len() as int);
        let ghost br = b@.subrange(i as int, b@.len() as int);
        if i >= b.len() {
            assert(br.len() == 0);
            return false;
        }
        if i >= a.len() {
            assert(ar.len() == 0 && br.len() > 0);
            return true;
        }
        let x = a[i] as u32;
        let y = b[i] as u32;
        if x < y {
            assert(lex_lt(ar, br));
            return true;
        }
        if x > y {
            assert(!lex_lt(ar, br)) by {
                assert((ar[0] as u32) != (br[0] as u32));
            }
            return false;
        }
        proof {
            lemma_char_eq(a@[i as int], b@[i as int]);
            assert(lex_lt(ar, br) == lex_lt(ar.drop_first(), br.drop_first()));
            assert(ar.drop_first() =~= a@.subrange(i + 1, a@.len() as int));
            assert(br.drop_first() =~= b@.subrange(i + 1, b@.len() as int));
            assert(a@.subrange(0, i + 1) =~= b@.subrange(0, i + 1));
        }
        i = i + 1;
    }
}

/// Tests two character slices for equality.
pub fn chars_eq(a: &[char], b: &[char]) -> (r: bool)
    ensures
        r == (a@ == b@),
{
    if a.len() != b.len() {
        assert(a@ != b@) by {
            if a@ == b@ {
                assert(a@.len() == b@.len());
            }
        }
        return false;
    }
    let mut i: usize = 0;
    while i < a.len()
        invariant
            a.len() == b.len(),
            i <= a.len(),
            a@.subrange(0, i as int) =~= b@.subrange(0, i as int),
        decreases a.len() - i,
    {
        let x = a[i] as u32;
        let y = b[i] as u32;
        if x != y {
            assert(a@ != b@) by {
                if a@ == b@ {
                    assert(a@[i as int] == b@[i as int]);
                }
            }
            return false;
        }
        proof {
            lemma_char_eq(a@[i as int], b@[i as int]);
            assert(a@.subrange(0, i + 1) =~= b@.subrange(0, i + 1));
        }
        i = i + 1;
    }
    proof {
        assert(a@.subrange(0, a@.len() as int) =~= a@);
        assert(b@.subrange(0, b@.len() as int) =~= b@);
    }
    true
}

/// Does `s` start with `p`?
pub fn chars_starts_with(s: &[char], p: &[char]) -> (r: bool)
    ensures
        r == is_prefix_of(p@, s@),
{
    if p.len() > s.len() {
        return false;
    }
    let mut i: usize = 0;
    while i < p.len()
        invariant
            p.len() <= s.len(),
            i <= p.len(),
            s@.subrange(0, i as int) =~= p@.subrange(0, i as int),
        decreases p.len() - i,
    {
        let x = s[i] as u32;
        let y = p[i] as u32;
        if x != y {
            assert(!is_prefix_of(p@, s@)) by {
                if is_prefix_of(p@, s@) {
                    assert(s@.subrange(0, p@.len() as int)[i as int] == p@[i as int]);
                }
            }
            return false;
        }
        proof {
            lemma_char_eq(s@[i as int], p@[i as int]);
            assert(s@.subrange(0, i + 1) =~= p@.subrange(0, i + 1));
        }
        i = i + 1;
    }
    assert(s@.subrange(0, p@.len() as int) =~= p@);
    true
}

/// The character count of the tokens in positions `[a, b)`.
pub open spec fn crange(s: Seq<u32>, a: int, b: int) -> int
    decreases b - a,
{
    if a >= b || a < 0 || b > s.len() {
        0
    } else {
        s[a] + crange(s, a + 1, b)
    }
}

pub proof fn lemma_crange_nonneg(s: Seq<u32>, a: int, b: int)
    ensures
        crange(s, a, b) >= 0,
    decreases b - a,
{
    if !(a >= b || a < 0 || b > s.len()) {
        lemma_crange_nonneg(s, a + 1, b);
    }
}

pub proof fn lemma_crange_split(s: Seq<u32>, a: int, m: int, b: int)
    requires
        0 <= a <= m <= b <= s.len(),
    ensures
        crange(s, a, b) == crange(s, a, m) + crange(s, m, b),
    decreases m - a,
{
    if a < m {
        lemma_crange_split(s, a + 1, m, b);
    }
}

/// Shrinking one slot shrinks the covering range by the same amount.
pub proof fn lemma_crange_update(s: Seq<u32>, a: int, b: int, i: int, v: u32)
    requires
        0 <= a <= i < b <= s.len(),
    ensures
        crange(s.update(i, v), a, b) == crange(s, a, b) - s[i] + v,
    decreases b - a,
{
    let upd = s.update(i, v);
    if a == i {
        assert(upd[a] == v);
        assert(crange(upd, a + 1, b) == crange(s, a + 1, b)) by {
            lemma_crange_frame(s, upd, a + 1, b);
        }
    } else {
        assert(upd[a] == s[a]);
        lemma_crange_update(s, a + 1, b, i, v);
    }
}

/// Ranges that only read unchanged slots are unchanged.
pub proof fn lemma_crange_frame(s1: Seq<u32>, s2: Seq<u32>, a: int, b: int)
    requires
        s1.len() == s2.len(),
        forall|i: int| a <= i < b ==> s1[i] == s2[i],
    ensures
        crange(s1, a, b) == crange(s2, a, b),
    decreases b - a,
{
    if !(a >= b || a < 0 || b > s1.len()) {
        lemma_crange_frame(s1, s2, a + 1, b);
    }
}

/// Appending a slot extends the whole-sequence range by its value.
pub proof fn lemma_crange_push(s: Seq<u32>, x: u32)
    ensures
        crange(s.push(x), 0, s.len() as int + 1) == crange(s, 0, s.len() as int) + x,
{
    lemma_crange_push_aux(s, x, 0);
}

/// Appending a slot leaves ranges inside the old sequence unchanged.
pub proof fn lemma_crange_push_prefix(s: Seq<u32>, x: u32, a: int, b: int)
    requires
        b <= s.len(),
    ensures
        crange(s.push(x), a, b) == crange(s, a, b),
    decreases b - a,
{
    if !(a >= b || a < 0) {
        assert(s.push(x)[a] == s[a]);
        lemma_crange_push_prefix(s, x, a + 1, b);
    }
}

pub(crate) proof fn lemma_crange_push_aux(s: Seq<u32>, x: u32, a: int)
    requires
        0 <= a <= s.len(),
    ensures
        crange(s.push(x), a, s.len() as int + 1) == crange(s, a, s.len() as int) + x,
        crange(s.push(x), a, s.len() as int) == crange(s, a, s.len() as int),
    decreases s.len() - a,
{
    if a < s.len() {
        assert(s.push(x)[a] == s[a]);
        lemma_crange_push_aux(s, x, a + 1);
    } else {
        assert(crange(s.push(x), a, s.len() as int + 1) == s.push(x)[a] + crange(
            s.push(x),
            a + 1,
            s.len() as int + 1,
        ));
        assert(s.push(x)[s.len() as int] == x);
    }
}

} // verus!
