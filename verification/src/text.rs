//! Character-level helpers on string slices: the characters of a slice, the
//! length of their UTF-8 encoding, splitting at a character boundary and the
//! whitespace class of a character.

use vstd::prelude::*;
use vstd::utf8::*;

verus! {

/// Number of bytes in the UTF-8 encoding of `s`; this is what `str::len`
/// reports for a slice whose characters are `s`.
pub open spec fn byte_len(s: Seq<char>) -> nat {
    encode_utf8(s).len()
}

/// A character with the Unicode `White_Space` property, which is what
/// `char::is_whitespace` tests.
pub open spec fn is_whitespace_char(c: char) -> bool {
    let u = c as u32;
    ||| 0x09 <= u <= 0x0D
    ||| u == 0x20
    ||| u == 0x85
    ||| u == 0xA0
    ||| u == 0x1680
    ||| 0x2000 <= u <= 0x200A
    ||| u == 0x2028
    ||| u == 0x2029
    ||| u == 0x202F
    ||| u == 0x205F
    ||| u == 0x3000
}

/// The encoding of a concatenation is the concatenation of the encodings.
pub proof fn lemma_encode_concat(a: Seq<char>, b: Seq<char>)
    ensures
        encode_utf8(a + b) == encode_utf8(a) + encode_utf8(b),
    decreases a.len(),
{
    if a.len() == 0 {
        assert(a + b =~= b);
        assert(encode_utf8(a) + encode_utf8(b) =~= encode_utf8(b));
    } else {
        let ab = a + b;
        assert(ab[0] == a[0]);
        assert(ab.drop_first() =~= a.drop_first() + b);
        lemma_encode_concat(a.drop_first(), b);
        let e0 = encode_scalar(a[0] as u32);
        assert(e0 + (encode_utf8(a.drop_first()) + encode_utf8(b)) =~= (e0 + encode_utf8(
            a.drop_first(),
        )) + encode_utf8(b));
    }
}

/// A character takes one to four bytes, and one exactly when it is ASCII.
pub proof fn lemma_encode_scalar_len(c: char)
    ensures
        1 <= encode_scalar(c as u32).len() <= 4,
        (c as u32) < 0x80 <==> encode_scalar(c as u32).len() == 1,
{
}

/// The encoding of a prefix is a prefix of the encoding, and a longer prefix
/// has a strictly longer encoding.
pub proof fn lemma_byte_len_take(s: Seq<char>, i: int, j: int)
    requires
        0 <= i <= j <= s.len(),
    ensures
        byte_len(s.take(j)) == byte_len(s.take(i)) + byte_len(s.subrange(i, j)),
        byte_len(s.take(j)) <= byte_len(s),
        i < j ==> byte_len(s.take(i)) < byte_len(s.take(j)),
        j == i + 1 ==> byte_len(s.subrange(i, j)) == encode_scalar(s[i] as u32).len(),
{
    assert(s.take(j) =~= s.take(i) + s.subrange(i, j));
    lemma_encode_concat(s.take(i), s.subrange(i, j));
    assert(s =~= s.take(j) + s.skip(j));
    lemma_encode_concat(s.take(j), s.skip(j));
    if i < j {
        let mid = s.subrange(i, j);
        lemma_encode_scalar_len(mid[0]);
        assert(encode_utf8(mid).len() >= 1);
    }
    if j == i + 1 {
        let mid = s.subrange(i, j);
        assert(mid.drop_first() =~= Seq::<char>::empty());
        assert(encode_utf8(mid.drop_first()) =~= Seq::<u8>::empty());
        assert(encode_utf8(mid) =~= encode_scalar(s[i] as u32));
    }
}

/// Every character takes at least one byte.
pub proof fn lemma_byte_len_ge_len(s: Seq<char>)
    ensures
        byte_len(s) >= s.len(),
    decreases s.len(),
{
    if s.len() > 0 {
        lemma_encode_scalar_len(s[0]);
        lemma_byte_len_ge_len(s.drop_first());
    }
}

/// Splitting the encoding of `a + b` after the encoding of `a` cuts it at a
/// character boundary.
pub proof fn lemma_boundary(a: Seq<char>, b: Seq<char>)
    ensures
        is_char_boundary(encode_utf8(a + b), byte_len(a) as int),
    decreases a.len(),
{
    let ab = a + b;
    let bytes = encode_utf8(ab);
    encode_utf8_valid_utf8(ab);
    lemma_encode_concat(a, b);
    if a.len() > 0 {
        encode_utf8_first_scalar(ab);
        assert(pop_first_scalar(bytes) =~= encode_utf8(ab.drop_first()));
        assert(ab.drop_first() =~= a.drop_first() + b);
        assert(a[0] == ab[0]);
        lemma_boundary(a.drop_first(), b);
        lemma_encode_scalar_len(a[0]);
        assert(byte_len(a) > 0);
    }
}

/// Two character sequences with the same encoding are equal.
pub proof fn lemma_encode_injective(x: Seq<char>, y: Seq<char>)
    requires
        encode_utf8(x) == encode_utf8(y),
    ensures
        x == y,
{
    encode_utf8_decode_utf8(x);
    encode_utf8_decode_utf8(y);
}

/// Splits `s` after its first `m` characters, whose encoding takes `at` bytes.
pub(crate) fn split_chars<'a>(s: &'a str, Ghost(m): Ghost<int>, at: usize) -> (r: (&'a str, &'a str))
    requires
        0 <= m <= s@.len(),
        at == byte_len(s@.take(m)),
    ensures
        r.0@ == s@.take(m),
        r.1@ == s@.skip(m),
{
    proof {
        assert(s@ =~= s@.take(m) + s@.skip(m));
        lemma_boundary(s@.take(m), s@.skip(m));
        lemma_encode_concat(s@.take(m), s@.skip(m));
    }
    let r = s.split_at(at);
    proof {
        let total = encode_utf8(s@);
        assert(total.subrange(0, at as int) =~= encode_utf8(s@.take(m)));
        assert(total.subrange(at as int, total.len() as int) =~= encode_utf8(s@.skip(m)));
        lemma_encode_injective(r.0@, s@.take(m));
        lemma_encode_injective(r.1@, s@.skip(m));
    }
    r
}

/// The byte length of a slice, which `str::len` reports, as a bound that the
/// machine's word size guarantees.
pub(crate) fn byte_count(s: &str) -> (n: usize)
    ensures
        n == byte_len(s@),
{
    s.as_bytes().len()
}

/// Whether `c` has the Unicode `White_Space` property.
pub fn is_whitespace(c: char) -> (r: bool)
    ensures
        r == is_whitespace_char(c),
{
    let u = c as u32;
    (0x09 <= u && u <= 0x0D) || u == 0x20 || u == 0x85 || u == 0xA0 || u == 0x1680 || (0x2000
        <= u && u <= 0x200A) || u == 0x2028 || u == 0x2029 || u == 0x202F || u == 0x205F || u
        == 0x3000
}

/// Number of bytes in the UTF-8 encoding of `c`.
pub(crate) fn char_width(c: char) -> (w: usize)
    ensures
        w == encode_scalar(c as u32).len(),
        1 <= w <= 4,
{
    let u = c as u32;
    if u < 0x80 {
        1
    } else if u < 0x800 {
        2
    } else if u < 0x10000 {
        3
    } else {
        4
    }
}

/// Whether `a` and `b` hold the same characters.
pub fn str_equals(a: &str, b: &str) -> (r: bool)
    ensures
        r == (a@ == b@),
{
    let x = chars_of(a);
    let y = chars_of(b);
    if x.len() != y.len() {
        return false;
    }
    let mut i: usize = 0;
    while i < x.len()
        invariant
            x@ == a@,
            y@ == b@,
            x@.len() == y@.len(),
            0 <= i <= x@.len(),
            forall|j: int| 0 <= j < i ==> x@[j] == y@[j],
        decreases x@.len() - i,
    {
        if x[i] != y[i] {
            return false;
        }
        i = i + 1;
    }
    assert(x@ =~= y@);
    true
}

/// The characters of `s`, in order.
pub(crate) fn chars_of(s: &str) -> (v: Vec<char>)
    ensures
        v@ == s@,
{
    let mut v: Vec<char> = Vec::new();
    for c in it: s.chars()
        invariant
            it.seq() == s@,
            v@ == it.seq().take(it.index() as int),
    {
        v.push(c);
    }
    v
}

/// A decimal digit `0` to `9`.
pub open spec fn is_digit(c: char) -> bool {
    48 <= (c as u32) <= 57
}

/// The number that a sequence of decimal digits spells.
pub open spec fn digits_value(d: Seq<char>) -> nat
    decreases d.len(),
{
    if d.len() == 0 {
        0
    } else {
        digits_value(d.drop_last()) * 10 + ((d.last() as u32) - 48) as nat
    }
}

/// The digits of `s`: a leading `+` is dropped when something follows it.
pub open spec fn unsigned_digits(s: Seq<char>) -> Seq<char> {
    if s.len() > 1 && s[0] == '+' {
        s.drop_first()
    } else {
        s
    }
}

/// What reading `s` as a `usize` gives: an optional `+` followed by at least
/// one decimal digit and nothing else, whose value fits in a `usize`.
pub open spec fn usize_of(s: Seq<char>) -> Option<usize> {
    let d = unsigned_digits(s);
    if d.len() > 0 && (forall|i: int| 0 <= i < d.len() ==> is_digit(#[trigger] d[i]))
        && digits_value(d) <= usize::MAX {
        Some(digits_value(d) as usize)
    } else {
        None
    }
}

proof fn lemma_digits_value_prefix(d: Seq<char>, k: int)
    requires
        0 <= k <= d.len(),
        forall|i: int| 0 <= i < d.len() ==> is_digit(#[trigger] d[i]),
    ensures
        digits_value(d.take(k)) <= digits_value(d),
    decreases d.len(),
{
    if k < d.len() {
        let p = d.drop_last();
        assert(p.take(k) =~= d.take(k));
        assert forall|i: int| 0 <= i < p.len() implies is_digit(#[trigger] p[i]) by {
            assert(p[i] == d[i]);
        }
        lemma_digits_value_prefix(p, k);
        assert(is_digit(d[d.len() - 1]));
    } else {
        assert(d.take(k) =~= d);
    }
}

/// Reads `s` as a `usize` the way `str::parse::<usize>` does.
pub fn parse_usize(s: &str) -> (r: Option<usize>)
    ensures
        r == usize_of(s@),
{
    let cs = chars_of(s);
    let start: usize = if cs.len() > 1 && cs[0] == '+' {
        1
    } else {
        0
    };
    let ghost d = unsigned_digits(s@);
    proof {
        if start == 1 {
            assert(d =~= cs@.skip(1));
        } else {
            assert(d =~= cs@);
        }
    }
    if start >= cs.len() {
        return None;
    }
    let mut v: usize = 0;
    let mut i: usize = start;
    proof {
        assert(d.take(0) =~= Seq::<char>::empty());
    }
    while i < cs.len()
        invariant
            cs@ == s@,
            d == cs@.skip(start as int),
            d == unsigned_digits(s@),
            start <= i <= cs@.len(),
            v == digits_value(d.take(i - start)),
            forall|j: int| 0 <= j < i - start ==> is_digit(#[trigger] d[j]),
        decreases cs@.len() - i,
    {
        let c = cs[i];
        let u = c as u32;
        assert(d[i - start] == c);
        if u < 48 || u > 57 {
            assert(!is_digit(d[i - start]));
            return None;
        }
        let digit = (u - 48) as usize;
        let ghost taken = d.take(i - start + 1);
        proof {
            assert(taken.drop_last() =~= d.take(i - start));
            assert(taken.last() == c);
        }
        if v > (usize::MAX - digit) / 10 {
            proof {
                assert(v * 10 + digit > usize::MAX) by (nonlinear_arith)
                    requires
                        v > (usize::MAX - digit) / 10,
                        digit <= 9,
                ;
                assert(digits_value(taken) == v * 10 + digit);
                if forall|j: int| 0 <= j < d.len() ==> is_digit(#[trigger] d[j]) {
                    lemma_digits_value_prefix(d, i - start + 1);
                }
            }
            return None;
        }
        proof {
            assert(v * 10 + digit <= usize::MAX) by (nonlinear_arith)
                requires
                    v <= (usize::MAX - digit) / 10,
                    digit <= 9,
            ;
        }
        v = v * 10 + digit;
        assert(digits_value(taken) == v);
        i = i + 1;
    }
    proof {
        assert(d.take(i - start) =~= d);
    }
    Some(v)
}

} // verus!
