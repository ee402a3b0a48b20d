//! Character-level helpers shared by the parser, the printer and the
//! evaluator: collecting the characters of a string, rebuilding a string
//! from characters, lexicographic ordering, and whitespace classification.

use vstd::prelude::*;

verus! {

use vstd::std_specs::iter::IteratorSpec;
use vstd::utf8::char_u32_cast;

/// The characters of `s`, in order.
pub fn chars_vec(s: &str) -> (r: Vec<char>)
    ensures
        r@ == s@,
{
    broadcast use vstd::string::axiom_spec_iter, vstd::string::next_postcondition;

    let mut it = s.chars();
    let mut out: Vec<char> = Vec::new();
    loop
        invariant
            it.obeys_prophetic_iter_laws(),
            it.decrease() is Some,
            out@ + it.remaining() == s@,
        decreases it.decrease()->0,
    {
        match it.next() {
            Some(c) => {
                out.push(c);
                proof {
                    assert(out@ + it.remaining() =~= s@);
                }
            },
            None => {
                proof {
                    assert(out@ =~= s@);
                }
                return out;
            },
        }
    }
}

/// Relies on `String`'s `FromIterator` over `char`: collecting the
/// characters of `v` builds the string with exactly those characters.
#[verifier::external_body]
pub fn string_from_chars(v: &Vec<char>) -> (r: String)
    ensures
        r@ == v@,
{
    v.iter().collect()
}

/// Relies on `String::from_utf8`: succeeds exactly on valid UTF-8 and
/// returns the string those bytes encode.
#[verifier::external_body]
pub fn string_from_utf8(v: &Vec<u8>) -> (r: Option<String>)
    ensures
        match r {
            Some(s) => vstd::utf8::valid_utf8(v@) && vstd::utf8::encode_utf8(s@) == v@,
            None => !vstd::utf8::valid_utf8(v@),
        },
{
    String::from_utf8(v.clone()).ok()
}

/// Strict lexicographic order on character sequences, by code point.
pub open spec fn lex_lt(a: Seq<char>, b: Seq<char>) -> bool
    decreases a.len(),
{
    if b.len() == 0 {
        false
    } else if a.len() == 0 {
        true
    } else if (a[0] as u32) < (b[0] as u32) {
        true
    } else if (a[0] as u32) > (b[0] as u32) {
        false
    } else {
        lex_lt(a.drop_first(), b.drop_first())
    }
}

/// `lex_lt` orders totally: two sequences are equal, or one is below the
/// other, and exactly one of the three holds.
pub proof fn lemma_lex_lt_trichotomy(a: Seq<char>, b: Seq<char>)
    ensures
        lex_lt(a, b) || lex_lt(b, a) || a == b,
        lex_lt(a, b) ==> !lex_lt(b, a) && a != b,
        a == b ==> !lex_lt(a, b),
    decreases a.len(),
{
    if a.len() > 0 && b.len() > 0 {
        char_u32_cast(a[0], a[0] as u32);
        char_u32_cast(b[0], b[0] as u32);
    }
    if a.len() == 0 && b.len() == 0 {
        assert(a =~= b);
    } else if a.len() > 0 && b.len() > 0 && a[0] == b[0] {
        lemma_lex_lt_trichotomy(a.drop_first(), b.drop_first());
        if a.drop_first() == b.drop_first() {
            assert forall|i: int| 0 <= i < a.len() implies a[i] == b[i] by {
                if i > 0 {
                    assert(a.drop_first()[i - 1] == b.drop_first()[i - 1]);
                }
            }
            assert(a =~= b);
        }
        if a == b {
            assert(a.drop_first() =~= b.drop_first());
        }
    } else {
        if a == b && a.len() > 0 {
            assert(a[0] == b[0]);
        }
    }
}

/// `lex_lt` is transitive.
pub proof fn lemma_lex_lt_trans(a: Seq<char>, b: Seq<char>, c: Seq<char>)
    requires
        lex_lt(a, b),
        lex_lt(b, c),
    ensures
        lex_lt(a, c),
    decreases a.len(),
{
    if a.len() > 0 && b.len() > 0 && c.len() > 0 {
        char_u32_cast(a[0], a[0] as u32);
        char_u32_cast(b[0], b[0] as u32);
        char_u32_cast(c[0], c[0] as u32);
        if (a[0] as u32) == (b[0] as u32) && (b[0] as u32) == (c[0] as u32) {
            lemma_lex_lt_trans(a.drop_first(), b.drop_first(), c.drop_first());
        }
    }
}

/// Three-way comparison of two character vectors under `lex_lt`.
/// Returns a negative, zero or positive answer as `a` is below, equal to,
/// or above `b`.
pub fn cmp_chars(a: &Vec<char>, b: &Vec<char>) -> (r: i8)
    ensures
        r == -1i8 || r == 0i8 || r == 1i8,
        (r == -1i8) == lex_lt(a@, b@),
        (r == 0i8) == (a@ == b@),
        (r == 1i8) == lex_lt(b@, a@),
{
    proof {
        lemma_lex_lt_trichotomy(a@, b@);
        assert(a@.skip(0) =~= a@);
        assert(b@.skip(0) =~= b@);
    }
    let mut i: usize = 0;
    while i < a.len() && i < b.len()
        invariant
            i <= a@.len(),
            i <= b@.len(),
            forall|j: int| 0 <= j < i ==> a@[j] == b@[j],
            lex_lt(a@, b@) == lex_lt(a@.skip(i as int), b@.skip(i as int)),
            lex_lt(b@, a@) == lex_lt(b@.skip(i as int), a@.skip(i as int)),
            (a@ == b@) == (a@.skip(i as int) == b@.skip(i as int)),
        decreases a@.len() - i,
    {
        let ca = a[i];
        let cb = b[i];
        proof {
            assert(a@.skip(i as int)[0] == a@[i as int]);
            assert(b@.skip(i as int)[0] == b@[i as int]);
            assert(a@.skip(i as int).drop_first() =~= a@.skip(i as int + 1));
            assert(b@.skip(i as int).drop_first() =~= b@.skip(i as int + 1));
            lemma_lex_lt_trichotomy(a@.skip(i as int), b@.skip(i as int));
            if a@.skip(i as int) == b@.skip(i as int) {
                assert(a@.skip(i as int).drop_first() == b@.skip(i as int).drop_first());
            }
            if a@.skip(i as int + 1) == b@.skip(i as int + 1) && ca == cb {
                assert(a@.skip(i as int) =~= b@.skip(i as int));
            }
        }
        if (ca as u32) < (cb as u32) {
            return -1;
        }
        if (ca as u32) > (cb as u32) {
            return 1;
        }
        proof {
            char_u32_cast(ca, ca as u32);
            char_u32_cast(cb, cb as u32);
        }
        i = i + 1;
    }
    proof {
        assert((a@ == b@) == (a@.skip(i as int) == b@.skip(i as int)));
        if a@.len() == b@.len() && i == a@.len() {
            assert(a@.skip(i as int) =~= b@.skip(i as int));
        }
    }
    if a.len() == b.len() {
        0
    } else if a.len() < b.len() {
        proof {
            assert(a@.skip(i as int).len() == 0);
            assert(b@.skip(i as int).len() > 0);
        }
        -1
    } else {
        proof {
            assert(b@.skip(i as int).len() == 0);
            assert(a@.skip(i as int).len() > 0);
        }
        1
    }
}

/// The Unicode white-space property, written out code point by code point.
pub open spec fn spec_is_whitespace(c: char) -> bool {
    let u = c as u32;
    u == 0x09 || u == 0x0A || u == 0x0B || u == 0x0C || u == 0x0D || u == 0x20 || u == 0x85
        || u == 0xA0 || u == 0x1680 || (0x2000 <= u && u <= 0x200A) || u == 0x2028 || u == 0x2029
        || u == 0x202F || u == 0x205F || u == 0x3000
}

/// Decides the white-space property of one character.
pub fn is_whitespace_char(c: char) -> (r: bool)
    ensures
        r == spec_is_whitespace(c),
{
    let u = c as u32;
    u == 0x09 || u == 0x0A || u == 0x0B || u == 0x0C || u == 0x0D || u == 0x20 || u == 0x85
        || u == 0xA0 || u == 0x1680 || (0x2000 <= u && u <= 0x200A) || u == 0x2028 || u == 0x2029
        || u == 0x202F || u == 0x205F || u == 0x3000
}

/// Whether any character of `s` is white space.
pub open spec fn spec_has_whitespace(s: Seq<char>) -> bool {
    exists|i: int| 0 <= i < s.len() && spec_is_whitespace(s[i])
}

/// Decides whether a key contains white space anywhere.
pub fn has_whitespace(v: &Vec<char>) -> (r: bool)
    ensures
        r == spec_has_whitespace(v@),
{
    let mut i: usize = 0;
    while i < v.len()
        invariant
            i <= v@.len(),
            forall|j: int| 0 <= j < i ==> !spec_is_whitespace(v@[j]),
        decreases v@.len() - i,
    {
        if is_whitespace_char(v[i]) {
            return true;
        }
        i = i + 1;
    }
    false
}

/// The characters `v[i..j)` as a string.
pub fn string_of_range(v: &Vec<char>, i: usize, j: usize) -> (r: String)
    requires
        i <= j <= v@.len(),
    ensures
        r@ == v@.subrange(i as int, j as int),
{
    let part = vstd::slice::slice_to_vec(vstd::slice::slice_subrange(v.as_slice(), i, j));
    string_from_chars(&part)
}

/// Equality of two string slices, decided through their characters.
pub fn str_eq(a: &str, b: &str) -> (r: bool)
    ensures
        r == (a@ == b@),
{
    let va = chars_vec(a);
    let vb = chars_vec(b);
    let c = cmp_chars(&va, &vb);
    c == 0
}

} // verus!
