//! The binary policy encoding: a compact tagged-record format in CBOR
//! framing. A policy is a one-field map `{1: expression}`; an expression
//! is a two-element array of a variant tag and its payload, nested
//! recursively. Decoding inverts encoding exactly: the round trip is
//! proved below.

use vstd::prelude::*;

verus! {

use crate::expr::deep_seq;
use crate::expr::lemma_deep_seq;
use crate::expr::Expr;
use crate::expr::ExprS;
use crate::policy::Policy;
use crate::policy::PolicyList;
use crate::strings::string_from_utf8;
use vstd::utf8::decode_utf8;
use vstd::utf8::encode_utf8;
use vstd::utf8::encode_utf8_decode_utf8;
use vstd::utf8::encode_utf8_valid_utf8;
use vstd::utf8::valid_utf8;

/// 256 to the `k`.
pub open spec fn pow256(k: nat) -> nat
    decreases k,
{
    if k == 0 {
        1
    } else {
        256 * pow256((k - 1) as nat)
    }
}

/// The big-endian bytes of `n`, `k` bytes wide.
pub open spec fn be_bytes(n: nat, k: nat) -> Seq<u8>
    decreases k,
{
    if k == 0 {
        Seq::empty()
    } else {
        be_bytes(n / 256, (k - 1) as nat).push((n % 256) as u8)
    }
}

/// The value of `k` big-endian bytes of `b` starting at `pos`.
pub open spec fn read_be(b: Seq<u8>, pos: int, k: nat) -> nat
    decreases k,
{
    if k == 0 {
        0
    } else {
        read_be(b, pos, (k - 1) as nat) * 256 + (b[pos + k - 1] as nat)
    }
}

/// The byte widths the head forms use, as plain numbers.
pub proof fn lemma_pow256_values()
    ensures
        pow256(1) == 256,
        pow256(2) == 65536,
        pow256(4) == 0x1_0000_0000,
        pow256(8) == 0x1_0000_0000_0000_0000,
{
    assert(pow256(0) == 1);
    assert(pow256(1) == 256);
    assert(pow256(2) == 65536);
    assert(pow256(3) == 0x100_0000);
    assert(pow256(4) == 0x1_0000_0000);
    assert(pow256(5) == 0x100_0000_0000);
    assert(pow256(6) == 0x1_0000_0000_0000);
    assert(pow256(7) == 0x100_0000_0000_0000);
    assert(pow256(8) == 0x1_0000_0000_0000_0000);
}

/// `be_bytes` has width `k`.
pub proof fn lemma_be_bytes_len(n: nat, k: nat)
    ensures
        be_bytes(n, k).len() == k,
    decreases k,
{
    if k > 0 {
        lemma_be_bytes_len(n / 256, (k - 1) as nat);
    }
}

/// Reading back the big-endian bytes of `n` gives `n`.
pub proof fn lemma_be_round_trip(n: nat, k: nat, b: Seq<u8>, pos: int)
    requires
        n < pow256(k),
        0 <= pos,
        pos + k <= b.len(),
        b.subrange(pos, pos + k) == be_bytes(n, k),
    ensures
        read_be(b, pos, k) == n,
    decreases k,
{
    lemma_be_bytes_len(n, k);
    if k == 0 {
        assert(n < 1);
    } else {
        let m = n / 256;
        assert(m < pow256((k - 1) as nat)) by (nonlinear_arith)
            requires
                n < pow256(k),
                pow256(k) == 256 * pow256((k - 1) as nat),
                m == n / 256,
                n >= 0,
        ;
        lemma_be_bytes_len(m, (k - 1) as nat);
        assert(b.subrange(pos, pos + k - 1) =~= be_bytes(m, (k - 1) as nat));
        lemma_be_round_trip(m, (k - 1) as nat, b, pos);
        assert(b[pos + k - 1] == be_bytes(n, k)[k - 1]);
        assert(be_bytes(n, k)[k - 1] == (n % 256) as u8);
        assert(read_be(b, pos, k) == m * 256 + n % 256);
        assert(m * 256 + n % 256 == n) by (nonlinear_arith)
            requires
                m == n / 256,
                n >= 0,
        ;
    }
}

/// A CBOR item head: three major-type bits, then the count, in the
/// shortest of the five forms.
pub open spec fn head(major: nat, n: nat) -> Seq<u8> {
    if n < 24 {
        seq![(major * 32 + n) as u8]
    } else if n < 256 {
        seq![(major * 32 + 24) as u8] + be_bytes(n, 1)
    } else if n < 65536 {
        seq![(major * 32 + 25) as u8] + be_bytes(n, 2)
    } else if n < 0x1_0000_0000 {
        seq![(major * 32 + 26) as u8] + be_bytes(n, 4)
    } else {
        seq![(major * 32 + 27) as u8] + be_bytes(n, 8)
    }
}

/// The encoding of one text string: its head, then its UTF-8 bytes.
pub open spec fn enc_text(s: Seq<char>) -> Seq<u8> {
    head(3, encode_utf8(s).len()) + encode_utf8(s)
}

/// The encoding of one signed 64-bit integer.
pub open spec fn enc_int(i: int) -> Seq<u8> {
    if i >= 0 {
        head(0, i as nat)
    } else {
        head(1, (-1 - i) as nat)
    }
}

/// The encoding of one boolean: the CBOR simple value.
pub open spec fn enc_bool(b: bool) -> Seq<u8> {
    if b {
        seq![0xf5u8]
    } else {
        seq![0xf4u8]
    }
}

/// The tag that selects an expression variant.
pub open spec fn tag_of(e: ExprS) -> nat {
    match e {
        ExprS::Str(_) => 0,
        ExprS::Int(_) => 1,
        ExprS::Bool(_) => 2,
        ExprS::Ident(_) => 3,
        ExprS::Sequence(_) => 4,
        ExprS::List(_, _) => 5,
    }
}

/// The encoding of one expression: `[tag, payload]`.
pub open spec fn enc_expr(e: ExprS) -> Seq<u8>
    decreases e, 1int,
{
    head(4, 2) + head(0, tag_of(e)) + match e {
        ExprS::Str(s) => enc_text(s),
        ExprS::Int(i) => enc_int(i),
        ExprS::Bool(b) => enc_bool(b),
        ExprS::Ident(s) => enc_text(s),
        ExprS::Sequence(items) => head(4, items.len()) + enc_items(items),
        ExprS::List(h, args) => head(4, 2) + enc_expr(*h) + (head(4, args.len()) + enc_items(
            args,
        )),
    }
}

/// The concatenated encodings of a sequence of expressions.
pub open spec fn enc_items(items: Seq<ExprS>) -> Seq<u8>
    decreases items, 0int,
{
    if items.len() == 0 {
        Seq::empty()
    } else {
        enc_expr(items[0]) + enc_items(items.drop_first())
    }
}

/// The encoding of a policy: the map `{1: expression}`.
pub open spec fn enc_policy(e: ExprS) -> Seq<u8> {
    head(5, 1) + head(0, 1) + enc_expr(e)
}

/// Decoded head: major type, count, and the position after the head.
pub open spec fn dec_head(b: Seq<u8>, pos: int) -> Option<(nat, nat, int)> {
    if pos < 0 || pos >= b.len() {
        None
    } else {
        let major = (b[pos] / 32) as nat;
        let low = (b[pos] % 32) as nat;
        if low < 24 {
            Some((major, low, pos + 1))
        } else if low == 24 && pos + 2 <= b.len() {
            Some((major, read_be(b, pos + 1, 1), pos + 2))
        } else if low == 25 && pos + 3 <= b.len() {
            Some((major, read_be(b, pos + 1, 2), pos + 3))
        } else if low == 26 && pos + 5 <= b.len() {
            Some((major, read_be(b, pos + 1, 4), pos + 5))
        } else if low == 27 && pos + 9 <= b.len() {
            Some((major, read_be(b, pos + 1, 8), pos + 9))
        } else {
            None
        }
    }
}

/// Decoding a head right after its encoding was laid down recovers the
/// major type and count.
pub proof fn lemma_dec_head(major: nat, n: nat, b: Seq<u8>, pos: int)
    requires
        major < 6,
        n < pow256(8),
        0 <= pos,
        pos + head(major, n).len() <= b.len(),
        b.subrange(pos, pos + head(major, n).len()) == head(major, n),
    ensures
        dec_head(b, pos) == Some((major, n, pos + head(major, n).len())),
{
    let h = head(major, n);
    assert(b[pos] == h[0]);
    if n < 24 {
        assert(h[0] == (major * 32 + n) as u8);
        assert(b[pos] / 32 == major && b[pos] % 32 == n) by (nonlinear_arith)
            requires
                major < 6,
                n < 24,
                b[pos] == (major * 32 + n) as u8,
        ;
    } else {
        let (w, lo) = if n < 256 {
            (1nat, 24nat)
        } else if n < 65536 {
            (2nat, 25nat)
        } else if n < 0x1_0000_0000 {
            (4nat, 26nat)
        } else {
            (8nat, 27nat)
        };
        lemma_be_bytes_len(n, w);
        assert(h[0] == (major * 32 + lo) as u8);
        assert(b[pos] / 32 == major && b[pos] % 32 == lo) by (nonlinear_arith)
            requires
                major < 6,
                24 <= lo < 28,
                b[pos] == (major * 32 + lo) as u8,
        ;
        lemma_pow256_values();
        assert forall|i: int| 0 <= i < w implies b[pos + 1 + i] == be_bytes(n, w)[i] by {
            assert(b.subrange(pos, pos + h.len())[1 + i] == h[1 + i]);
        }
        assert(b.subrange(pos + 1, pos + 1 + w) =~= be_bytes(n, w));
        lemma_be_round_trip(n, w, b, pos + 1);
    }
}

/// Every encoding starts with the two-element array head and is at
/// least three bytes long.
pub proof fn lemma_enc_expr_len(e: ExprS)
    ensures
        enc_expr(e).len() >= 3,
        enc_expr(e)[0] == 0x82u8,
{
    lemma_head_len(4, 2);
    lemma_head_len(0, tag_of(e));
    assert(head(4, 2) =~= seq![0x82u8]);
}

/// A head is one to nine bytes long.
pub proof fn lemma_head_len(major: nat, n: nat)
    ensures
        1 <= head(major, n).len() <= 9,
{
    if n < 24 {
    } else if n < 256 {
        lemma_be_bytes_len(n, 1);
    } else if n < 65536 {
        lemma_be_bytes_len(n, 2);
    } else if n < 0x1_0000_0000 {
        lemma_be_bytes_len(n, 4);
    } else {
        lemma_be_bytes_len(n, 8);
    }
}

/// The expression a byte range holds, with the position after it.
pub open spec fn dec_expr(b: Seq<u8>, pos: int) -> Option<(ExprS, int)>
    decreases b.len() - pos, 0int,
{
    match dec_head(b, pos) {
        Option::None => None,
        Option::Some((m1, n1, p1)) => {
            if m1 != 4 || n1 != 2 {
                None
            } else {
                match dec_head(b, p1) {
                    Option::None => None,
                    Option::Some((m2, tag, p2)) => {
                        if m2 != 0 {
                            None
                        } else if tag == 0 || tag == 3 {
                            dec_text_payload(b, p2, tag == 0)
                        } else if tag == 1 {
                            dec_int_payload(b, p2)
                        } else if tag == 2 {
                            if p2 < b.len() && b[p2] == 0xf5u8 {
                                Some((ExprS::Bool(true), p2 + 1))
                            } else if p2 < b.len() && b[p2] == 0xf4u8 {
                                Some((ExprS::Bool(false), p2 + 1))
                            } else {
                                None
                            }
                        } else if tag == 4 {
                            match dec_head(b, p2) {
                                Option::None => None,
                                Option::Some((m3, cnt, p3)) => {
                                    if m3 != 4 || cnt > b.len() - p3 {
                                        None
                                    } else {
                                        match dec_items(b, clamp_after(p3, pos, b.len() as int), cnt as nat) {
                                            Option::None => None,
                                            Option::Some((items, p4)) => Some(
                                                (ExprS::Sequence(items), p4),
                                            ),
                                        }
                                    }
                                },
                            }
                        } else if tag == 5 {
                            match dec_head(b, p2) {
                                Option::None => None,
                                Option::Some((m3, n3, p3)) => {
                                    if m3 != 4 || n3 != 2 {
                                        None
                                    } else {
                                        match dec_expr(b, clamp_after(p3, pos, b.len() as int)) {
                                            Option::None => None,
                                            Option::Some((h, p4)) => {
                                                match dec_head(b, p4) {
                                                    Option::None => None,
                                                    Option::Some((m5, cnt, p5)) => {
                                                        if m5 != 4 || cnt > b.len() - p5 {
                                                            None
                                                        } else {
                                                            match dec_items(
                                                                b,
                                                                clamp_after(p5, pos, b.len() as int),
                                                                cnt as nat,
                                                            ) {
                                                                Option::None => None,
                                                                Option::Some((args, p6)) => Some(
                                                                    (
                                                                        ExprS::List(
                                                                            Box::new(h),
                                                                            args,
                                                                        ),
                                                                        p6,
                                                                    ),
                                                                ),
                                                            }
                                                        }
                                                    },
                                                }
                                            },
                                        }
                                    }
                                },
                            }
                        } else {
                            None
                        }
                    },
                }
            }
        },
    }
}

/// A position strictly after `pos` and at most `len`, used so that
/// recursion always moves forward. Everywhere the round trip reaches,
/// the clamp changes nothing.
pub open spec fn clamp_after(p: int, pos: int, len: int) -> int {
    let q = if p > pos {
        p
    } else {
        pos + 1
    };
    if q > len {
        len
    } else {
        q
    }
}

/// A text payload: a text head, then that many UTF-8 bytes.
pub open spec fn dec_text_payload(b: Seq<u8>, p2: int, is_str: bool) -> Option<(ExprS, int)> {
    match dec_head(b, p2) {
        Option::None => None,
        Option::Some((m3, len, p3)) => {
            if m3 != 3 || len > b.len() - p3 {
                None
            } else {
                let bytes = b.subrange(p3, p3 + len);
                if valid_utf8(bytes) {
                    let s = decode_utf8(bytes);
                    Some(
                        (
                            if is_str {
                                ExprS::Str(s)
                            } else {
                                ExprS::Ident(s)
                            },
                            p3 + len,
                        ),
                    )
                } else {
                    None
                }
            }
        },
    }
}

/// An integer payload: an unsigned or negative head within 64-bit range.
pub open spec fn dec_int_payload(b: Seq<u8>, p2: int) -> Option<(ExprS, int)> {
    match dec_head(b, p2) {
        Option::None => None,
        Option::Some((m3, v, p3)) => {
            if m3 == 0 && v <= i64::MAX {
                Some((ExprS::Int(v as int), p3))
            } else if m3 == 1 && v <= i64::MAX {
                Some((ExprS::Int(-1 - (v as int)), p3))
            } else {
                None
            }
        },
    }
}

/// `cnt` expressions in a row, with the position after them.
pub open spec fn dec_items(b: Seq<u8>, pos: int, cnt: nat) -> Option<(Seq<ExprS>, int)>
    decreases b.len() - pos, 1int, cnt,
{
    if cnt == 0 {
        Some((Seq::empty(), pos))
    } else if pos < 0 || pos >= b.len() {
        None
    } else {
        match dec_expr(b, pos) {
            Option::None => None,
            Option::Some((e, p1)) => {
                match dec_items(b, clamp_after(p1, pos, b.len() as int), (cnt - 1) as nat) {
                    Option::None => None,
                    Option::Some((items, p2)) => Some((seq![e] + items, p2)),
                }
            },
        }
    }
}

/// The policy record at `pos`: the map `{1: expression}`, with the
/// position after it.
pub open spec fn dec_policy_at(b: Seq<u8>, pos: int) -> Option<(ExprS, int)> {
    match dec_head(b, pos) {
        Option::None => None,
        Option::Some((m1, n1, p1)) => {
            if m1 != 5 || n1 != 1 {
                None
            } else {
                match dec_head(b, p1) {
                    Option::None => None,
                    Option::Some((m2, k, p2)) => {
                        if m2 != 0 || k != 1 {
                            None
                        } else {
                            dec_expr(b, p2)
                        }
                    },
                }
            }
        },
    }
}

/// The policy a whole buffer holds, with nothing after it.
pub open spec fn dec_policy(b: Seq<u8>) -> Option<ExprS> {
    match dec_policy_at(b, 0) {
        Option::None => None,
        Option::Some((e, p)) => {
            if p == b.len() {
                Some(e)
            } else {
                None
            }
        },
    }
}

/// Whether every count in the encoding of `e` fits the widest head
/// form: string byte lengths and sequence lengths below 2^64, integers
/// in the signed 64-bit range. Every expression a program can build is
/// bounded.
pub open spec fn enc_bounded(e: ExprS) -> bool
    decreases e, 1int,
{
    match e {
        ExprS::Str(s) => encode_utf8(s).len() < pow256(8),
        ExprS::Int(i) => i64::MIN <= i <= i64::MAX,
        ExprS::Bool(_) => true,
        ExprS::Ident(s) => encode_utf8(s).len() < pow256(8),
        ExprS::Sequence(items) => items.len() < pow256(8) && enc_bounded_items(items),
        ExprS::List(h, args) => enc_bounded(*h) && args.len() < pow256(8) && enc_bounded_items(
            args,
        ),
    }
}

/// `enc_bounded`, over every element.
pub open spec fn enc_bounded_items(items: Seq<ExprS>) -> bool
    decreases items, 0int,
{
    forall|i: int| 0 <= i < items.len() ==> enc_bounded(#[trigger] items[i])
}

/// A slice of a located byte run is itself located.
proof fn lemma_chunk(b: Seq<u8>, pos: int, whole: Seq<u8>, off: int, part: Seq<u8>)
    requires
        0 <= pos,
        pos + whole.len() <= b.len(),
        b.subrange(pos, pos + whole.len()) == whole,
        0 <= off,
        off + part.len() <= whole.len(),
        forall|i: int| 0 <= i < part.len() ==> part[i] == whole[off + i],
    ensures
        b.subrange(pos + off, pos + off + part.len()) == part,
{
    assert forall|i: int| 0 <= i < part.len() implies b[pos + off + i] == part[i] by {
        assert(b.subrange(pos, pos + whole.len())[off + i] == whole[off + i]);
    }
    assert(b.subrange(pos + off, pos + off + part.len()) =~= part);
}

/// Item runs are at least three bytes per item long.
pub proof fn lemma_enc_items_len(items: Seq<ExprS>)
    ensures
        enc_items(items).len() >= 3 * items.len(),
    decreases items,
{
    if items.len() > 0 {
        lemma_enc_expr_len(items[0]);
        lemma_enc_items_len(items.drop_first());
    }
}

/// Round trip: decoding right after an expression's encoding was laid
/// down recovers the expression and stops right after it.
#[verifier::rlimit(80)]
#[verifier::spinoff_prover]
pub proof fn lemma_dec_enc_expr(e: ExprS, b: Seq<u8>, pos: int)
    requires
        enc_bounded(e),
        0 <= pos,
        pos + enc_expr(e).len() <= b.len(),
        b.subrange(pos, pos + enc_expr(e).len()) == enc_expr(e),
    ensures
        dec_expr(b, pos) == Some((e, pos + enc_expr(e).len())),
    decreases e, 1int,
{
    lemma_pow256_values();
    let whole = enc_expr(e);
    let ha = head(4, 2);
    let hb = head(0, tag_of(e));
    assert(ha =~= seq![0x82u8]);
    assert(hb =~= seq![(tag_of(e)) as u8]);
    lemma_chunk(b, pos, whole, 0, ha);
    lemma_dec_head(4, 2, b, pos);
    lemma_chunk(b, pos, whole, 1, hb);
    lemma_dec_head(0, tag_of(e), b, pos + 1);
    let p2 = pos + 2;
    match e {
        ExprS::Str(s) => {
            let u = encode_utf8(s);
            let ht = head(3, u.len());
            lemma_head_len(3, u.len());
            lemma_chunk(b, pos, whole, 2, ht);
            lemma_dec_head(3, u.len(), b, p2);
            let p3 = p2 + ht.len();
            lemma_chunk(b, pos, whole, 2 + ht.len() as int, u);
            assert(b.subrange(p3, p3 + u.len()) == u);
            vstd::utf8::encode_utf8_valid_utf8(s);
            vstd::utf8::encode_utf8_decode_utf8(s);
        },
        ExprS::Ident(s) => {
            let u = encode_utf8(s);
            let ht = head(3, u.len());
            lemma_head_len(3, u.len());
            lemma_chunk(b, pos, whole, 2, ht);
            lemma_dec_head(3, u.len(), b, p2);
            let p3 = p2 + ht.len();
            lemma_chunk(b, pos, whole, 2 + ht.len() as int, u);
            assert(b.subrange(p3, p3 + u.len()) == u);
            vstd::utf8::encode_utf8_valid_utf8(s);
            vstd::utf8::encode_utf8_decode_utf8(s);
        },
        ExprS::Int(i) => {
            if i >= 0 {
                let ht = head(0, i as nat);
                lemma_chunk(b, pos, whole, 2, ht);
                lemma_dec_head(0, i as nat, b, p2);
            } else {
                let m = (-1 - i) as nat;
                let ht = head(1, m);
                lemma_chunk(b, pos, whole, 2, ht);
                lemma_dec_head(1, m, b, p2);
            }
        },
        ExprS::Bool(v) => {
            let c = enc_bool(v);
            lemma_chunk(b, pos, whole, 2, c);
            assert(b.subrange(p2, p2 + 1)[0] == b[p2]);
        },
        ExprS::Sequence(items) => {
            let hc = head(4, items.len());
            lemma_head_len(4, items.len());
            lemma_chunk(b, pos, whole, 2, hc);
            lemma_dec_head(4, items.len(), b, p2);
            let p3 = p2 + hc.len();
            lemma_enc_items_len(items);
            lemma_chunk(b, pos, whole, 2 + hc.len() as int, enc_items(items));
            assert(clamp_after(p3, pos, b.len() as int) == p3);
            lemma_dec_enc_items(items, b, p3);
        },
        ExprS::List(h, args) => {
            let hi = head(4, 2);
            lemma_chunk(b, pos, whole, 2, hi);
            lemma_dec_head(4, 2, b, p2);
            let p3 = p2 + 1;
            let eh = enc_expr(*h);
            lemma_enc_expr_len(*h);
            lemma_chunk(b, pos, whole, 3, eh);
            assert(clamp_after(p3, pos, b.len() as int) == p3);
            lemma_dec_enc_expr(*h, b, p3);
            let p4 = p3 + eh.len();
            let hc = head(4, args.len());
            lemma_head_len(4, args.len());
            lemma_chunk(b, pos, whole, 3 + eh.len() as int, hc);
            lemma_dec_head(4, args.len(), b, p4);
            let p5 = p4 + hc.len();
            lemma_enc_items_len(args);
            lemma_chunk(b, pos, whole, 3 + eh.len() as int + hc.len() as int, enc_items(args));
            assert(clamp_after(p5, pos, b.len() as int) == p5);
            lemma_dec_enc_items(args, b, p5);
        },
    }
}

/// Round trip over a run of encoded expressions.
#[verifier::rlimit(80)]
#[verifier::spinoff_prover]
pub proof fn lemma_dec_enc_items(items: Seq<ExprS>, b: Seq<u8>, pos: int)
    requires
        enc_bounded_items(items),
        0 <= pos,
        pos + enc_items(items).len() <= b.len(),
        b.subrange(pos, pos + enc_items(items).len()) == enc_items(items),
    ensures
        dec_items(b, pos, items.len()) == Some((items, pos + enc_items(items).len())),
    decreases items, 0int,
{
    if items.len() == 0 {
        assert(Seq::<ExprS>::empty() =~= items);
    } else {
        let whole = enc_items(items);
        let e0 = enc_expr(items[0]);
        let rest = enc_items(items.drop_first());
        lemma_enc_expr_len(items[0]);
        lemma_chunk(b, pos, whole, 0, e0);
        lemma_dec_enc_expr(items[0], b, pos);
        let p1 = pos + e0.len();
        assert(clamp_after(p1, pos, b.len() as int) == p1);
        lemma_chunk(b, pos, whole, e0.len() as int, rest);
        assert(enc_bounded_items(items.drop_first())) by {
            assert(forall|i: int|
                0 <= i < items.drop_first().len() ==> items.drop_first()[i] == items[i + 1]);
        }
        lemma_dec_enc_items(items.drop_first(), b, p1);
        assert(seq![items[0]] + items.drop_first() =~= items);
    }
}

/// Round trip for a whole policy buffer: decoding the encoding of a
/// bounded policy expression gives that expression back.
pub proof fn lemma_dec_enc_policy(e: ExprS)
    requires
        enc_bounded(e),
    ensures
        dec_policy(enc_policy(e)) == Some(e),
{
    let b = enc_policy(e);
    let hm = head(5, 1);
    let hk = head(0, 1);
    assert(hm =~= seq![0xa1u8]);
    assert(hk =~= seq![0x01u8]);
    lemma_enc_expr_len(e);
    lemma_pow256_values();
    assert(b.len() == 2 + enc_expr(e).len());
    assert(b.subrange(0, b.len() as int) =~= b);
    assert(forall|i: int| 0 <= i < 1 ==> hm[i] == b[i]);
    assert(forall|i: int| 0 <= i < 1 ==> hk[i] == b[1 + i]);
    assert(forall|i: int| 0 <= i < enc_expr(e).len() ==> enc_expr(e)[i] == b[2 + i]);
    lemma_chunk(b, 0, b, 0, hm);
    lemma_dec_head(5, 1, b, 0);
    lemma_chunk(b, 0, b, 1, hk);
    lemma_dec_head(0, 1, b, 1);
    lemma_chunk(b, 0, b, 2, enc_expr(e));
    lemma_dec_enc_expr(e, b, 2);
}

/// Appends the big-endian bytes of `n`, `k` bytes wide.
fn push_be(out: &mut Vec<u8>, n: u64, k: u8)
    requires
        k <= 8,
        (n as nat) < pow256(k as nat),
    ensures
        final(out)@ == old(out)@ + be_bytes(n as nat, k as nat),
    decreases k,
{
    if k == 0 {
        proof {
            assert(final(out)@ =~= old(out)@ + be_bytes(n as nat, 0));
        }
    } else {
        proof {
            assert((n / 256) as nat == (n as nat) / 256) by (nonlinear_arith)
                requires
                    n >= 0,
            ;
            assert(((n as nat) / 256) < pow256((k - 1) as nat)) by (nonlinear_arith)
                requires
                    (n as nat) < pow256(k as nat),
                    pow256(k as nat) == 256 * pow256((k - 1) as nat),
            ;
            lemma_be_bytes_len((n / 256) as nat, (k - 1) as nat);
        }
        push_be(out, n / 256, k - 1);
        out.push((n % 256) as u8);
        proof {
            assert(final(out)@ =~= old(out)@ + be_bytes(n as nat, k as nat));
        }
    }
}

/// Appends one item head.
fn push_head(out: &mut Vec<u8>, major: u8, n: u64)
    requires
        major < 6,
    ensures
        final(out)@ == old(out)@ + head(major as nat, n as nat),
{
    proof {
        lemma_pow256_values();
    }
    if n < 24 {
        out.push(major * 32 + (n as u8));
        proof {
            assert(final(out)@ =~= old(out)@ + head(major as nat, n as nat));
        }
    } else if n < 256 {
        out.push(major * 32 + 24);
        push_be(out, n, 1);
        proof {
            assert(final(out)@ =~= old(out)@ + head(major as nat, n as nat));
        }
    } else if n < 65536 {
        out.push(major * 32 + 25);
        push_be(out, n, 2);
        proof {
            assert(final(out)@ =~= old(out)@ + head(major as nat, n as nat));
        }
    } else if n < 0x1_0000_0000 {
        out.push(major * 32 + 26);
        push_be(out, n, 4);
        proof {
            assert(final(out)@ =~= old(out)@ + head(major as nat, n as nat));
        }
    } else {
        out.push(major * 32 + 27);
        push_be(out, n, 8);
        proof {
            assert((n as nat) < pow256(8));
            assert(final(out)@ =~= old(out)@ + head(major as nat, n as nat));
        }
    }
}

/// Extending an item run by one item appends that item's encoding.
pub proof fn lemma_enc_items_take(s: Seq<ExprS>, i: int)
    requires
        0 <= i < s.len(),
    ensures
        enc_items(s.take(i + 1)) == enc_items(s.take(i)) + enc_expr(s[i]),
    decreases i,
{
    if i == 0 {
        assert(s.take(1)[0] == s[0]);
        assert(s.take(1).drop_first() =~= Seq::<ExprS>::empty());
        assert(s.take(0) =~= Seq::<ExprS>::empty());
        assert(enc_items(s.take(1)) =~= enc_items(s.take(0)) + enc_expr(s[0]));
    } else {
        lemma_enc_items_take(s.drop_first(), i - 1);
        assert(s.take(i + 1)[0] == s[0]);
        assert(s.take(i)[0] == s[0]);
        assert(s.take(i + 1).drop_first() =~= s.drop_first().take(i));
        assert(s.take(i).drop_first() =~= s.drop_first().take(i - 1));
        assert(s.drop_first()[i - 1] == s[i]);
        assert(enc_items(s.take(i + 1)) =~= enc_items(s.take(i)) + enc_expr(s[i]));
    }
}

/// Appends the encoding of one expression.
fn encode_expr_into(out: &mut Vec<u8>, e: &Expr)
    ensures
        final(out)@ == old(out)@ + enc_expr(e@),
    decreases *e, 1int,
{
    push_head(out, 4, 2);
    match e {
        Expr::Str(s) => {
            push_head(out, 0, 0);
            let mut bytes = s.as_str().as_bytes_vec();
            push_head(out, 3, bytes.len() as u64);
            out.append(&mut bytes);
            proof {
                assert(final(out)@ =~= old(out)@ + enc_expr(e@));
            }
        },
        Expr::Int(i) => {
            push_head(out, 0, 1);
            let v = *i;
            if v >= 0 {
                push_head(out, 0, v as u64);
            } else {
                push_head(out, 1, (-(v + 1)) as u64);
            }
            proof {
                assert(final(out)@ =~= old(out)@ + enc_expr(e@));
            }
        },
        Expr::Bool(v) => {
            push_head(out, 0, 2);
            if *v {
                out.push(0xf5);
            } else {
                out.push(0xf4);
            }
            proof {
                assert(final(out)@ =~= old(out)@ + enc_expr(e@));
            }
        },
        Expr::Ident(s) => {
            push_head(out, 0, 3);
            let mut bytes = s.as_str().as_bytes_vec();
            push_head(out, 3, bytes.len() as u64);
            out.append(&mut bytes);
            proof {
                assert(final(out)@ =~= old(out)@ + enc_expr(e@));
            }
        },
        Expr::Sequence(items) => {
            push_head(out, 0, 4);
            push_head(out, 4, items.len() as u64);
            encode_items_into(out, items);
            proof {
                lemma_deep_seq(items@);
                assert(final(out)@ =~= old(out)@ + enc_expr(e@));
            }
        },
        Expr::List(h, args) => {
            push_head(out, 0, 5);
            push_head(out, 4, 2);
            encode_expr_into(out, h);
            push_head(out, 4, args.len() as u64);
            encode_items_into(out, args);
            proof {
                lemma_deep_seq(args@);
                assert(final(out)@ =~= old(out)@ + enc_expr(e@));
            }
        },
    }
}

/// Appends the encodings of every element, in order.
fn encode_items_into(out: &mut Vec<u8>, items: &Vec<Expr>)
    ensures
        final(out)@ == old(out)@ + enc_items(deep_seq(items@)),
    decreases items@, 0int,
{
    let ghost s = deep_seq(items@);
    proof {
        lemma_deep_seq(items@);
        assert(s.take(0) =~= Seq::<ExprS>::empty());
        assert(old(out)@ + enc_items(s.take(0)) =~= old(out)@);
    }
    let mut i: usize = 0;
    while i < items.len()
        invariant
            s == deep_seq(items@),
            s.len() == items@.len(),
            forall|j: int| 0 <= j < items@.len() ==> s[j] == items@[j].deep(),
            i <= items@.len(),
            out@ == old(out)@ + enc_items(s.take(i as int)),
        decreases items@.len() - i,
    {
        encode_expr_into(out, &items[i]);
        proof {
            lemma_enc_items_take(s, i as int);
        }
        i = i + 1;
    }
    proof {
        assert(s.take(items@.len() as int) =~= s);
    }
}

/// The binary encoding of an expression.
pub fn encode_expr(e: &Expr) -> (r: Vec<u8>)
    ensures
        r@ == enc_expr(e@),
{
    let mut out: Vec<u8> = Vec::new();
    encode_expr_into(&mut out, e);
    proof {
        assert(Seq::<u8>::empty() + enc_expr(e@) =~= enc_expr(e@));
    }
    out
}

/// The binary encoding of a policy: the map `{1: expression}`.
pub fn encode_policy(p: &Policy) -> (r: Vec<u8>)
    ensures
        r@ == enc_policy(p@),
{
    let mut out: Vec<u8> = Vec::new();
    push_head(&mut out, 5, 1);
    push_head(&mut out, 0, 1);
    encode_expr_into(&mut out, p.expression());
    proof {
        assert(out@ =~= enc_policy(p@));
    }
    out
}

/// Reads one item head.
fn read_head(b: &Vec<u8>, pos: usize) -> (r: Option<(u8, u64, usize)>)
    ensures
        match r {
            Some((m, v, end)) => dec_head(b@, pos as int) == Some(
                (m as nat, v as nat, end as int),
            ) && pos < end <= b@.len() && m < 8,
            None => dec_head(b@, pos as int) is None,
        },
{
    proof {
        lemma_pow256_values();
    }
    if pos >= b.len() {
        return None;
    }
    let major = b[pos] / 32;
    let low = b[pos] % 32;
    if low < 24 {
        Some((major, low as u64, pos + 1))
    } else if low == 24 && b.len() - pos >= 2 {
        let v = read_be_exec(b, pos + 1, 1);
        Some((major, v, pos + 2))
    } else if low == 25 && b.len() - pos >= 3 {
        let v = read_be_exec(b, pos + 1, 2);
        Some((major, v, pos + 3))
    } else if low == 26 && b.len() - pos >= 5 {
        let v = read_be_exec(b, pos + 1, 4);
        Some((major, v, pos + 5))
    } else if low == 27 && b.len() - pos >= 9 {
        let v = read_be_exec(b, pos + 1, 8);
        Some((major, v, pos + 9))
    } else {
        None
    }
}

/// Reads `k` big-endian bytes as a number.
fn read_be_exec(b: &Vec<u8>, pos: usize, k: u8) -> (v: u64)
    requires
        k <= 8,
        pos + k <= b@.len(),
    ensures
        v as nat == read_be(b@, pos as int, k as nat),
{
    let mut v: u64 = 0;
    let mut i: u8 = 0;
    while i < k
        invariant
            k <= 8,
            i <= k,
            pos + k <= b@.len(),
            v as nat == read_be(b@, pos as int, i as nat),
            (v as nat) < pow256(i as nat),
        decreases k - i,
    {
        proof {
            lemma_pow256_values();
            let m = v as nat;
            let by = b@[pos + i] as nat;
            assert(m * 256 + by < 256 * pow256(i as nat)) by (nonlinear_arith)
                requires
                    m < pow256(i as nat),
                    by < 256,
            ;
            assert(256 * pow256(i as nat) == pow256((i + 1) as nat));
            assert(pow256(i as nat) <= pow256(7)) by {
                lemma_pow256_mono(i as nat, 7);
            }
            assert(m * 256 + by < 256 * pow256(7)) by (nonlinear_arith)
                requires
                    m < pow256(7),
                    by < 256,
            ;
            assert(256 * pow256(7) == pow256(8));
            assert(m * 256 + by < 0x1_0000_0000_0000_0000);
        }
        let n = b.len();
        proof {
            assert(pos + (i as int) < n);
        }
        v = v * 256 + (b[pos + (i as usize)] as u64);
        i = i + 1;
    }
    v
}

/// `pow256` grows with its exponent.
pub proof fn lemma_pow256_mono(a: nat, c: nat)
    requires
        a <= c,
    ensures
        pow256(a) <= pow256(c),
    decreases c,
{
    if a < c {
        lemma_pow256_mono(a, (c - 1) as nat);
        assert(pow256((c - 1) as nat) <= 256 * pow256((c - 1) as nat)) by (nonlinear_arith)
            requires
                pow256((c - 1) as nat) >= 0,
        ;
    }
}

/// Reads one expression, returning it with the position after it.
fn decode_expr_at(b: &Vec<u8>, pos: usize) -> (r: Option<(Expr, usize)>)
    ensures
        match r {
            Some((e, end)) => dec_expr(b@, pos as int) == Some((e@, end as int)) && pos < end
                <= b@.len(),
            None => dec_expr(b@, pos as int) is None,
        },
    decreases b@.len() - pos, 0int,
{
    let (m1, n1, p1) = match read_head(b, pos) {
        Some(h) => h,
        None => {
            return None;
        },
    };
    if m1 != 4 || n1 != 2 {
        return None;
    }
    let (m2, tag, p2) = match read_head(b, p1) {
        Some(h) => h,
        None => {
            return None;
        },
    };
    if m2 != 0 {
        return None;
    }
    if tag == 0 || tag == 3 {
        let (m3, len, p3) = match read_head(b, p2) {
            Some(h) => h,
            None => {
                return None;
            },
        };
        if m3 != 3 || len > (b.len() - p3) as u64 {
            return None;
        }
        let lenu = len as usize;
        let bytes = vstd::slice::slice_to_vec(
            vstd::slice::slice_subrange(b.as_slice(), p3, p3 + lenu),
        );
        match crate::strings::string_from_utf8(&bytes) {
            Some(s) => {
                proof {
                    vstd::utf8::encode_utf8_decode_utf8(s@);
                }
                if tag == 0 {
                    Some((Expr::Str(s), p3 + lenu))
                } else {
                    Some((Expr::Ident(s), p3 + lenu))
                }
            },
            None => None,
        }
    } else if tag == 1 {
        let (m3, v, p3) = match read_head(b, p2) {
            Some(h) => h,
            None => {
                return None;
            },
        };
        if m3 == 0 && v <= i64::MAX as u64 {
            Some((Expr::Int(v as i64), p3))
        } else if m3 == 1 && v <= i64::MAX as u64 {
            Some((Expr::Int(-1 - (v as i64)), p3))
        } else {
            None
        }
    } else if tag == 2 {
        if p2 < b.len() && b[p2] == 0xf5 {
            Some((Expr::Bool(true), p2 + 1))
        } else if p2 < b.len() && b[p2] == 0xf4 {
            Some((Expr::Bool(false), p2 + 1))
        } else {
            None
        }
    } else if tag == 4 {
        let (m3, cnt, p3) = match read_head(b, p2) {
            Some(h) => h,
            None => {
                return None;
            },
        };
        if m3 != 4 || cnt > (b.len() - p3) as u64 {
            return None;
        }
        proof {
            assert(clamp_after(p3 as int, pos as int, b@.len() as int) == p3 as int);
        }
        match decode_items_at(b, p3, cnt) {
            Some((items, p4)) => Some((Expr::Sequence(items), p4)),
            None => None,
        }
    } else if tag == 5 {
        let (m3, n3, p3) = match read_head(b, p2) {
            Some(h) => h,
            None => {
                return None;
            },
        };
        if m3 != 4 || n3 != 2 {
            return None;
        }
        proof {
            assert(clamp_after(p3 as int, pos as int, b@.len() as int) == p3 as int);
        }
        let (h, p4) = match decode_expr_at(b, p3) {
            Some(x) => x,
            None => {
                return None;
            },
        };
        let (m5, cnt, p5) = match read_head(b, p4) {
            Some(x) => x,
            None => {
                return None;
            },
        };
        if m5 != 4 || cnt > (b.len() - p5) as u64 {
            return None;
        }
        proof {
            assert(clamp_after(p5 as int, pos as int, b@.len() as int) == p5 as int);
        }
        match decode_items_at(b, p5, cnt) {
            Some((args, p6)) => Some((Expr::List(Box::new(h), args), p6)),
            None => None,
        }
    } else {
        None
    }
}

/// Reads `cnt` expressions in a row.
fn decode_items_at(b: &Vec<u8>, pos: usize, cnt: u64) -> (r: Option<(Vec<Expr>, usize)>)
    ensures
        match r {
            Some((items, end)) => dec_items(b@, pos as int, cnt as nat) == Some(
                (deep_seq(items@), end as int),
            ) && pos <= end && (pos <= b@.len() ==> end <= b@.len()) && items@.len() == cnt,
            None => dec_items(b@, pos as int, cnt as nat) is None,
        },
    decreases b@.len() - pos, 1int, cnt,
{
    if cnt == 0 {
        let empty: Vec<Expr> = Vec::new();
        proof {
            assert(deep_seq(empty@) =~= Seq::<ExprS>::empty());
        }
        return Some((empty, pos));
    }
    if pos >= b.len() {
        return None;
    }
    let (e, p1) = match decode_expr_at(b, pos) {
        Some(x) => x,
        None => {
            return None;
        },
    };
    proof {
        assert(clamp_after(p1 as int, pos as int, b@.len() as int) == p1 as int);
    }
    match decode_items_at(b, p1, cnt - 1) {
        Some((items, p2)) => {
            let mut out: Vec<Expr> = Vec::new();
            out.push(e);
            let mut rest = items;
            out.append(&mut rest);
            proof {
                lemma_deep_seq(out@);
                lemma_deep_seq(items@);
                assert(out@ =~= seq![e] + items@);
                assert forall|j: int| 0 <= j < out@.len() implies deep_seq(out@)[j] == (
                seq![e@] + deep_seq(items@))[j] by {
                    if j > 0 {
                        assert(out@[j] == items@[j - 1]);
                    }
                }
                assert(deep_seq(out@) =~= seq![e@] + deep_seq(items@));
            }
            Some((out, p2))
        },
        None => None,
    }
}

/// Reads a whole policy buffer: the map `{1: expression}` and nothing
/// after it. Together with the round-trip law, decoding what
/// `encode_policy` wrote gives the written policy back.
pub fn decode_policy(b: &Vec<u8>) -> (r: Option<Policy>)
    ensures
        match r {
            Some(p) => dec_policy(b@) == Some(p@),
            None => dec_policy(b@) is None,
        },
{
    let (m1, n1, p1) = match read_head(b, 0) {
        Some(h) => h,
        None => {
            return None;
        },
    };
    if m1 != 5 || n1 != 1 {
        return None;
    }
    let (m2, k, p2) = match read_head(b, p1) {
        Some(h) => h,
        None => {
            return None;
        },
    };
    if m2 != 0 || k != 1 {
        return None;
    }
    let (e, p3) = match decode_expr_at(b, p2) {
        Some(x) => x,
        None => {
            return None;
        },
    };
    if p3 == b.len() {
        Some(Policy::new(e))
    } else {
        None
    }
}

/// The encoding of one (action, policy) pair: a two-element array of
/// the action's text and the policy record.
pub open spec fn enc_pair(a: Seq<char>, e: ExprS) -> Seq<u8> {
    head(4, 2) + enc_text(a) + enc_policy(e)
}

/// The concatenated encodings of a run of (action, policy) pairs.
pub open spec fn enc_pairs(items: Seq<(Seq<char>, ExprS)>) -> Seq<u8>
    decreases items.len(),
{
    if items.len() == 0 {
        Seq::empty()
    } else {
        enc_pair(items[0].0, items[0].1) + enc_pairs(items.drop_first())
    }
}

/// The encoding of a policy listing: the map `{1: array of pairs}`.
pub open spec fn enc_policy_list(items: Seq<(Seq<char>, ExprS)>) -> Seq<u8> {
    head(5, 1) + head(0, 1) + head(4, items.len()) + enc_pairs(items)
}

/// Whether a listing's counts fit the widest head form: the pair count,
/// every action's byte length, and every policy expression bounded.
pub open spec fn list_bounded(items: Seq<(Seq<char>, ExprS)>) -> bool {
    &&& items.len() < pow256(8)
    &&& forall|i: int|
        0 <= i < items.len() ==> encode_utf8((#[trigger] items[i]).0).len() < pow256(8)
            && enc_bounded(items[i].1)
}

/// The text at `pos`: a text head, then that many UTF-8 bytes.
pub open spec fn dec_text(b: Seq<u8>, pos: int) -> Option<(Seq<char>, int)> {
    match dec_head(b, pos) {
        Option::None => None,
        Option::Some((m, len, p)) => {
            if m != 3 || len > b.len() - p {
                None
            } else {
                let bytes = b.subrange(p, p + len);
                if valid_utf8(bytes) {
                    Some((decode_utf8(bytes), p + len))
                } else {
                    None
                }
            }
        },
    }
}

/// The (action, policy) pair at `pos`, with the position after it.
pub open spec fn dec_pair(b: Seq<u8>, pos: int) -> Option<((Seq<char>, ExprS), int)> {
    match dec_head(b, pos) {
        Option::None => None,
        Option::Some((m, n, p1)) => {
            if m != 4 || n != 2 {
                None
            } else {
                match dec_text(b, p1) {
                    Option::None => None,
                    Option::Some((a, p2)) => {
                        match dec_policy_at(b, p2) {
                            Option::None => None,
                            Option::Some((e, p3)) => Some(((a, e), p3)),
                        }
                    },
                }
            }
        },
    }
}

/// `cnt` pairs in a row, with the position after them.
pub open spec fn dec_pairs(b: Seq<u8>, pos: int, cnt: nat) -> Option<
    (Seq<(Seq<char>, ExprS)>, int),
>
    decreases b.len() - pos, cnt,
{
    if cnt == 0 {
        Some((Seq::empty(), pos))
    } else if pos < 0 || pos >= b.len() {
        None
    } else {
        match dec_pair(b, pos) {
            Option::None => None,
            Option::Some((pr, p1)) => {
                match dec_pairs(b, clamp_after(p1, pos, b.len() as int), (cnt - 1) as nat) {
                    Option::None => None,
                    Option::Some((rest, p2)) => Some((seq![pr] + rest, p2)),
                }
            },
        }
    }
}

/// The policy listing a whole buffer holds, with nothing after it.
pub open spec fn dec_policy_list(b: Seq<u8>) -> Option<Seq<(Seq<char>, ExprS)>> {
    match dec_head(b, 0) {
        Option::None => None,
        Option::Some((m1, n1, p1)) => {
            if m1 != 5 || n1 != 1 {
                None
            } else {
                match dec_head(b, p1) {
                    Option::None => None,
                    Option::Some((m2, k, p2)) => {
                        if m2 != 0 || k != 1 {
                            None
                        } else {
                            match dec_head(b, p2) {
                                Option::None => None,
                                Option::Some((m3, cnt, p3)) => {
                                    if m3 != 4 || cnt > b.len() - p3 {
                                        None
                                    } else {
                                        match dec_pairs(b, p3, cnt as nat) {
                                            Option::None => None,
                                            Option::Some((items, p4)) => {
                                                if p4 == b.len() {
                                                    Some(items)
                                                } else {
                                                    None
                                                }
                                            },
                                        }
                                    }
                                },
                            }
                        }
                    },
                }
            }
        },
    }
}

/// Round trip for a located text encoding.
proof fn lemma_dec_enc_text(t: Seq<char>, b: Seq<u8>, pos: int)
    requires
        encode_utf8(t).len() < pow256(8),
        0 <= pos,
        pos + enc_text(t).len() <= b.len(),
        b.subrange(pos, pos + enc_text(t).len()) == enc_text(t),
    ensures
        dec_text(b, pos) == Some((t, pos + enc_text(t).len())),
{
    let u = encode_utf8(t);
    let ht = head(3, u.len());
    lemma_head_len(3, u.len());
    lemma_chunk(b, pos, enc_text(t), 0, ht);
    lemma_dec_head(3, u.len(), b, pos);
    let p = pos + ht.len();
    lemma_chunk(b, pos, enc_text(t), ht.len() as int, u);
    assert(b.subrange(p, p + u.len()) == u);
    vstd::utf8::encode_utf8_valid_utf8(t);
    vstd::utf8::encode_utf8_decode_utf8(t);
}

/// Round trip for a located policy record.
proof fn lemma_dec_enc_policy_at(e: ExprS, b: Seq<u8>, pos: int)
    requires
        enc_bounded(e),
        0 <= pos,
        pos + enc_policy(e).len() <= b.len(),
        b.subrange(pos, pos + enc_policy(e).len()) == enc_policy(e),
    ensures
        dec_policy_at(b, pos) == Some((e, pos + enc_policy(e).len())),
{
    let w = enc_policy(e);
    let hm = head(5, 1);
    let hk = head(0, 1);
    assert(hm =~= seq![0xa1u8]);
    assert(hk =~= seq![0x01u8]);
    lemma_enc_expr_len(e);
    lemma_pow256_values();
    lemma_chunk(b, pos, w, 0, hm);
    lemma_dec_head(5, 1, b, pos);
    lemma_chunk(b, pos, w, 1, hk);
    lemma_dec_head(0, 1, b, pos + 1);
    lemma_chunk(b, pos, w, 2, enc_expr(e));
    lemma_dec_enc_expr(e, b, pos + 2);
}

/// Round trip for a located pair encoding.
proof fn lemma_dec_enc_pair(a: Seq<char>, e: ExprS, b: Seq<u8>, pos: int)
    requires
        encode_utf8(a).len() < pow256(8),
        enc_bounded(e),
        0 <= pos,
        pos + enc_pair(a, e).len() <= b.len(),
        b.subrange(pos, pos + enc_pair(a, e).len()) == enc_pair(a, e),
    ensures
        dec_pair(b, pos) == Some(((a, e), pos + enc_pair(a, e).len())),
        enc_pair(a, e).len() >= 1,
{
    let w = enc_pair(a, e);
    let ha = head(4, 2);
    assert(ha =~= seq![0x82u8]);
    lemma_head_len(3, encode_utf8(a).len());
    lemma_enc_expr_len(e);
    lemma_chunk(b, pos, w, 0, ha);
    lemma_dec_head(4, 2, b, pos);
    lemma_chunk(b, pos, w, 1, enc_text(a));
    lemma_dec_enc_text(a, b, pos + 1);
    let p2 = pos + 1 + enc_text(a).len() as int;
    lemma_chunk(b, pos, w, 1 + enc_text(a).len() as int, enc_policy(e));
    lemma_dec_enc_policy_at(e, b, p2);
}

/// Round trip over a run of encoded pairs.
proof fn lemma_dec_enc_pairs(items: Seq<(Seq<char>, ExprS)>, b: Seq<u8>, pos: int)
    requires
        list_bounded(items),
        0 <= pos,
        pos + enc_pairs(items).len() <= b.len(),
        b.subrange(pos, pos + enc_pairs(items).len()) == enc_pairs(items),
    ensures
        dec_pairs(b, pos, items.len()) == Some((items, pos + enc_pairs(items).len())),
    decreases items.len(),
{
    if items.len() == 0 {
        assert(Seq::<(Seq<char>, ExprS)>::empty() =~= items);
    } else {
        let w = enc_pairs(items);
        let e0 = enc_pair(items[0].0, items[0].1);
        let rest = enc_pairs(items.drop_first());
        lemma_chunk(b, pos, w, 0, e0);
        lemma_dec_enc_pair(items[0].0, items[0].1, b, pos);
        let p1 = pos + e0.len() as int;
        assert(clamp_after(p1, pos, b.len() as int) == p1);
        lemma_chunk(b, pos, w, e0.len() as int, rest);
        assert(list_bounded(items.drop_first())) by {
            assert(forall|i: int|
                0 <= i < items.drop_first().len() ==> items.drop_first()[i] == items[i + 1]);
        }
        lemma_dec_enc_pairs(items.drop_first(), b, p1);
        assert(seq![items[0]] + items.drop_first() =~= items);
    }
}

/// Round trip for a whole policy listing: decoding the encoding of a
/// bounded listing gives the listing back.
pub proof fn lemma_dec_enc_policy_list(items: Seq<(Seq<char>, ExprS)>)
    requires
        list_bounded(items),
    ensures
        dec_policy_list(enc_policy_list(items)) == Some(items),
{
    let b = enc_policy_list(items);
    let hm = head(5, 1);
    let hk = head(0, 1);
    let hc = head(4, items.len());
    assert(hm =~= seq![0xa1u8]);
    assert(hk =~= seq![0x01u8]);
    lemma_head_len(4, items.len());
    lemma_pow256_values();
    lemma_enc_pairs_len(items);
    assert(b.subrange(0, b.len() as int) =~= b);
    assert(forall|i: int| 0 <= i < 1 ==> hm[i] == b[i]);
    assert(forall|i: int| 0 <= i < 1 ==> hk[i] == b[1 + i]);
    assert(forall|i: int| 0 <= i < hc.len() ==> hc[i] == b[2 + i]);
    assert(forall|i: int|
        0 <= i < enc_pairs(items).len() ==> enc_pairs(items)[i] == b[2 + hc.len() + i]);
    lemma_chunk(b, 0, b, 0, hm);
    lemma_dec_head(5, 1, b, 0);
    lemma_chunk(b, 0, b, 1, hk);
    lemma_dec_head(0, 1, b, 1);
    lemma_chunk(b, 0, b, 2, hc);
    lemma_dec_head(4, items.len(), b, 2);
    let p3 = 2 + hc.len() as int;
    lemma_chunk(b, 0, b, p3, enc_pairs(items));
    lemma_dec_enc_pairs(items, b, p3);
}

/// Pair runs hold at least one byte per pair.
proof fn lemma_enc_pairs_len(items: Seq<(Seq<char>, ExprS)>)
    ensures
        enc_pairs(items).len() >= items.len(),
    decreases items.len(),
{
    if items.len() > 0 {
        lemma_head_len(3, encode_utf8(items[0].0).len());
        lemma_enc_expr_len(items[0].1);
        lemma_enc_pairs_len(items.drop_first());
    }
}

/// Extending a pair run by one pair appends that pair's encoding.
proof fn lemma_enc_pairs_take(s: Seq<(Seq<char>, ExprS)>, i: int)
    requires
        0 <= i < s.len(),
    ensures
        enc_pairs(s.take(i + 1)) == enc_pairs(s.take(i)) + enc_pair(s[i].0, s[i].1),
    decreases i,
{
    if i == 0 {
        assert(s.take(1)[0] == s[0]);
        assert(s.take(1).drop_first() =~= Seq::<(Seq<char>, ExprS)>::empty());
        assert(s.take(0) =~= Seq::<(Seq<char>, ExprS)>::empty());
        assert(enc_pairs(s.take(1)) =~= enc_pairs(s.take(0)) + enc_pair(s[0].0, s[0].1));
    } else {
        lemma_enc_pairs_take(s.drop_first(), i - 1);
        assert(s.take(i + 1)[0] == s[0]);
        assert(s.take(i)[0] == s[0]);
        assert(s.take(i + 1).drop_first() =~= s.drop_first().take(i));
        assert(s.take(i).drop_first() =~= s.drop_first().take(i - 1));
        assert(s.drop_first()[i - 1] == s[i]);
        assert(enc_pairs(s.take(i + 1)) =~= enc_pairs(s.take(i)) + enc_pair(s[i].0, s[i].1));
    }
}

/// The binary encoding of a policy listing: the map `{1: array of
/// (action, policy) pairs}`.
pub fn encode_policy_list(l: &PolicyList) -> (r: Vec<u8>)
    ensures
        r@ == enc_policy_list(l@),
{
    let mut out: Vec<u8> = Vec::new();
    push_head(&mut out, 5, 1);
    push_head(&mut out, 0, 1);
    let ps = l.policies();
    push_head(&mut out, 4, ps.len() as u64);
    let ghost s = l@;
    let ghost start = out@;
    proof {
        assert(s.take(0) =~= Seq::<(Seq<char>, ExprS)>::empty());
        assert(start + enc_pairs(s.take(0)) =~= start);
    }
    let mut i: usize = 0;
    while i < ps.len()
        invariant
            s == l@,
            s.len() == ps@.len(),
            forall|j: int| 0 <= j < ps@.len() ==> s[j] == ((#[trigger] ps@[j]).0@, ps@[j].1@),
            i <= ps@.len(),
            out@ == start + enc_pairs(s.take(i as int)),
            start == seq![0xa1u8] + seq![0x01u8] + head(4, s.len()),
        decreases ps@.len() - i,
    {
        push_head(&mut out, 4, 2);
        let mut ab = ps[i].0.as_str().as_bytes_vec();
        push_head(&mut out, 3, ab.len() as u64);
        out.append(&mut ab);
        push_head(&mut out, 5, 1);
        push_head(&mut out, 0, 1);
        encode_expr_into(&mut out, ps[i].1.expression());
        proof {
            lemma_enc_pairs_take(s, i as int);
            assert(out@ =~= start + enc_pairs(s.take(i as int + 1)));
        }
        i = i + 1;
    }
    proof {
        assert(s.take(s.len() as int) =~= s);
        assert(out@ =~= enc_policy_list(s));
    }
    out
}

/// Reads one text item.
fn decode_text_at(b: &Vec<u8>, pos: usize) -> (r: Option<(String, usize)>)
    ensures
        match r {
            Some((t, end)) => dec_text(b@, pos as int) == Some((t@, end as int)) && pos < end
                <= b@.len(),
            None => dec_text(b@, pos as int) is None,
        },
{
    let (m, len, p) = match read_head(b, pos) {
        Some(h) => h,
        None => {
            return None;
        },
    };
    if m != 3 || len > (b.len() - p) as u64 {
        return None;
    }
    let lenu = len as usize;
    let bytes = vstd::slice::slice_to_vec(
        vstd::slice::slice_subrange(b.as_slice(), p, p + lenu),
    );
    match crate::strings::string_from_utf8(&bytes) {
        Some(t) => {
            proof {
                vstd::utf8::encode_utf8_decode_utf8(t@);
            }
            Some((t, p + lenu))
        },
        None => None,
    }
}

/// Reads one policy record, returning it with the position after it.
fn decode_policy_at(b: &Vec<u8>, pos: usize) -> (r: Option<(Expr, usize)>)
    ensures
        match r {
            Some((e, end)) => dec_policy_at(b@, pos as int) == Some((e@, end as int)) && pos
                < end <= b@.len(),
            None => dec_policy_at(b@, pos as int) is None,
        },
{
    let (m1, n1, p1) = match read_head(b, pos) {
        Some(h) => h,
        None => {
            return None;
        },
    };
    if m1 != 5 || n1 != 1 {
        return None;
    }
    let (m2, k, p2) = match read_head(b, p1) {
        Some(h) => h,
        None => {
            return None;
        },
    };
    if m2 != 0 || k != 1 {
        return None;
    }
    decode_expr_at(b, p2)
}

/// Reads `cnt` pairs in a row.
fn decode_pairs_at(b: &Vec<u8>, pos: usize, cnt: u64) -> (r: Option<
    (Vec<(crate::types::Action, Policy)>, usize),
>)
    ensures
        match r {
            Some((pairs, end)) => dec_pairs(b@, pos as int, cnt as nat) == Some(
                (
                    Seq::new(pairs@.len(), |i: int| (pairs@[i].0@, pairs@[i].1@)),
                    end as int,
                ),
            ) && pos <= end && (pos <= b@.len() ==> end <= b@.len()) && pairs@.len() == cnt,
            None => dec_pairs(b@, pos as int, cnt as nat) is None,
        },
    decreases b@.len() - pos, cnt,
{
    if cnt == 0 {
        let empty: Vec<(crate::types::Action, Policy)> = Vec::new();
        proof {
            assert(Seq::new(empty@.len(), |i: int| (empty@[i].0@, empty@[i].1@))
                =~= Seq::<(Seq<char>, ExprS)>::empty());
        }
        return Some((empty, pos));
    }
    if pos >= b.len() {
        return None;
    }
    let (m, n, p1) = match read_head(b, pos) {
        Some(h) => h,
        None => {
            return None;
        },
    };
    if m != 4 || n != 2 {
        return None;
    }
    let (a, p2) = match decode_text_at(b, p1) {
        Some(x) => x,
        None => {
            return None;
        },
    };
    let (e, p3) = match decode_policy_at(b, p2) {
        Some(x) => x,
        None => {
            return None;
        },
    };
    proof {
        assert(clamp_after(p3 as int, pos as int, b@.len() as int) == p3 as int);
    }
    match decode_pairs_at(b, p3, cnt - 1) {
        Some((rest, p4)) => {
            let mut out: Vec<(crate::types::Action, Policy)> = Vec::new();
            out.push((crate::types::Action::from_raw(a), Policy::new(e)));
            let mut tail = rest;
            out.append(&mut tail);
            proof {
                let ghost view_out = Seq::new(out@.len(), |i: int| (out@[i].0@, out@[i].1@));
                let ghost view_rest = Seq::new(
                    tail@.len(),
                    |i: int| (tail@[i].0@, tail@[i].1@),
                );
                assert(view_out =~= seq![(out@[0].0@, out@[0].1@)] + Seq::new(
                    rest@.len(),
                    |i: int| (rest@[i].0@, rest@[i].1@),
                )) by {
                    assert(forall|i: int| 0 <= i < rest@.len() ==> out@[i + 1] == rest@[i]);
                }
            }
            Some((out, p4))
        },
        None => None,
    }
}

/// Reads a whole policy-listing buffer: the map `{1: array of pairs}`
/// and nothing after it. Together with the round-trip law, decoding
/// what `encode_policy_list` wrote gives an equal listing back.
pub fn decode_policy_list(b: &Vec<u8>) -> (r: Option<PolicyList>)
    ensures
        match r {
            Some(l) => dec_policy_list(b@) == Some(l@),
            None => dec_policy_list(b@) is None,
        },
{
    let (m1, n1, p1) = match read_head(b, 0) {
        Some(h) => h,
        None => {
            return None;
        },
    };
    if m1 != 5 || n1 != 1 {
        return None;
    }
    let (m2, k, p2) = match read_head(b, p1) {
        Some(h) => h,
        None => {
            return None;
        },
    };
    if m2 != 0 || k != 1 {
        return None;
    }
    let (m3, cnt, p3) = match read_head(b, p2) {
        Some(h) => h,
        None => {
            return None;
        },
    };
    if m3 != 4 || cnt > (b.len() - p3) as u64 {
        return None;
    }
    let (pairs, p4) = match decode_pairs_at(b, p3, cnt) {
        Some(x) => x,
        None => {
            return None;
        },
    };
    if p4 == b.len() {
        let l = PolicyList::new(pairs);
        proof {
            assert(l@ =~= Seq::new(l@.len(), |i: int| l@[i]));
        }
        Some(l)
    } else {
        None
    }
}

} // verus!
