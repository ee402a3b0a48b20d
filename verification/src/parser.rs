//! The s-expression surface syntax: parser and printer.
//!
//! The grammar is LL(1) over characters: an expression is an atom — a
//! string, a number, `true`, `false`, or a dotted identifier — or a
//! parenthesised application whose head is an identifier. Semicolon
//! starts a line comment; white space separates. `spec_parse` is the
//! mathematical definition; `parse` computes it. Printing an expression
//! and parsing it back gives the expression again: proved below.

use vstd::prelude::*;

verus! {

use crate::error::ParseErrorKind;
use crate::expr::Expr;
use crate::expr::ExprS;
use crate::strings::spec_is_whitespace;
use vstd::utf8::encode_utf8;

/// An operator symbol: the characters the built-in operator names are
/// made of, such as `=`, `<=`, `member?` and `-`.
pub open spec fn is_symbol_char(c: char) -> bool {
    c == '=' || c == '<' || c == '>' || c == '!' || c == '+' || c == '*' || c == '/' || c == '?'
        || c == '-'
}

/// What an identifier segment starts with: a letter, an underscore, or
/// an operator symbol. A minus directly before a digit reads as a
/// number instead.
pub open spec fn is_ident_start_char(c: char) -> bool {
    let u = c as u32;
    (0x41 <= u && u <= 0x5A) || (0x61 <= u && u <= 0x7A) || c == '_' || is_symbol_char(c)
}

/// A decimal digit.
pub open spec fn is_digit_char(c: char) -> bool {
    let u = c as u32;
    0x30 <= u && u <= 0x39
}

/// A character allowed after the first of a segment.
pub open spec fn is_ident_tail_char(c: char) -> bool {
    is_ident_start_char(c) || is_digit_char(c)
}

/// A character of an identifier token, dots included.
pub open spec fn is_ident_or_dot(c: char) -> bool {
    is_ident_tail_char(c) || c == '.'
}

/// A character that ends an adjacent token.
pub open spec fn is_delimiter(c: char) -> bool {
    spec_is_whitespace(c) || c == '(' || c == ')' || c == ';'
}

/// A dotted identifier: segments of word characters joined by single
/// dots, each segment starting with a letter or underscore.
pub open spec fn valid_dotted(s: Seq<char>) -> bool {
    &&& s.len() > 0
    &&& is_ident_start_char(s[0])
    &&& s[s.len() - 1] != '.'
    &&& forall|i: int| 0 <= i < s.len() ==> is_ident_or_dot(#[trigger] s[i])
    &&& forall|i: int| 0 <= i < s.len() - 1 ==> (#[trigger] s[i] == '.' ==> is_ident_start_char(
        s[i + 1],
    ))
}

/// The length of the UTF-8 encoding of the first `i` characters.
pub open spec fn raw_byte_pos(s: Seq<char>, i: int) -> int {
    encode_utf8(s.take(i)).len() as int
}

/// The byte offset of character position `i`: the length of the UTF-8
/// encoding of everything before it, clamped into the machine range.
/// Text that exists in memory is never clamped.
pub open spec fn byte_pos(s: Seq<char>, i: int) -> int {
    if raw_byte_pos(s, i) > usize::MAX {
        usize::MAX as int
    } else {
        raw_byte_pos(s, i)
    }
}

/// A parse error in the ghost world: its kind and byte offset.
pub type ParseErrS = (ParseErrorKind, int);

/// Clamps a scanner result into `(i, len]` so that recursion always
/// moves forward; everywhere parsing reaches, the clamp changes nothing.
pub open spec fn past(j: int, i: int, len: int) -> int {
    let q = if j > i {
        j
    } else {
        i + 1
    };
    if q > len {
        len
    } else {
        q
    }
}

/// Clamps a scanner result into `[i, len]`.
pub open spec fn at_least(j: int, i: int, len: int) -> int {
    if j < i {
        i
    } else if j > len {
        len
    } else {
        j
    }
}

/// The position after the next line break.
pub open spec fn skip_line(s: Seq<char>, i: int) -> int
    decreases s.len() - i,
{
    if i < 0 || i >= s.len() {
        s.len() as int
    } else if s[i] == '\n' {
        i + 1
    } else {
        skip_line(s, i + 1)
    }
}

/// The next position that holds neither white space nor a comment.
pub open spec fn skip_trivia(s: Seq<char>, i: int) -> int
    decreases s.len() - i,
{
    if i < 0 || i >= s.len() {
        s.len() as int
    } else if spec_is_whitespace(s[i]) {
        skip_trivia(s, i + 1)
    } else if s[i] == ';' {
        skip_trivia(s, past(skip_line(s, i), i, s.len() as int))
    } else {
        i
    }
}

/// The end of the identifier token starting at `i`.
pub open spec fn scan_ident(s: Seq<char>, i: int) -> int
    decreases s.len() - i,
{
    if i < 0 || i >= s.len() {
        s.len() as int
    } else if is_ident_or_dot(s[i]) {
        scan_ident(s, i + 1)
    } else {
        i
    }
}

/// The end of the digit run starting at `i`.
pub open spec fn scan_digits(s: Seq<char>, i: int) -> int
    decreases s.len() - i,
{
    if i < 0 || i >= s.len() {
        s.len() as int
    } else if is_digit_char(s[i]) {
        scan_digits(s, i + 1)
    } else {
        i
    }
}

/// The value of the digits in `s[i..j)`.
pub open spec fn digits_val(s: Seq<char>, i: int, j: int) -> int
    decreases j - i,
{
    if i >= j {
        0
    } else {
        digits_val(s, i, j - 1) * 10 + (s[j - 1] as u32 - 48)
    }
}

/// The body of a string literal from `i` on: its characters up to the
/// closing quote, and the position after that quote.
pub open spec fn scan_string(s: Seq<char>, i: int) -> Result<(Seq<char>, int), ParseErrS>
    decreases s.len() - i,
{
    if i < 0 {
        Err((ParseErrorKind::UnterminatedString, byte_pos(s, s.len() as int)))
    } else if i >= s.len() {
        Err((ParseErrorKind::UnterminatedString, byte_pos(s, s.len() as int)))
    } else if s[i] == '"' {
        Ok((Seq::empty(), i + 1))
    } else if s[i] == '\\' {
        if i + 1 >= s.len() {
            Err((ParseErrorKind::UnterminatedString, byte_pos(s, s.len() as int)))
        } else {
            let c = s[i + 1];
            let decoded: Option<char> = if c == '"' {
                Some('"')
            } else if c == '\\' {
                Some('\\')
            } else if c == 'n' {
                Some('\n')
            } else if c == 't' {
                Some('\t')
            } else if c == 'r' {
                Some('\r')
            } else {
                None
            };
            match decoded {
                Option::None => Err((ParseErrorKind::InvalidEscape, byte_pos(s, i + 1))),
                Option::Some(d) => match scan_string(s, i + 2) {
                    Ok((rest, j)) => Ok((seq![d] + rest, j)),
                    Err(e) => Err(e),
                },
            }
        }
    } else {
        match scan_string(s, i + 1) {
            Ok((rest, j)) => Ok((seq![s[i]] + rest, j)),
            Err(e) => Err(e),
        }
    }
}

/// A numeric literal at `i`: an optional minus, digits, and a following
/// delimiter; its value must fit a signed 64-bit integer.
pub open spec fn spec_parse_number(s: Seq<char>, i: int) -> Result<(ExprS, int), ParseErrS> {
    let neg = s[i] == '-';
    let d0 = if neg {
        i + 1
    } else {
        i
    };
    if d0 >= s.len() || !is_digit_char(s[d0]) {
        Err((ParseErrorKind::InvalidNumber, byte_pos(s, i)))
    } else {
        let j = scan_digits(s, d0);
        if j < s.len() && !is_delimiter(s[j]) {
            Err((ParseErrorKind::InvalidNumber, byte_pos(s, j)))
        } else {
            let v = digits_val(s, d0, j);
            let sv = if neg {
                -v
            } else {
                v
            };
            if sv < i64::MIN || sv > i64::MAX {
                Err((ParseErrorKind::InvalidNumber, byte_pos(s, i)))
            } else {
                Ok((ExprS::Int(sv), j))
            }
        }
    }
}

/// The expression starting exactly at `i`, with the position after it.
pub open spec fn spec_parse_expr(s: Seq<char>, i: int) -> Result<(ExprS, int), ParseErrS>
    decreases s.len() - i, 1int,
{
    if i < 0 || i >= s.len() {
        Err((ParseErrorKind::UnexpectedEof, byte_pos(s, s.len() as int)))
    } else {
        let c = s[i];
        if c == '(' {
            let j = past(skip_trivia(s, i + 1), i, s.len() as int);
            if j >= s.len() {
                Err((ParseErrorKind::UnexpectedEof, byte_pos(s, s.len() as int)))
            } else if s[j] == ')' {
                Err((ParseErrorKind::EmptyList, byte_pos(s, j)))
            } else if !is_ident_start_char(s[j]) {
                Err((ParseErrorKind::UnexpectedChar, byte_pos(s, j)))
            } else {
                let k = at_least(scan_ident(s, j), j, s.len() as int);
                let name = s.subrange(j, k);
                if !valid_dotted(name) {
                    Err((ParseErrorKind::UnexpectedChar, byte_pos(s, j)))
                } else {
                    match spec_parse_args(s, past(k, i, s.len() as int)) {
                        Ok((args, m)) => Ok(
                            (ExprS::List(Box::new(ExprS::Ident(name)), args), m),
                        ),
                        Err(e) => Err(e),
                    }
                }
            }
        } else if c == ')' {
            Err((ParseErrorKind::Unbalanced, byte_pos(s, i)))
        } else if c == '"' {
            match scan_string(s, i + 1) {
                Ok((chars, j)) => Ok((ExprS::Str(chars), j)),
                Err(e) => Err(e),
            }
        } else if (c == '-' && i + 1 < s.len() && is_digit_char(s[i + 1])) || is_digit_char(c) {
            spec_parse_number(s, i)
        } else if is_ident_start_char(c) {
            let k = at_least(scan_ident(s, i), i, s.len() as int);
            let name = s.subrange(i, k);
            if name == "true"@ {
                Ok((ExprS::Bool(true), k))
            } else if name == "false"@ {
                Ok((ExprS::Bool(false), k))
            } else if valid_dotted(name) {
                Ok((ExprS::Ident(name), k))
            } else {
                Err((ParseErrorKind::UnexpectedChar, byte_pos(s, i)))
            }
        } else {
            Err((ParseErrorKind::UnexpectedChar, byte_pos(s, i)))
        }
    }
}

/// The arguments of an application from `i` to the closing parenthesis,
/// with the position after that parenthesis.
pub open spec fn spec_parse_args(s: Seq<char>, i: int) -> Result<(Seq<ExprS>, int), ParseErrS>
    decreases s.len() - i, 2int,
{
    let j = at_least(skip_trivia(s, i), i, s.len() as int);
    if j >= s.len() {
        Err((ParseErrorKind::UnexpectedEof, byte_pos(s, s.len() as int)))
    } else if s[j] == ')' {
        Ok((Seq::empty(), j + 1))
    } else {
        match spec_parse_expr(s, j) {
            Ok((e, k)) => match spec_parse_args(s, past(k, j, s.len() as int)) {
                Ok((rest, m)) => Ok((seq![e] + rest, m)),
                Err(er) => Err(er),
            },
            Err(er) => Err(er),
        }
    }
}

/// The whole input: nothing but trivia gives `None`; one expression
/// followed by trivia gives it; anything more is unbalanced.
pub open spec fn spec_parse(s: Seq<char>) -> Result<Option<ExprS>, ParseErrS> {
    let j = at_least(skip_trivia(s, 0), 0, s.len() as int);
    if j >= s.len() {
        Ok(None)
    } else {
        match spec_parse_expr(s, j) {
            Ok((e, k)) => {
                let m = at_least(skip_trivia(s, k), k, s.len() as int);
                if m >= s.len() {
                    Ok(Some(e))
                } else {
                    Err((ParseErrorKind::Unbalanced, byte_pos(s, m)))
                }
            },
            Err(er) => Err(er),
        }
    }
}

/// A string literal body with `"` and `\\` escaped.
pub open spec fn escape(s: Seq<char>) -> Seq<char>
    decreases s.len(),
{
    if s.len() == 0 {
        Seq::empty()
    } else {
        let head: Seq<char> = if s[0] == '"' {
            seq!['\\', '"']
        } else if s[0] == '\\' {
            seq!['\\', '\\']
        } else {
            seq![s[0]]
        };
        head + escape(s.drop_first())
    }
}

/// The digit character of `d`.
pub open spec fn digit_char(d: int) -> char {
    ((48 + d) as u8) as char
}

/// The decimal digits of a non-negative number.
pub open spec fn print_nat(n: int) -> Seq<char>
    decreases n,
{
    if n < 10 {
        seq![digit_char(if n >= 0 {
            n
        } else {
            0
        })]
    } else {
        print_nat(n / 10).push(digit_char(n % 10))
    }
}

/// The decimal text of a signed number.
pub open spec fn print_int(i: int) -> Seq<char> {
    if i < 0 {
        seq!['-'] + print_nat(-i)
    } else {
        print_nat(i)
    }
}

/// The source text of an expression.
pub open spec fn spec_print(e: ExprS) -> Seq<char>
    decreases e, 1int,
{
    match e {
        ExprS::Str(s) => seq!['"'] + escape(s) + seq!['"'],
        ExprS::Int(i) => print_int(i),
        ExprS::Bool(b) => if b {
            "true"@
        } else {
            "false"@
        },
        ExprS::Ident(s) => s,
        ExprS::Sequence(items) => seq!['('] + "list"@ + print_args(items) + seq![')'],
        ExprS::List(h, args) => seq!['('] + spec_print(*h) + print_args(args) + seq![')'],
    }
}

/// The printed arguments, each preceded by one space.
pub open spec fn print_args(items: Seq<ExprS>) -> Seq<char>
    decreases items, 0int,
{
    if items.len() == 0 {
        Seq::empty()
    } else {
        seq![' '] + spec_print(items[0]) + print_args(items.drop_first())
    }
}

/// An expression whose printed text parses back to it: integers in
/// 64-bit range, identifiers dotted and distinct from the boolean
/// keywords, application heads identifiers, and no literal sequence
/// node, whose printed list form reads back as an application.
pub open spec fn wf_source(e: ExprS) -> bool
    decreases e, 1int,
{
    match e {
        ExprS::Str(_) => true,
        ExprS::Int(i) => i64::MIN <= i <= i64::MAX,
        ExprS::Bool(_) => true,
        ExprS::Ident(s) => valid_dotted(s) && s != "true"@ && s != "false"@ && !(s[0] == '-'
            && s.len() > 1 && is_digit_char(s[1])),
        ExprS::Sequence(_) => false,
        ExprS::List(h, args) => (*h matches ExprS::Ident(n) && valid_dotted(n)) && wf_source_args(
            args,
        ),
    }
}

/// `wf_source`, over every element.
pub open spec fn wf_source_args(items: Seq<ExprS>) -> bool
    decreases items, 0int,
{
    forall|i: int| 0 <= i < items.len() ==> wf_source(#[trigger] items[i])
}

/// `skip_line` lands in `(i, len]`.
pub proof fn lemma_skip_line_range(s: Seq<char>, i: int)
    requires
        0 <= i <= s.len(),
    ensures
        i < skip_line(s, i) <= s.len() || skip_line(s, i) == s.len(),
        i <= skip_line(s, i) <= s.len() || skip_line(s, i) == s.len(),
    decreases s.len() - i,
{
    if 0 <= i && i < s.len() && s[i] != '\n' {
        lemma_skip_line_range(s, i + 1);
    }
}

/// `skip_trivia` lands in `[i, len]` and on a non-trivia character.
pub proof fn lemma_skip_trivia_range(s: Seq<char>, i: int)
    requires
        0 <= i <= s.len(),
    ensures
        i <= skip_trivia(s, i) <= s.len(),
        skip_trivia(s, i) < s.len() ==> !spec_is_whitespace(s[skip_trivia(s, i)]) && s[skip_trivia(
            s,
            i,
        )] != ';',
    decreases s.len() - i,
{
    if i < s.len() {
        if spec_is_whitespace(s[i]) {
            lemma_skip_trivia_range(s, i + 1);
        } else if s[i] == ';' {
            lemma_skip_trivia_range(s, past(skip_line(s, i), i, s.len() as int));
        }
    }
}

/// `scan_ident` lands in `[i, len]`, covers identifier characters, and
/// stops at the first other character.
pub proof fn lemma_scan_ident_range(s: Seq<char>, i: int)
    requires
        0 <= i <= s.len(),
    ensures
        i <= scan_ident(s, i) <= s.len(),
        forall|j: int| i <= j < scan_ident(s, i) ==> is_ident_or_dot(#[trigger] s[j]),
        scan_ident(s, i) < s.len() ==> !is_ident_or_dot(s[scan_ident(s, i)]),
    decreases s.len() - i,
{
    if i < s.len() && is_ident_or_dot(s[i]) {
        lemma_scan_ident_range(s, i + 1);
    }
}

/// `scan_digits` lands in `[i, len]`, covers digits, and stops at the
/// first non-digit.
pub proof fn lemma_scan_digits_range(s: Seq<char>, i: int)
    requires
        0 <= i <= s.len(),
    ensures
        i <= scan_digits(s, i) <= s.len(),
        forall|j: int| i <= j < scan_digits(s, i) ==> is_digit_char(#[trigger] s[j]),
        scan_digits(s, i) < s.len() ==> !is_digit_char(s[scan_digits(s, i)]),
    decreases s.len() - i,
{
    if i < s.len() && is_digit_char(s[i]) {
        lemma_scan_digits_range(s, i + 1);
    }
}

/// The digits of a digit run have a non-negative value.
pub proof fn lemma_digits_val_nonneg(s: Seq<char>, i: int, k: int)
    requires
        forall|m: int| i <= m < k ==> is_digit_char(#[trigger] s[m]),
    ensures
        0 <= digits_val(s, i, k),
    decreases k - i,
{
    if k > i {
        lemma_digits_val_nonneg(s, i, k - 1);
    }
}

/// A longer digit run has a value at least as large.
pub proof fn lemma_digits_val_mono(s: Seq<char>, i: int, k: int, j: int)
    requires
        i <= k <= j,
        forall|m: int| i <= m < j ==> is_digit_char(#[trigger] s[m]),
    ensures
        digits_val(s, i, k) <= digits_val(s, i, j),
    decreases j - k,
{
    if j > k {
        lemma_digits_val_mono(s, i, k, j - 1);
        lemma_digits_val_nonneg(s, i, j - 1);
    }
}

/// Appending one character appends its encoding.
pub proof fn lemma_encode_utf8_snoc(s: Seq<char>, c: char)
    ensures
        encode_utf8(s.push(c)) == encode_utf8(s) + vstd::utf8::encode_scalar(c as u32),
    decreases s.len(),
{
    if s.len() == 0 {
        assert(s.push(c)[0] == c);
        assert(s.push(c).drop_first() =~= Seq::<char>::empty());
        assert(s =~= Seq::<char>::empty());
        assert(encode_utf8(Seq::<char>::empty()) =~= Seq::<u8>::empty());
        assert(encode_utf8(s.push(c)) =~= encode_utf8(s) + vstd::utf8::encode_scalar(c as u32));
    } else {
        assert(s.push(c)[0] == s[0]);
        assert(s.push(c).drop_first() =~= s.drop_first().push(c));
        lemma_encode_utf8_snoc(s.drop_first(), c);
        assert(encode_utf8(s.push(c)) =~= encode_utf8(s) + vstd::utf8::encode_scalar(c as u32));
    }
}

/// One character on: the byte offset grows by that character's width.
pub proof fn lemma_byte_pos_step(s: Seq<char>, i: int)
    requires
        0 <= i < s.len(),
    ensures
        raw_byte_pos(s, i + 1) == raw_byte_pos(s, i) + vstd::utf8::encode_scalar(
            s[i] as u32,
        ).len(),
{
    assert(s.take(i + 1) =~= s.take(i).push(s[i]));
    lemma_encode_utf8_snoc(s.take(i), s[i]);
}

/// Decides `is_symbol_char`.
fn symbol_char(c: char) -> (r: bool)
    ensures
        r == is_symbol_char(c),
{
    c == '=' || c == '<' || c == '>' || c == '!' || c == '+' || c == '*' || c == '/' || c == '?'
        || c == '-'
}

/// Decides `is_ident_start_char`.
fn ident_start(c: char) -> (r: bool)
    ensures
        r == is_ident_start_char(c),
{
    let u = c as u32;
    (0x41 <= u && u <= 0x5A) || (0x61 <= u && u <= 0x7A) || c == '_' || symbol_char(c)
}

/// The width of one character's UTF-8 encoding.
fn char_len(c: char) -> (r: usize)
    ensures
        r == vstd::utf8::encode_scalar(c as u32).len(),
        1 <= r <= 4,
{
    let u = c as u32;
    proof {
        vstd::utf8::char_is_scalar(c);
    }
    if u < 0x80 {
        1
    } else if u < 0x800 {
        2
    } else if u < 0x10000 {
        3
    } else {
        4
    }
}

/// The byte offset of character position `i`.
fn byte_of(v: &Vec<char>, i: usize) -> (r: usize)
    requires
        i <= v@.len(),
    ensures
        r as int == byte_pos(v@, i as int),
{
    let mut b: usize = 0;
    let mut j: usize = 0;
    proof {
        assert(v@.take(0) =~= Seq::<char>::empty());
    }
    while j < i
        invariant
            j <= i <= v@.len(),
            b as int == byte_pos(v@, j as int),
        decreases i - j,
    {
        proof {
            lemma_byte_pos_step(v@, j as int);
        }
        let w = char_len(v[j]);
        b = b.saturating_add(w);
        j = j + 1;
    }
    b
}

/// Computes `skip_trivia`.
fn skip_trivia_exec(v: &Vec<char>, i: usize) -> (r: usize)
    requires
        i <= v@.len(),
    ensures
        r as int == skip_trivia(v@, i as int),
        i <= r <= v@.len(),
{
    let mut cur = i;
    loop
        invariant
            i <= cur <= v@.len(),
            skip_trivia(v@, i as int) == skip_trivia(v@, cur as int),
        decreases v@.len() - cur,
    {
        if cur >= v.len() {
            return cur;
        }
        let c = v[cur];
        if crate::strings::is_whitespace_char(c) {
            cur = cur + 1;
        } else if c == ';' {
            proof {
                lemma_skip_line_range(v@, cur as int);
            }
            let mut j = cur;
            while j < v.len() && v[j] != '\n'
                invariant
                    cur <= j <= v@.len(),
                    skip_line(v@, cur as int) == skip_line(v@, j as int),
                decreases v@.len() - j,
            {
                j = j + 1;
            }
            let next = if j < v.len() {
                j + 1
            } else {
                j
            };
            proof {
                assert(skip_line(v@, j as int) == next);
                assert(past(skip_line(v@, cur as int), cur as int, v@.len() as int)
                    == next as int);
            }
            cur = next;
        } else {
            return cur;
        }
    }
}

/// Computes `scan_ident`.
fn scan_ident_exec(v: &Vec<char>, i: usize) -> (r: usize)
    requires
        i <= v@.len(),
    ensures
        r as int == scan_ident(v@, i as int),
        i <= r <= v@.len(),
{
    let mut cur = i;
    loop
        invariant
            i <= cur <= v@.len(),
            scan_ident(v@, i as int) == scan_ident(v@, cur as int),
        decreases v@.len() - cur,
    {
        if cur >= v.len() {
            return cur;
        }
        let c = v[cur];
        let u = c as u32;
        let word = (0x41 <= u && u <= 0x5A) || (0x61 <= u && u <= 0x7A) || c == '_' || (0x30 <= u
            && u <= 0x39) || c == '.' || symbol_char(c);
        if word {
            cur = cur + 1;
        } else {
            return cur;
        }
    }
}

/// Computes `scan_digits`.
fn scan_digits_exec(v: &Vec<char>, i: usize) -> (r: usize)
    requires
        i <= v@.len(),
    ensures
        r as int == scan_digits(v@, i as int),
        i <= r <= v@.len(),
{
    let mut cur = i;
    loop
        invariant
            i <= cur <= v@.len(),
            scan_digits(v@, i as int) == scan_digits(v@, cur as int),
        decreases v@.len() - cur,
    {
        if cur >= v.len() {
            return cur;
        }
        let u = v[cur] as u32;
        if 0x30 <= u && u <= 0x39 {
            cur = cur + 1;
        } else {
            return cur;
        }
    }
}

/// An exec parse error.
fn mk_err(v: &Vec<char>, kind: ParseErrorKind, i: usize) -> (r: crate::error::ParseError)
    requires
        i <= v@.len(),
    ensures
        r.kind == kind,
        r.position as int == byte_pos(v@, i as int),
{
    crate::error::ParseError { kind, position: byte_of(v, i) }
}

/// Computes `scan_string`, collecting the literal's characters.
fn scan_string_exec(v: &Vec<char>, i: usize) -> (r: Result<(Vec<char>, usize), crate::error::ParseError>)
    requires
        i <= v@.len(),
    ensures
        match r {
            Ok((chars, end)) => scan_string(v@, i as int) == Result::<
                (Seq<char>, int),
                ParseErrS,
            >::Ok((chars@, end as int)) && i < end <= v@.len(),
            Err(pe) => scan_string(v@, i as int) == Result::<(Seq<char>, int), ParseErrS>::Err(
                (pe.kind, pe.position as int),
            ),
        },
{
    let mut out: Vec<char> = Vec::new();
    let mut cur = i;
    loop
        invariant
            i <= cur <= v@.len(),
            scan_string(v@, i as int) == match scan_string(v@, cur as int) {
                Result::<(Seq<char>, int), ParseErrS>::Ok((rest, j)) => Result::<
                    (Seq<char>, int),
                    ParseErrS,
                >::Ok((out@ + rest, j)),
                Result::<(Seq<char>, int), ParseErrS>::Err(e) => Result::<
                    (Seq<char>, int),
                    ParseErrS,
                >::Err(e),
            },
        decreases v@.len() - cur,
    {
        if cur >= v.len() {
            return Err(mk_err(v, ParseErrorKind::UnterminatedString, v.len()));
        }
        let c = v[cur];
        if c == '"' {
            proof {
                assert(out@ + Seq::<char>::empty() =~= out@);
            }
            return Ok((out, cur + 1));
        }
        if c == '\\' {
            if cur + 1 >= v.len() {
                return Err(mk_err(v, ParseErrorKind::UnterminatedString, v.len()));
            }
            let e = v[cur + 1];
            let decoded: Option<char> = if e == '"' {
                Some('"')
            } else if e == '\\' {
                Some('\\')
            } else if e == 'n' {
                Some('\n')
            } else if e == 't' {
                Some('\t')
            } else if e == 'r' {
                Some('\r')
            } else {
                None
            };
            match decoded {
                Some(d) => {
                    let ghost oldout = out@;
                    out.push(d);
                    proof {
                        assert forall|rest: Seq<char>| true implies (oldout + (seq![d] + rest))
                            =~= (out@ + rest) by {}
                    }
                    cur = cur + 2;
                },
                None => {
                    return Err(mk_err(v, ParseErrorKind::InvalidEscape, cur + 1));
                },
            }
        } else {
            let ghost oldout = out@;
            out.push(c);
            proof {
                assert forall|rest: Seq<char>| true implies (oldout + (seq![c] + rest)) =~= (
                out@ + rest) by {}
            }
            cur = cur + 1;
        }
    }
}

/// Computes `spec_parse_number`.
fn parse_number_exec(v: &Vec<char>, i: usize) -> (r: Result<(Expr, usize), crate::error::ParseError>)
    requires
        i < v@.len(),
        v@[i as int] == '-' || is_digit_char(v@[i as int]),
    ensures
        match r {
            Ok((e, end)) => spec_parse_number(v@, i as int) == Result::<
                (ExprS, int),
                ParseErrS,
            >::Ok((e@, end as int)) && i < end <= v@.len(),
            Err(pe) => spec_parse_number(v@, i as int) == Result::<(ExprS, int), ParseErrS>::Err(
                (pe.kind, pe.position as int),
            ),
        },
{
    let n = v.len();
    let neg = v[i] == '-';
    let d0 = if neg {
        proof {
            assert(i < n);
        }
        i + 1
    } else {
        i
    };
    if d0 >= v.len() {
        return Err(mk_err(v, ParseErrorKind::InvalidNumber, i));
    }
    let u0 = v[d0] as u32;
    if !(0x30 <= u0 && u0 <= 0x39) {
        return Err(mk_err(v, ParseErrorKind::InvalidNumber, i));
    }
    let j = scan_digits_exec(v, d0);
    proof {
        lemma_scan_digits_range(v@, d0 as int);
    }
    if j < v.len() {
        let c = v[j];
        let delim = crate::strings::is_whitespace_char(c) || c == '(' || c == ')' || c == ';';
        if !delim {
            return Err(mk_err(v, ParseErrorKind::InvalidNumber, j));
        }
    }
    let mut acc: u64 = 0;
    let mut k = d0;
    while k < j
        invariant
            i < v@.len(),
            d0 <= k <= j <= v@.len(),
            i <= d0,
            j as int == scan_digits(v@, d0 as int),
            forall|m: int| d0 <= m < j ==> is_digit_char(#[trigger] v@[m]),
            acc as int == digits_val(v@, d0 as int, k as int),
            acc as int <= 0x8000_0000_0000_0000,
            neg == (v@[i as int] == '-'),
            d0 as int == if neg {
                i + 1
            } else {
                i as int
            },
            d0 < v@.len() && is_digit_char(v@[d0 as int]),
            j < v@.len() ==> is_delimiter(v@[j as int]),
        decreases j - k,
    {
        proof {
            lemma_digits_val_nonneg(v@, d0 as int, k as int);
            assert(is_digit_char(v@[k as int]));
        }
        let d = (v[k] as u32 - 48) as u64;
        proof {
            assert(d <= 9);
            assert(digits_val(v@, d0 as int, k as int + 1) == acc as int * 10 + (d as int));
        }
        if acc > 922337203685477580 || (acc == 922337203685477580 && d > 8) {
            proof {
                lemma_digits_val_mono(v@, d0 as int, k as int + 1, j as int);
                assert(digits_val(v@, d0 as int, k as int + 1) > i64::MAX + 1);
            }
            return Err(mk_err(v, ParseErrorKind::InvalidNumber, i));
        }
        acc = acc * 10 + d;
        k = k + 1;
    }
    proof {
        lemma_digits_val_nonneg(v@, d0 as int, j as int);
    }
    if neg {
        if acc > 0x8000_0000_0000_0000 {
            return Err(mk_err(v, ParseErrorKind::InvalidNumber, i));
        }
        let value: i64 = if acc == 0x8000_0000_0000_0000 {
            i64::MIN
        } else {
            -(acc as i64)
        };
        Ok((Expr::Int(value), j))
    } else {
        if acc > 0x7FFF_FFFF_FFFF_FFFF {
            return Err(mk_err(v, ParseErrorKind::InvalidNumber, i));
        }
        Ok((Expr::Int(acc as i64), j))
    }
}

/// Computes `spec_parse_expr`.
fn parse_expr_at(v: &Vec<char>, i: usize) -> (r: Result<(Expr, usize), crate::error::ParseError>)
    requires
        i <= v@.len(),
    ensures
        match r {
            Ok((e, end)) => spec_parse_expr(v@, i as int) == Result::<
                (ExprS, int),
                ParseErrS,
            >::Ok((e@, end as int)) && i < end <= v@.len(),
            Err(pe) => spec_parse_expr(v@, i as int) == Result::<(ExprS, int), ParseErrS>::Err(
                (pe.kind, pe.position as int),
            ),
        },
    decreases v@.len() - i, 1int,
{
    if i >= v.len() {
        return Err(mk_err(v, ParseErrorKind::UnexpectedEof, v.len()));
    }
    let c = v[i];
    if c == '(' {
        let j = skip_trivia_exec(v, i + 1);
        proof {
            assert(past(skip_trivia(v@, i as int + 1), i as int, v@.len() as int) == j as int);
        }
        if j >= v.len() {
            return Err(mk_err(v, ParseErrorKind::UnexpectedEof, v.len()));
        }
        if v[j] == ')' {
            return Err(mk_err(v, ParseErrorKind::EmptyList, j));
        }
        if !ident_start(v[j]) {
            return Err(mk_err(v, ParseErrorKind::UnexpectedChar, j));
        }
        let k = scan_ident_exec(v, j);
        proof {
            lemma_scan_ident_range(v@, j as int);
            assert(at_least(scan_ident(v@, j as int), j as int, v@.len() as int) == k as int);
            if k as int == j as int {
                assert(!is_ident_or_dot(v@[j as int]));
            }
            assert(k > j);
        }
        let name = crate::strings::string_of_range(v, j, k);
        if !valid_dotted_exec(v, j, k) {
            return Err(mk_err(v, ParseErrorKind::UnexpectedChar, j));
        }
        proof {
            assert(past(k as int, i as int, v@.len() as int) == k as int);
        }
        match parse_args_at(v, k) {
            Ok((args, m)) => {
                let result = Expr::List(Box::new(Expr::Ident(name)), args);
                proof {
                    if let Expr::List(bh, aa) = &result {
                        assert(result@ == ExprS::List(
                            Box::new((**bh).deep()),
                            crate::expr::deep_seq(aa@),
                        ));
                        assert((**bh).deep() == ExprS::Ident(name@));
                    }
                }
                Ok((result, m))
            },
            Err(pe) => Err(pe),
        }
    } else if c == ')' {
        Err(mk_err(v, ParseErrorKind::Unbalanced, i))
    } else if c == '"' {
        match scan_string_exec(v, i + 1) {
            Ok((chars, j)) => {
                let s = crate::strings::string_from_chars(&chars);
                Ok((Expr::Str(s), j))
            },
            Err(pe) => Err(pe),
        }
    } else if (c == '-' && i + 1 < v.len() && {
        let u2 = v[i + 1] as u32;
        0x30 <= u2 && u2 <= 0x39
    }) || (0x30 <= (c as u32) && (c as u32) <= 0x39) {
        parse_number_exec(v, i)
    } else {
        if !ident_start(c) {
            return Err(mk_err(v, ParseErrorKind::UnexpectedChar, i));
        }
        let k = scan_ident_exec(v, i);
        proof {
            lemma_scan_ident_range(v@, i as int);
            assert(at_least(scan_ident(v@, i as int), i as int, v@.len() as int) == k as int);
            if k as int == i as int {
                assert(!is_ident_or_dot(v@[i as int]));
            }
            assert(k > i);
        }
        let name = crate::strings::string_of_range(v, i, k);
        if crate::strings::str_eq(name.as_str(), "true") {
            return Ok((Expr::Bool(true), k));
        }
        if crate::strings::str_eq(name.as_str(), "false") {
            return Ok((Expr::Bool(false), k));
        }
        if valid_dotted_exec(v, i, k) {
            Ok((Expr::Ident(name), k))
        } else {
            Err(mk_err(v, ParseErrorKind::UnexpectedChar, i))
        }
    }
}

/// Decides `valid_dotted` of `v[i..j)`.
fn valid_dotted_exec(v: &Vec<char>, i: usize, j: usize) -> (r: bool)
    requires
        i <= j <= v@.len(),
    ensures
        r == valid_dotted(v@.subrange(i as int, j as int)),
{
    let ghost name = v@.subrange(i as int, j as int);
    if i == j {
        return false;
    }
    if !ident_start(v[i]) {
        proof {
            assert(name[0] == v@[i as int]);
        }
        return false;
    }
    if v[j - 1] == '.' {
        proof {
            assert(name[name.len() - 1] == v@[j as int - 1]);
        }
        return false;
    }
    let mut k = i;
    while k < j
        invariant
            i <= k <= j <= v@.len(),
            name == v@.subrange(i as int, j as int),
            forall|m: int| 0 <= m < k - i ==> is_ident_or_dot(#[trigger] name[m]),
            forall|m: int|
                0 <= m < k - i ==> (#[trigger] name[m] == '.' && m < name.len() - 1
                    ==> is_ident_start_char(name[m + 1])),
        decreases j - k,
    {
        let c = v[k];
        let u = c as u32;
        let word = (0x41 <= u && u <= 0x5A) || (0x61 <= u && u <= 0x7A) || c == '_' || (0x30 <= u
            && u <= 0x39) || symbol_char(c);
        proof {
            assert(name[k - i] == v@[k as int]);
        }
        if c == '.' {
            if k + 1 < j {
                let d = v[k + 1];
                if !ident_start(d) {
                    proof {
                        assert(name[k - i + 1] == v@[k as int + 1]);
                    }
                    return false;
                }
                proof {
                    assert(name[k - i + 1] == v@[k as int + 1]);
                }
            }
        } else if !word {
            return false;
        }
        k = k + 1;
    }
    proof {
        assert(name[0] == v@[i as int]);
        assert(name[name.len() - 1] == v@[j as int - 1]);
    }
    true
}

/// Computes `spec_parse_args`.
fn parse_args_at(v: &Vec<char>, i: usize) -> (r: Result<(Vec<Expr>, usize), crate::error::ParseError>)
    requires
        i <= v@.len(),
    ensures
        match r {
            Ok((args, end)) => spec_parse_args(v@, i as int) == Result::<
                (Seq<ExprS>, int),
                ParseErrS,
            >::Ok((crate::expr::deep_seq(args@), end as int)) && i < end <= v@.len(),
            Err(pe) => spec_parse_args(v@, i as int) == Result::<
                (Seq<ExprS>, int),
                ParseErrS,
            >::Err((pe.kind, pe.position as int)),
        },
    decreases v@.len() - i, 2int,
{
    let j = skip_trivia_exec(v, i);
    proof {
        assert(at_least(skip_trivia(v@, i as int), i as int, v@.len() as int) == j as int);
    }
    if j >= v.len() {
        return Err(mk_err(v, ParseErrorKind::UnexpectedEof, v.len()));
    }
    if v[j] == ')' {
        let empty: Vec<Expr> = Vec::new();
        proof {
            assert(crate::expr::deep_seq(empty@) =~= Seq::<ExprS>::empty());
        }
        return Ok((empty, j + 1));
    }
    let (e, k) = match parse_expr_at(v, j) {
        Ok(x) => x,
        Err(pe) => {
            return Err(pe);
        },
    };
    proof {
        assert(past(k as int, j as int, v@.len() as int) == k as int);
    }
    match parse_args_at(v, k) {
        Ok((rest, m)) => {
            let mut out: Vec<Expr> = Vec::new();
            out.push(e);
            let mut tail = rest;
            out.append(&mut tail);
            proof {
                crate::expr::lemma_deep_seq(out@);
                let ghost restseq = out@.drop_first();
                assert(out@[0] == e);
                assert forall|q: int| 0 <= q < out@.len() implies crate::expr::deep_seq(
                    out@,
                )[q] == (seq![e@] + crate::expr::deep_seq(out@.drop_first()))[q] by {
                    crate::expr::lemma_deep_seq(out@.drop_first());
                    if q > 0 {
                        assert(out@.drop_first()[q - 1] == out@[q]);
                    }
                }
                crate::expr::lemma_deep_seq(out@.drop_first());
                assert(crate::expr::deep_seq(out@) =~= seq![e@] + crate::expr::deep_seq(
                    out@.drop_first(),
                ));
                assert(out@.drop_first() =~= rest@);
            }
            Ok((out, m))
        },
        Err(pe) => Err(pe),
    }
}

/// Parses policy source text.
///
/// Empty or comment-only text is `Ok(None)`; one expression followed by
/// nothing but trivia is `Ok(Some(_))`; anything else is an error whose
/// position is a byte offset into the text.
pub fn parse(text: &str) -> (r: Result<Option<Expr>, crate::error::ParseError>)
    ensures
        match r {
            Ok(Option::Some(e)) => spec_parse(text@) == Result::<
                Option<ExprS>,
                ParseErrS,
            >::Ok(Some(e@)),
            Ok(Option::None) => spec_parse(text@) == Result::<Option<ExprS>, ParseErrS>::Ok(
                Option::None,
            ),
            Err(pe) => spec_parse(text@) == Result::<Option<ExprS>, ParseErrS>::Err(
                (pe.kind, pe.position as int),
            ),
        },
{
    let v = crate::strings::chars_vec(text);
    let j = skip_trivia_exec(&v, 0);
    proof {
        assert(at_least(skip_trivia(v@, 0), 0, v@.len() as int) == j as int);
    }
    if j >= v.len() {
        return Ok(None);
    }
    match parse_expr_at(&v, j) {
        Ok((e, k)) => {
            let m = skip_trivia_exec(&v, k);
            proof {
                assert(at_least(skip_trivia(v@, k as int), k as int, v@.len() as int)
                    == m as int);
            }
            if m >= v.len() {
                Ok(Some(e))
            } else {
                Err(mk_err(&v, ParseErrorKind::Unbalanced, m))
            }
        },
        Err(pe) => Err(pe),
    }
}

/// Appends the decimal digits of `n`.
fn push_nat(out: &mut Vec<char>, n: u64)
    ensures
        final(out)@ == old(out)@ + print_nat(n as int),
    decreases n,
{
    if n < 10 {
        let d = ((48 + n as u8)) as char;
        out.push(d);
        proof {
            assert(final(out)@ =~= old(out)@ + print_nat(n as int));
        }
    } else {
        push_nat(out, n / 10);
        let d = ((48 + (n % 10) as u8)) as char;
        out.push(d);
        proof {
            assert((n / 10) as int == (n as int) / 10 && (n % 10) as int == (n as int) % 10);
            assert(final(out)@ =~= old(out)@ + print_nat(n as int));
        }
    }
}

/// Appends the source text of an expression.
fn push_expr_text(out: &mut Vec<char>, e: &Expr)
    ensures
        final(out)@ == old(out)@ + spec_print(e@),
    decreases *e, 1int,
{
    match e {
        Expr::Str(s) => {
            out.push('"');
            let cs = crate::strings::chars_vec(s.as_str());
            let ghost body = cs@;
            let mut i: usize = 0;
            proof {
                assert(body.skip(0) =~= body);
            }
            while i < cs.len()
                invariant
                    i <= body.len(),
                    body == cs@,
                    old(out)@ + seq!['"'] + escape(body) == out@ + escape(body.skip(i as int)),
                decreases body.len() - i,
            {
                let c = cs[i];
                proof {
                    assert(body.skip(i as int)[0] == body[i as int]);
                    assert(body.skip(i as int).drop_first() =~= body.skip(i as int + 1));
                }
                if c == '"' {
                    out.push('\\');
                    out.push('"');
                } else if c == '\\' {
                    out.push('\\');
                    out.push('\\');
                } else {
                    out.push(c);
                }
                proof {
                    assert(old(out)@ + seq!['"'] + escape(body) =~= out@ + escape(
                        body.skip(i as int + 1),
                    ));
                }
                i = i + 1;
            }
            out.push('"');
            proof {
                assert(escape(body.skip(body.len() as int)) =~= Seq::<char>::empty());
                assert(final(out)@ =~= old(out)@ + spec_print(e@));
            }
        },
        Expr::Int(v) => {
            let x = *v;
            if x < 0 {
                out.push('-');
                let m: u64 = ((-(x + 1)) as u64) + 1;
                push_nat(out, m);
                proof {
                    assert(m as int == -(x as int));
                    assert(final(out)@ =~= old(out)@ + spec_print(e@));
                }
            } else {
                push_nat(out, x as u64);
                proof {
                    assert(final(out)@ =~= old(out)@ + spec_print(e@));
                }
            }
        },
        Expr::Bool(b) => {
            let w = if *b {
                crate::strings::chars_vec("true")
            } else {
                crate::strings::chars_vec("false")
            };
            let mut ww = w;
            out.append(&mut ww);
            proof {
                assert(final(out)@ =~= old(out)@ + spec_print(e@));
            }
        },
        Expr::Ident(s) => {
            let mut cs = crate::strings::chars_vec(s.as_str());
            out.append(&mut cs);
            proof {
                assert(final(out)@ =~= old(out)@ + spec_print(e@));
            }
        },
        Expr::Sequence(items) => {
            out.push('(');
            let mut lw = crate::strings::chars_vec("list");
            out.append(&mut lw);
            push_args_text(out, items);
            out.push(')');
            proof {
                assert(final(out)@ =~= old(out)@ + spec_print(e@));
            }
        },
        Expr::List(h, args) => {
            out.push('(');
            push_expr_text(out, h);
            push_args_text(out, args);
            out.push(')');
            proof {
                assert(final(out)@ =~= old(out)@ + spec_print(e@));
            }
        },
    }
}

/// Appends the printed arguments, one space before each.
fn push_args_text(out: &mut Vec<char>, items: &Vec<Expr>)
    ensures
        final(out)@ == old(out)@ + print_args(crate::expr::deep_seq(items@)),
    decreases items@, 0int,
{
    let ghost s = crate::expr::deep_seq(items@);
    proof {
        crate::expr::lemma_deep_seq(items@);
        assert(s.skip(0) =~= s);
    }
    let mut i: usize = 0;
    while i < items.len()
        invariant
            s == crate::expr::deep_seq(items@),
            s.len() == items@.len(),
            forall|j: int| 0 <= j < items@.len() ==> s[j] == items@[j].deep(),
            i <= items@.len(),
            old(out)@ + print_args(s) == out@ + print_args(s.skip(i as int)),
        decreases items@.len() - i,
    {
        proof {
            assert(s.skip(i as int)[0] == s[i as int]);
            assert(s.skip(i as int).drop_first() =~= s.skip(i as int + 1));
        }
        out.push(' ');
        push_expr_text(out, &items[i]);
        proof {
            assert(old(out)@ + print_args(s) =~= out@ + print_args(s.skip(i as int + 1)));
        }
        i = i + 1;
    }
    proof {
        assert(print_args(s.skip(items@.len() as int)) =~= Seq::<char>::empty());
        assert(final(out)@ =~= old(out)@ + print_args(s));
    }
}

/// The source text of an expression. Parsing it gives the expression
/// back.
pub fn to_text(e: &Expr) -> (r: String)
    ensures
        r@ == spec_print(e@),
{
    let mut out: Vec<char> = Vec::new();
    push_expr_text(&mut out, e);
    proof {
        assert(Seq::<char>::empty() + spec_print(e@) =~= spec_print(e@));
    }
    crate::strings::string_from_chars(&out)
}

/// A scanner over a known identifier run stops exactly at its end.
proof fn lemma_scan_ident_of_run(s: Seq<char>, i: int, j: int)
    requires
        0 <= i <= j <= s.len(),
        forall|m: int| i <= m < j ==> is_ident_or_dot(#[trigger] s[m]),
        j == s.len() || !is_ident_or_dot(s[j]),
    ensures
        scan_ident(s, i) == j,
    decreases j - i,
{
    if i < j {
        lemma_scan_ident_of_run(s, i + 1, j);
    }
}

/// A scanner over a known digit run stops exactly at its end.
proof fn lemma_scan_digits_of_run(s: Seq<char>, i: int, j: int)
    requires
        0 <= i <= j <= s.len(),
        forall|m: int| i <= m < j ==> is_digit_char(#[trigger] s[m]),
        j == s.len() || !is_digit_char(s[j]),
    ensures
        scan_digits(s, i) == j,
    decreases j - i,
{
    if i < j {
        lemma_scan_digits_of_run(s, i + 1, j);
    }
}

/// The decimal digits of `n`: at least one character, all digits, and
/// reading them back gives `n`.
proof fn lemma_print_nat_facts(n: int)
    requires
        n >= 0,
    ensures
        print_nat(n).len() >= 1,
        forall|m: int| 0 <= m < print_nat(n).len() ==> is_digit_char(#[trigger] print_nat(n)[m]),
    decreases n,
{
    if n >= 10 {
        lemma_print_nat_facts(n / 10);
    }
}

/// Digits laid down in a larger text read back as their number.
proof fn lemma_digits_val_of_print(n: int, s: Seq<char>, i: int)
    requires
        n >= 0,
        0 <= i,
        i + print_nat(n).len() <= s.len(),
        s.subrange(i, i + print_nat(n).len()) == print_nat(n),
    ensures
        digits_val(s, i, i + print_nat(n).len()) == n,
    decreases n,
{
    lemma_print_nat_facts(n);
    let p = print_nat(n);
    if n < 10 {
        assert(s.subrange(i, i + p.len())[0] == p[0]);
        assert(s[i] == p[0]);
        assert(digits_val(s, i, i) == 0);
        assert(digits_val(s, i, i + 1) == digits_val(s, i, i) * 10 + (s[i] as u32 - 48));
    } else {
        let q = print_nat(n / 10);
        assert(p == q.push(digit_char(n % 10)));
        assert(s.subrange(i, i + q.len()) =~= q) by {
            assert(forall|m: int|
                0 <= m < q.len() ==> s.subrange(i, i + p.len())[m] == p[m]);
        }
        lemma_digits_val_of_print(n / 10, s, i);
        assert(s.subrange(i, i + p.len())[p.len() - 1] == p[p.len() - 1]);
        assert(s[i + p.len() - 1] == p[p.len() - 1]);
        assert(p[p.len() - 1] == digit_char(n % 10));
        assert(digits_val(s, i, i + p.len()) == digits_val(s, i, i + p.len() - 1) * 10 + (s[i
            + p.len() - 1] as u32 - 48));
    }
}

/// A string body laid down as its escaped text scans back to itself.
proof fn lemma_scan_string_of_escape(t: Seq<char>, s: Seq<char>, i: int)
    requires
        0 <= i,
        i + escape(t).len() + 1 <= s.len(),
        s.subrange(i, i + escape(t).len()) == escape(t),
        s[i + escape(t).len()] == '"',
    ensures
        scan_string(s, i) == Result::<(Seq<char>, int), ParseErrS>::Ok(
            (t, i + escape(t).len() + 1),
        ),
    decreases t.len(),
{
    let w = escape(t);
    if t.len() == 0 {
        assert(Seq::<char>::empty() =~= t);
    } else {
        let rest = t.drop_first();
        let head: Seq<char> = if t[0] == '"' {
            seq!['\\', '"']
        } else if t[0] == '\\' {
            seq!['\\', '\\']
        } else {
            seq![t[0]]
        };
        assert(w =~= head + escape(rest));
        assert(forall|m: int| 0 <= m < w.len() ==> s[i + m] == w[m]) by {
            assert(forall|m: int|
                0 <= m < w.len() ==> s.subrange(i, i + w.len())[m] == w[m]);
        }
        let i2 = i + head.len();
        assert forall|m: int| 0 <= m < escape(rest).len() implies s[i2 + m] == escape(
            rest,
        )[m] by {
            assert(w[head.len() + m] == escape(rest)[m]);
        }
        assert(s.subrange(i2, i2 + escape(rest).len()) =~= escape(rest));
        lemma_scan_string_of_escape(rest, s, i2);
        assert(s[i + 0] == w[0]);
        if t[0] == '"' || t[0] == '\\' {
            assert(w[0] == head[0] && w[1] == head[1]);
            assert(s[i] == '\\');
            assert(s[i + 1] == t[0]);
            assert(seq![t[0]] + rest =~= t);
        } else {
            assert(w[0] == head[0]);
            assert(s[i] == t[0]);
            assert(seq![t[0]] + rest =~= t);
        }
    }
}

/// Printed text never starts with white space, a comment, or a closing
/// parenthesis, and never is empty.
proof fn lemma_print_head(e: ExprS)
    requires
        wf_source(e),
    ensures
        spec_print(e).len() > 0,
        !spec_is_whitespace(spec_print(e)[0]),
        spec_print(e)[0] != ';',
        spec_print(e)[0] != ')',
{
    broadcast use vstd::string::group_string_axioms;

    match e {
        ExprS::Str(_) => {
        },
        ExprS::Int(i) => {
            lemma_print_nat_facts(if i < 0 {
                -i
            } else {
                i
            });
            if i >= 0 {
                assert(is_digit_char(print_nat(i)[0]));
            }
        },
        ExprS::Bool(b) => {
            reveal_strlit("true");
            reveal_strlit("false");
            if b {
                assert(spec_print(e)[0] == 't');
            } else {
                assert(spec_print(e)[0] == 'f');
            }
        },
        ExprS::Ident(t) => {
            assert(is_ident_start_char(t[0]));
        },
        ExprS::Sequence(_) => {
        },
        ExprS::List(_, _) => {
        },
    }
}

/// Round trip, inner step: an expression's printed text, laid down in a
/// larger text and followed by a delimiter or the end, parses back to
/// the expression, consuming exactly its own characters.
#[verifier::rlimit(80)]
#[verifier::spinoff_prover]
proof fn lemma_parse_of_print(e: ExprS, s: Seq<char>, i: int)
    requires
        wf_source(e),
        0 <= i,
        i + spec_print(e).len() <= s.len(),
        s.subrange(i, i + spec_print(e).len()) == spec_print(e),
        i + spec_print(e).len() == s.len() || is_delimiter(s[i + spec_print(e).len()]),
    ensures
        spec_parse_expr(s, i) == Result::<(ExprS, int), ParseErrS>::Ok(
            (e, i + spec_print(e).len()),
        ),
    decreases e, 1int,
{
    broadcast use vstd::string::group_string_axioms;

    let p = spec_print(e);
    lemma_print_head(e);
    assert(forall|m: int| 0 <= m < p.len() ==> s[i + m] == p[m]) by {
        assert(forall|m: int| 0 <= m < p.len() ==> s.subrange(i, i + p.len())[m] == p[m]);
    }
    assert(s[i + 0] == p[0]);
    match e {
        ExprS::Str(t) => {
            let w = escape(t);
            assert(p =~= seq!['"'] + w + seq!['"']);
            assert(s[i] == '"');
            assert forall|m: int| 0 <= m < w.len() implies s[i + 1 + m] == w[m] by {
                assert(s[i + (1 + m)] == p[1 + m]);
            }
            assert(s.subrange(i + 1, i + 1 + w.len()) =~= w);
            assert(s[i + (1 + w.len() as int)] == p[1 + w.len() as int]);
            lemma_scan_string_of_escape(t, s, i + 1);
        },
        ExprS::Int(v) => {
            if v >= 0 {
                let q = print_nat(v);
                lemma_print_nat_facts(v);
                assert(p == q);
                assert(is_digit_char(s[i]));
                assert(s.subrange(i, i + q.len()) =~= q);
                lemma_digits_val_of_print(v, s, i);
                assert forall|m: int| i <= m < i + q.len() implies is_digit_char(
                    #[trigger] s[m],
                ) by {
                    assert(s[i + (m - i)] == p[m - i]);
                }
                lemma_scan_digits_of_run(s, i, i + q.len());
            } else {
                let q = print_nat(-v);
                lemma_print_nat_facts(-v);
                assert(p =~= seq!['-'] + q);
                assert(s[i] == '-');
                assert(s[i + 1] == p[1]);
                assert(is_digit_char(s[i + 1]));
                assert forall|m: int| 0 <= m < q.len() implies s[i + 1 + m] == q[m] by {
                    assert(s[i + (1 + m)] == p[1 + m]);
                }
                assert(s.subrange(i + 1, i + 1 + q.len()) =~= q);
                lemma_digits_val_of_print(-v, s, i + 1);
                assert forall|m: int| i + 1 <= m < i + 1 + q.len() implies is_digit_char(
                    #[trigger] s[m],
                ) by {
                    assert(s[i + 1 + (m - i - 1)] == q[m - i - 1]);
                }
                lemma_scan_digits_of_run(s, i + 1, i + 1 + q.len());
            }
        },
        ExprS::Bool(b) => {
            reveal_strlit("true");
            reveal_strlit("false");
            if b {
                assert(p == "true"@);
            } else {
                assert(p == "false"@);
            }
            assert forall|m: int| i <= m < i + p.len() implies is_ident_or_dot(
                #[trigger] s[m],
            ) by {
                assert(s[i + (m - i)] == p[m - i]);
            }
            lemma_scan_ident_of_run(s, i, i + p.len());
            assert(s.subrange(i, i + p.len()) == p);
        },
        ExprS::Ident(t) => {
            assert(p == t);
            assert(is_ident_start_char(s[i]));
            if s[i] == '-' && i + 1 < s.len() && is_digit_char(s[i + 1]) {
                if t.len() > 1 {
                    assert(s[i + 1] == p[1]);
                    assert(!is_digit_char(t[1]));
                } else {
                    assert(is_delimiter(s[i + 1]));
                }
            }
            assert forall|m: int| i <= m < i + t.len() implies is_ident_or_dot(
                #[trigger] s[m],
            ) by {
                assert(s[i + (m - i)] == p[m - i]);
            }
            lemma_scan_ident_of_run(s, i, i + t.len());
            assert(s.subrange(i, i + t.len()) == t);
        },
        ExprS::Sequence(_) => {
        },
        ExprS::List(h, args) => {
            let n = (*h)->Ident_0;
            assert(spec_print(*h) == n);
            assert(p =~= seq!['('] + n + print_args(args) + seq![')']);
            assert(s[i] == '(');
            let j = i + 1;
            assert(s[i + 1] == p[1]);
            assert(s[j] == n[0]);
            assert(is_ident_start_char(n[0]));
            assert(skip_trivia(s, j) == j);
            assert(past(skip_trivia(s, i + 1), i, s.len() as int) == j);
            let k = j + n.len() as int;
            assert(s[i + (1 + n.len() as int)] == p[1 + n.len() as int]);
            assert forall|m: int| j <= m < k implies is_ident_or_dot(#[trigger] s[m]) by {
                assert(s[i + (m - i)] == p[m - i]);
            }
            if args.len() == 0 {
                assert(print_args(args) =~= Seq::<char>::empty());
                assert(s[k] == ')');
            } else {
                assert(print_args(args)[0] == ' ');
                assert(s[k] == ' ');
            }
            lemma_scan_ident_of_run(s, j, k);
            assert(at_least(scan_ident(s, j), j, s.len() as int) == k);
            assert forall|m: int| 0 <= m < n.len() implies s.subrange(j, k)[m] == n[m] by {
                assert(s[i + (1 + m)] == p[1 + m]);
            }
            assert(s.subrange(j, k) =~= n);
            assert(valid_dotted(n));
            assert(past(k, i, s.len() as int) == k);
            let al = print_args(args).len() + 1;
            assert forall|m: int| 0 <= m < al implies s[k + m] == print_args(args).push(
                ')',
            )[m] by {
                assert(s[i + (1 + n.len() as int + m)] == p[1 + n.len() as int + m]);
            }
            assert(s.subrange(k, k + al) =~= print_args(args).push(')'));
            lemma_parse_of_print_args(args, s, k);
            assert(ExprS::List(Box::new(ExprS::Ident(s.subrange(j, k))), args) =~~= e);
        },
    }
}

/// Round trip, argument step: printed arguments followed by the closing
/// parenthesis parse back to the argument list.
#[verifier::rlimit(80)]
#[verifier::spinoff_prover]
proof fn lemma_parse_of_print_args(items: Seq<ExprS>, s: Seq<char>, i: int)
    requires
        wf_source_args(items),
        0 <= i,
        i + print_args(items).len() + 1 <= s.len(),
        s.subrange(i, i + print_args(items).len() + 1) == print_args(items).push(')'),
    ensures
        spec_parse_args(s, i) == Result::<(Seq<ExprS>, int), ParseErrS>::Ok(
            (items, i + print_args(items).len() + 1),
        ),
    decreases items, 0int,
{
    let w = print_args(items).push(')');
    assert(forall|m: int| 0 <= m < w.len() ==> s[i + m] == w[m]) by {
        assert(forall|m: int| 0 <= m < w.len() ==> s.subrange(i, i + w.len())[m] == w[m]);
    }
    assert(s[i + 0] == w[0]);
    if items.len() == 0 {
        assert(print_args(items) =~= Seq::<char>::empty());
        assert(s[i] == ')');
        assert(skip_trivia(s, i) == i);
        assert(at_least(skip_trivia(s, i), i, s.len() as int) == i);
        assert(Seq::<ExprS>::empty() =~= items);
    } else {
        let e0 = items[0];
        let p0 = spec_print(e0);
        assert(print_args(items) =~= seq![' '] + p0 + print_args(items.drop_first()));
        assert(s[i] == ' ');
        let j = i + 1;
        lemma_print_head(e0);
        assert(s[i + 1] == w[1]);
        assert(w[1] == p0[0]);
        assert(skip_trivia(s, j) == j);
        assert(skip_trivia(s, i) == skip_trivia(s, i + 1));
        assert(at_least(skip_trivia(s, i), i, s.len() as int) == j);
        assert(s[j] != ')');
        assert forall|m: int| 0 <= m < p0.len() implies s[j + m] == p0[m] by {
            assert(s[i + (1 + m)] == w[1 + m]);
        }
        assert(s.subrange(j, j + p0.len()) =~= p0);
        let k = j + p0.len() as int;
        assert(s[i + (1 + p0.len() as int)] == w[1 + p0.len() as int]);
        if items.drop_first().len() == 0 {
            assert(print_args(items.drop_first()) =~= Seq::<char>::empty());
            assert(s[k] == ')');
        } else {
            assert(print_args(items.drop_first())[0] == ' ');
            assert(s[k] == ' ');
        }
        assert(is_delimiter(s[k]));
        lemma_parse_of_print(e0, s, j);
        assert(past(k, j, s.len() as int) == k);
        let rl = print_args(items.drop_first()).len() + 1;
        assert forall|m: int| 0 <= m < rl implies s[k + m] == print_args(
            items.drop_first(),
        ).push(')')[m] by {
            assert(s[i + (1 + p0.len() as int + m)] == w[1 + p0.len() as int + m]);
        }
        assert(s.subrange(k, k + rl) =~= print_args(items.drop_first()).push(')'));
        assert(wf_source_args(items.drop_first())) by {
            assert(forall|m: int|
                0 <= m < items.drop_first().len() ==> items.drop_first()[m] == items[m + 1]);
        }
        lemma_parse_of_print_args(items.drop_first(), s, k);
        assert(seq![e0] + items.drop_first() =~= items);
    }
}

/// Round trip: printing an expression and parsing the text back gives
/// the expression again.
pub proof fn lemma_parse_print(e: ExprS)
    requires
        wf_source(e),
    ensures
        spec_parse(spec_print(e)) == Result::<Option<ExprS>, ParseErrS>::Ok(Some(e)),
{
    let s = spec_print(e);
    lemma_print_head(e);
    assert(skip_trivia(s, 0) == 0);
    assert(at_least(skip_trivia(s, 0), 0, s.len() as int) == 0);
    assert(s.subrange(0, s.len() as int) =~= s);
    lemma_parse_of_print(e, s, 0);
    assert(skip_trivia(s, s.len() as int) == s.len());
    assert(at_least(skip_trivia(s, s.len() as int), s.len() as int, s.len() as int)
        == s.len());
}

} // verus!
