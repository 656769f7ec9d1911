//! The tokenizer: turns one line of text into a sequence of tokens.
//!
//! The line is trimmed of leading and trailing Unicode whitespace and then
//! split into fields on single ASCII space characters (consecutive spaces
//! yield empty fields, which are rejected).  Each field becomes an operator
//! token or a parsed `i32` value; the first bad field aborts tokenisation.

use crate::token::Node;
use vstd::prelude::*;
use vstd::string::*;

verus! {

/// Why a field failed to parse as an integer.
#[derive(Debug, PartialEq, Eq, Structural, Clone, Copy)]
pub enum ParseFailure {
    /// The field was empty (two adjacent space delimiters).
    EmptyField,
    /// The field held a character that is not a decimal digit, or a sign
    /// with no digits after it.
    InvalidDigit,
    /// The written value does not fit in a signed 32-bit integer.
    OutOfRange,
}

/// The error `tokenise` returns: the offending field and why it failed.
#[derive(Debug)]
pub struct TokenizeError {
    /// The field that failed to parse, as written in the input.
    pub field: String,
    /// Why the field failed to parse.
    pub reason: ParseFailure,
}

/// Unicode whitespace (the `White_Space` property): what trimming removes
/// from the ends of the line.
pub open spec fn is_space_char(c: char) -> bool {
    ||| c == '\t'
    ||| c == '\n'
    ||| c == '\u{000B}'
    ||| c == '\u{000C}'
    ||| c == '\r'
    ||| c == ' '
    ||| c == '\u{0085}'
    ||| c == '\u{00A0}'
    ||| c == '\u{1680}'
    ||| c == '\u{2000}'
    ||| c == '\u{2001}'
    ||| c == '\u{2002}'
    ||| c == '\u{2003}'
    ||| c == '\u{2004}'
    ||| c == '\u{2005}'
    ||| c == '\u{2006}'
    ||| c == '\u{2007}'
    ||| c == '\u{2008}'
    ||| c == '\u{2009}'
    ||| c == '\u{200A}'
    ||| c == '\u{2028}'
    ||| c == '\u{2029}'
    ||| c == '\u{202F}'
    ||| c == '\u{205F}'
    ||| c == '\u{3000}'
}

/// The sequence with its leading whitespace removed.
pub open spec fn spec_trim_start(s: Seq<char>) -> Seq<char>
    decreases s.len(),
{
    if s.len() > 0 && is_space_char(s[0]) {
        spec_trim_start(s.drop_first())
    } else {
        s
    }
}

/// The sequence with its trailing whitespace removed.
pub open spec fn spec_trim_end(s: Seq<char>) -> Seq<char>
    decreases s.len(),
{
    if s.len() > 0 && is_space_char(s.last()) {
        spec_trim_end(s.drop_last())
    } else {
        s
    }
}

/// The sequence with whitespace removed from both ends.
pub open spec fn spec_trim(s: Seq<char>) -> Seq<char> {
    spec_trim_end(spec_trim_start(s))
}

/// The fields of `s`, split on single ASCII spaces.  An empty sequence has
/// one empty field; every space separates two (possibly empty) fields.
pub open spec fn spec_fields(s: Seq<char>) -> Seq<Seq<char>>
    decreases s.len(),
{
    if s.len() == 0 {
        seq![Seq::<char>::empty()]
    } else if s[0] == ' ' {
        seq![Seq::<char>::empty()] + spec_fields(s.drop_first())
    } else {
        let rest = spec_fields(s.drop_first());
        seq![seq![s[0]] + rest[0]] + rest.drop_first()
    }
}

/// A decimal digit.
pub open spec fn is_digit(c: char) -> bool {
    '0' as u32 <= c as u32 && c as u32 <= '9' as u32
}

/// The numeric value of a decimal digit.
pub open spec fn digit_val(c: char) -> int {
    c as u32 - '0' as u32
}

/// The value of a sequence of decimal digits, most significant first.
pub open spec fn digits_val(s: Seq<char>) -> int
    decreases s.len(),
{
    if s.len() == 0 {
        0
    } else {
        10 * digits_val(s.drop_last()) + digit_val(s.last())
    }
}

/// Every character of `s` is a decimal digit.
pub open spec fn all_digits(s: Seq<char>) -> bool {
    forall|k: int| 0 <= k < s.len() ==> is_digit(s[k])
}

/// The digits of a written integer: the field with a leading sign removed.
pub open spec fn spec_digits_part(f: Seq<char>) -> Seq<char> {
    if f.len() > 0 && (f[0] == '+' || f[0] == '-') {
        f.drop_first()
    } else {
        f
    }
}

/// Whether the written integer carries a minus sign.
pub open spec fn spec_is_negative(f: Seq<char>) -> bool {
    f.len() > 0 && f[0] == '-'
}

/// The mathematical value a field denotes, when it is a well-formed
/// integer literal: an optional sign followed by decimal digits.
pub open spec fn spec_int_value(f: Seq<char>) -> int {
    if spec_is_negative(f) {
        -digits_val(spec_digits_part(f))
    } else {
        digits_val(spec_digits_part(f))
    }
}

/// Whether `x` fits in a signed 32-bit integer.
pub open spec fn in_i32_range(x: int) -> bool {
    i32::MIN <= x <= i32::MAX
}

/// A well-formed `i32` literal: an optional sign, at least one digit,
/// nothing but digits, and a value in `i32` range.
pub open spec fn is_int_literal(f: Seq<char>) -> bool {
    &&& spec_digits_part(f).len() > 0
    &&& all_digits(spec_digits_part(f))
    &&& in_i32_range(spec_int_value(f))
}

/// What parsing one field as an `i32` yields.
pub open spec fn spec_parse_i32(f: Seq<char>) -> Result<i32, ParseFailure> {
    let ds = spec_digits_part(f);
    if f.len() == 0 {
        Err(ParseFailure::EmptyField)
    } else if ds.len() == 0 || !all_digits(ds) {
        Err(ParseFailure::InvalidDigit)
    } else if !in_i32_range(spec_int_value(f)) {
        Err(ParseFailure::OutOfRange)
    } else {
        Ok(spec_int_value(f) as i32)
    }
}

/// The operator token a single operator character denotes.
pub open spec fn spec_op_node(c: char) -> Node {
    if c == '+' {
        Node::Plus
    } else if c == '-' {
        Node::Minus
    } else if c == '*' {
        Node::Mul
    } else {
        Node::Div
    }
}

/// Whether a field is exactly one of the four operator characters.
pub open spec fn is_op_field(f: Seq<char>) -> bool {
    f.len() == 1 && (f[0] == '+' || f[0] == '-' || f[0] == '*' || f[0] == '/')
}

/// The token one field denotes: an operator when the field is exactly one
/// operator character, otherwise a parsed integer value.
pub open spec fn spec_field_token(f: Seq<char>) -> Result<Node, ParseFailure> {
    if is_op_field(f) {
        Ok(spec_op_node(f[0]))
    } else {
        match spec_parse_i32(f) {
            Ok(v) => Ok(Node::Val(v)),
            Err(reason) => Err(reason),
        }
    }
}

/// Prepends already-produced tokens to the outcome of tokenising the rest.
pub open spec fn spec_prepend(
    prefix: Seq<Node>,
    rest: Result<Seq<Node>, (Seq<char>, ParseFailure)>,
) -> Result<Seq<Node>, (Seq<char>, ParseFailure)> {
    match rest {
        Ok(nodes) => Ok(prefix + nodes),
        Err(e) => Err(e),
    }
}

/// The tokens of a field list, fail-fast: the first bad field decides the
/// result, carrying that field and the failure reason.
pub open spec fn spec_tokens(fields: Seq<Seq<char>>) -> Result<
    Seq<Node>,
    (Seq<char>, ParseFailure),
>
    decreases fields.len(),
{
    if fields.len() == 0 {
        Ok(Seq::<Node>::empty())
    } else {
        match spec_field_token(fields[0]) {
            Ok(n) => spec_prepend(seq![n], spec_tokens(fields.drop_first())),
            Err(reason) => Err((fields[0], reason)),
        }
    }
}

/// The whole tokenisation of a raw line: trim, then split on single spaces,
/// then turn each field into a token.  A line that trims to nothing yields
/// an empty token sequence, not an error.
pub open spec fn spec_tokenize(s: Seq<char>) -> Result<Seq<Node>, (Seq<char>, ParseFailure)> {
    let t = spec_trim(s);
    if t.len() == 0 {
        Ok(Seq::<Node>::empty())
    } else {
        spec_tokens(spec_fields(t))
    }
}

/// A digit sequence has a non-negative value.
proof fn lemma_digits_val_nonneg(s: Seq<char>)
    requires
        all_digits(s),
    ensures
        digits_val(s) >= 0,
    decreases s.len(),
{
    if s.len() > 0 {
        assert forall|k: int| 0 <= k < s.drop_last().len() implies is_digit(s.drop_last()[k]) by {
            assert(s.drop_last()[k] == s[k]);
        }
        lemma_digits_val_nonneg(s.drop_last());
        assert(is_digit(s.last()));
    }
}

/// Extending a digit sequence can only grow its value: the value of any
/// prefix is a lower bound for the value of the whole.
proof fn lemma_digits_val_prefix_grows(s: Seq<char>, m: int)
    requires
        all_digits(s),
        0 <= m <= s.len(),
    ensures
        digits_val(s) >= digits_val(s.take(m)),
    decreases s.len() - m,
{
    if m == s.len() {
        assert(s.take(m) =~= s);
    } else {
        assert(s.take(m + 1).drop_last() =~= s.take(m));
        assert(s.take(m + 1).last() == s[m]);
        assert forall|k: int| 0 <= k < s.take(m).len() implies is_digit(s.take(m)[k]) by {
            assert(s.take(m)[k] == s[k]);
        }
        lemma_digits_val_nonneg(s.take(m));
        assert(is_digit(s[m]));
        assert(digits_val(s.take(m + 1)) == 10 * digits_val(s.take(m)) + digit_val(s[m]));
        lemma_digits_val_prefix_grows(s, m + 1);
    }
}

/// Splitting off the first field: when the first space of `t` sits at
/// index `k`, the fields of `t` are everything before it, then the fields
/// of everything after it.
proof fn lemma_fields_split_first(t: Seq<char>, k: int)
    requires
        0 <= k < t.len(),
        t[k] == ' ',
        forall|j: int| 0 <= j < k ==> t[j] != ' ',
    ensures
        spec_fields(t) == seq![t.take(k)] + spec_fields(t.skip(k + 1)),
    decreases k,
{
    if k == 0 {
        assert(t.take(0) =~= Seq::<char>::empty());
        assert(t.skip(1) =~= t.drop_first());
    } else {
        let u = t.drop_first();
        assert(u[k - 1] == ' ');
        assert forall|j: int| 0 <= j < k - 1 implies u[j] != ' ' by {
            assert(u[j] == t[j + 1]);
        }
        lemma_fields_split_first(u, k - 1);
        let rest = spec_fields(u);
        assert(rest == seq![u.take(k - 1)] + spec_fields(u.skip(k)));
        assert(rest[0] == u.take(k - 1));
        assert(rest.drop_first() =~~= spec_fields(u.skip(k)));
        assert(seq![t[0]] + u.take(k - 1) =~= t.take(k));
        assert(u.skip(k) =~= t.skip(k + 1));
    }
}

/// A sequence without spaces is one single field.
proof fn lemma_fields_no_space(t: Seq<char>)
    requires
        forall|j: int| 0 <= j < t.len() ==> t[j] != ' ',
    ensures
        spec_fields(t) == seq![t],
    decreases t.len(),
{
    if t.len() == 0 {
        assert(t =~= Seq::<char>::empty());
    } else {
        let u = t.drop_first();
        assert forall|j: int| 0 <= j < u.len() implies u[j] != ' ' by {
            assert(u[j] == t[j + 1]);
        }
        lemma_fields_no_space(u);
        let rest = spec_fields(u);
        assert(rest[0] == u);
        assert(rest.drop_first() =~~= Seq::<Seq<char>>::empty());
        assert(seq![t[0]] + u =~= t);
        assert(seq![seq![t[0]] + rest[0]] + rest.drop_first() =~~= seq![t]);
    }
}

/// Nothing prepended leaves a tokenisation outcome unchanged.
proof fn lemma_prepend_empty(r: Result<Seq<Node>, (Seq<char>, ParseFailure)>)
    ensures
        spec_prepend(Seq::<Node>::empty(), r) == r,
{
    match r {
        Ok(nodes) => {
            assert(Seq::<Node>::empty() + nodes =~= nodes);
        },
        Err(_) => {},
    }
}

/// Prepending tokens one at a time composes.
proof fn lemma_prepend_push(
    prefix: Seq<Node>,
    n: Node,
    r: Result<Seq<Node>, (Seq<char>, ParseFailure)>,
)
    ensures
        spec_prepend(prefix, spec_prepend(seq![n], r)) == spec_prepend(prefix.push(n), r),
{
    match r {
        Ok(nodes) => {
            assert(prefix + (seq![n] + nodes) =~= prefix.push(n) + nodes);
        },
        Err(_) => {},
    }
}

/// Unfolds `spec_tokens` over an explicitly split field list.
proof fn lemma_tokens_cons(f: Seq<char>, rest: Seq<Seq<char>>)
    ensures
        spec_tokens(seq![f] + rest) == (match spec_field_token(f) {
            Ok(n) => spec_prepend(seq![n], spec_tokens(rest)),
            Err(reason) => Err((f, reason)),
        }),
{
    let whole = seq![f] + rest;
    assert(whole[0] == f);
    assert(whole.drop_first() =~~= rest);
}

/// Trimming a sequence of nothing but whitespace leaves nothing.
proof fn lemma_trim_start_all_space(s: Seq<char>)
    requires
        forall|k: int| 0 <= k < s.len() ==> is_space_char(s[k]),
    ensures
        spec_trim_start(s) == Seq::<char>::empty(),
    decreases s.len(),
{
    if s.len() == 0 {
        assert(s =~= Seq::<char>::empty());
    } else {
        let u = s.drop_first();
        assert forall|k: int| 0 <= k < u.len() implies is_space_char(u[k]) by {
            assert(u[k] == s[k + 1]);
        }
        lemma_trim_start_all_space(u);
    }
}

/// A line that is empty or all whitespace tokenises to the empty token
/// sequence — it is not an error.
pub proof fn lemma_tokenize_whitespace_only(s: Seq<char>)
    requires
        forall|k: int| 0 <= k < s.len() ==> is_space_char(s[k]),
    ensures
        spec_tokenize(s) == Ok::<Seq<Node>, (Seq<char>, ParseFailure)>(Seq::<Node>::empty()),
{
    lemma_trim_start_all_space(s);
}

/// Two adjacent spaces leave an empty field between them, at a field
/// index past the first.
proof fn lemma_fields_adjacent_spaces(t: Seq<char>, k: int)
    requires
        0 <= k,
        k + 1 < t.len(),
        t[k] == ' ',
        t[k + 1] == ' ',
    ensures
        exists|m: int| 1 <= m < spec_fields(t).len() && spec_fields(t)[m].len() == 0,
    decreases t.len(),
{
    let u = t.drop_first();
    if t[0] == ' ' {
        if k == 0 {
            assert(u[0] == ' ');
            assert(spec_fields(u)[0].len() == 0);
            assert(spec_fields(t)[1].len() == 0);
        } else {
            assert(u[k - 1] == ' ' && u[k] == ' ');
            lemma_fields_adjacent_spaces(u, k - 1);
            let m = choose|m: int|
                1 <= m < spec_fields(u).len() && spec_fields(u)[m].len() == 0;
            assert(spec_fields(t)[m + 1].len() == 0);
        }
    } else {
        assert(u[k - 1] == ' ' && u[k] == ' ');
        lemma_fields_adjacent_spaces(u, k - 1);
        let m = choose|m: int| 1 <= m < spec_fields(u).len() && spec_fields(u)[m].len() == 0;
        assert(spec_fields(t)[m] == spec_fields(u).drop_first()[m - 1]);
        assert(spec_fields(t)[m].len() == 0);
    }
}

/// Tokenising a field list fails whenever some field is bad: the first
/// bad field is reached and decides the outcome.
proof fn lemma_tokens_err_on_bad_field(fields: Seq<Seq<char>>, m: int)
    requires
        0 <= m < fields.len(),
        spec_field_token(fields[m]) is Err,
    ensures
        spec_tokens(fields) is Err,
    decreases m,
{
    if spec_field_token(fields[0]) is Ok {
        assert(m > 0);
        assert(fields.drop_first()[m - 1] == fields[m]);
        lemma_tokens_err_on_bad_field(fields.drop_first(), m - 1);
    }
}

/// Splitting is on single spaces, not on whitespace runs: a line whose
/// trimmed form holds two adjacent spaces fails to tokenise, because the
/// empty field between them is rejected.
pub proof fn lemma_tokenize_adjacent_spaces(s: Seq<char>, k: int)
    requires
        0 <= k,
        k + 1 < spec_trim(s).len(),
        spec_trim(s)[k] == ' ',
        spec_trim(s)[k + 1] == ' ',
    ensures
        spec_tokenize(s) is Err,
{
    let t = spec_trim(s);
    lemma_fields_adjacent_spaces(t, k);
    let m = choose|m: int| 1 <= m < spec_fields(t).len() && spec_fields(t)[m].len() == 0;
    assert(spec_field_token(spec_fields(t)[m]) is Err);
    lemma_tokens_err_on_bad_field(spec_fields(t), m);
}

/// A line whose trimmed form is a single well-formed integer literal
/// tokenises to exactly that one value token.
pub proof fn lemma_tokenize_single_integer(s: Seq<char>)
    requires
        is_int_literal(spec_trim(s)),
    ensures
        spec_tokenize(s) == Ok::<Seq<Node>, (Seq<char>, ParseFailure)>(
            seq![Node::Val(spec_int_value(spec_trim(s)) as i32)],
        ),
{
    let t = spec_trim(s);
    let ds = spec_digits_part(t);
    assert(t.len() > 0);
    assert forall|j: int| 0 <= j < t.len() implies t[j] != ' ' by {
        if t[0] == '+' || t[0] == '-' {
            if j > 0 {
                assert(ds[j - 1] == t[j]);
                assert(is_digit(t[j]));
            }
        } else {
            assert(ds[j] == t[j]);
            assert(is_digit(t[j]));
        }
    }
    lemma_fields_no_space(t);
    lemma_tokens_cons(t, Seq::<Seq<char>>::empty());
    assert(seq![t] + Seq::<Seq<char>>::empty() =~~= seq![t]);
    if is_op_field(t) {
        if t[0] == '+' || t[0] == '-' {
            assert(ds.len() == 0);
        } else {
            assert(ds[0] == t[0]);
            assert(is_digit(t[0]));
        }
        assert(false);
    }
    let node = Node::Val(spec_int_value(t) as i32);
    assert(seq![node] + Seq::<Node>::empty() =~= seq![node]);
}

/// Whether `c` is Unicode whitespace.
fn space_char(c: char) -> (b: bool)
    ensures
        b == is_space_char(c),
{
    c == '\t' || c == '\n' || c == '\u{000B}' || c == '\u{000C}' || c == '\r' || c == ' '
        || c == '\u{0085}' || c == '\u{00A0}' || c == '\u{1680}' || c == '\u{2000}'
        || c == '\u{2001}' || c == '\u{2002}' || c == '\u{2003}' || c == '\u{2004}'
        || c == '\u{2005}' || c == '\u{2006}' || c == '\u{2007}' || c == '\u{2008}'
        || c == '\u{2009}' || c == '\u{200A}' || c == '\u{2028}' || c == '\u{2029}'
        || c == '\u{202F}' || c == '\u{205F}' || c == '\u{3000}'
}

/// Whether `c` is a decimal digit.
fn digit_char(c: char) -> (b: bool)
    ensures
        b == is_digit(c),
{
    '0' as u32 <= c as u32 && c as u32 <= '9' as u32
}

/// Parses the field `s[fs..i]` as a signed 32-bit integer: an optional
/// `+` or `-` sign followed by at least one decimal digit, with a value in
/// `i32` range.
fn parse_field_int(s: &str, fs: usize, i: usize) -> (r: Result<i32, ParseFailure>)
    requires
        fs <= i <= s@.len(),
    ensures
        r == spec_parse_i32(s@.subrange(fs as int, i as int)),
{
    let ghost f = s@.subrange(fs as int, i as int);
    if fs == i {
        proof {
            assert(f.len() == 0);
        }
        return Err(ParseFailure::EmptyField);
    }
    let c0 = s.get_char(fs);
    let neg = c0 == '-';
    let has_sign = c0 == '-' || c0 == '+';
    let p: usize = if has_sign {
        fs + 1
    } else {
        fs
    };
    let ghost ds = s@.subrange(p as int, i as int);
    proof {
        assert(f[0] == s@[fs as int]);
        assert(spec_digits_part(f) =~= ds);
        assert(spec_is_negative(f) == neg);
    }
    if p == i {
        return Err(ParseFailure::InvalidDigit);
    }
    let mut k: usize = p;
    while k < i
        invariant
            fs <= p <= k <= i <= s@.len(),
            f == s@.subrange(fs as int, i as int),
            f.len() > 0,
            ds == s@.subrange(p as int, i as int),
            spec_digits_part(f) == ds,
            forall|m: int| p <= m < k ==> is_digit(s@[m]),
        decreases i - k,
    {
        let c = s.get_char(k);
        if !digit_char(c) {
            proof {
                assert(ds[k - p] == s@[k as int]);
            }
            return Err(ParseFailure::InvalidDigit);
        }
        k += 1;
    }
    proof {
        assert forall|m: int| 0 <= m < ds.len() implies is_digit(ds[m]) by {
            assert(ds[m] == s@[p + m]);
        }
    }
    let mut mag: u64 = 0;
    let mut k2: usize = p;
    proof {
        assert(s@.subrange(p as int, p as int) =~= Seq::<char>::empty());
    }
    while k2 < i
        invariant
            p <= k2 <= i <= s@.len(),
            f == s@.subrange(fs as int, i as int),
            ds == s@.subrange(p as int, i as int),
            spec_digits_part(f) == ds,
            spec_is_negative(f) == neg,
            all_digits(ds),
            ds.len() > 0,
            mag as int == digits_val(s@.subrange(p as int, k2 as int)),
            mag <= 0x8000_0000,
        decreases i - k2,
    {
        let c = s.get_char(k2);
        proof {
            assert(ds[k2 - p] == s@[k2 as int]);
        }
        let d: u64 = (c as u32 - '0' as u32) as u64;
        let v: u64 = mag * 10 + d;
        proof {
            assert(s@.subrange(p as int, k2 as int + 1).drop_last() =~= s@.subrange(
                p as int,
                k2 as int,
            ));
            assert(digits_val(s@.subrange(p as int, k2 as int + 1)) == v);
        }
        if v > 0x8000_0000 {
            proof {
                assert(ds.take(k2 + 1 - p) =~= s@.subrange(p as int, k2 as int + 1));
                lemma_digits_val_prefix_grows(ds, k2 + 1 - p as int);
                assert(digits_val(ds) > 0x8000_0000);
                assert(!in_i32_range(spec_int_value(f)));
            }
            return Err(ParseFailure::OutOfRange);
        }
        mag = v;
        k2 += 1;
    }
    proof {
        assert(s@.subrange(p as int, i as int) == ds);
        assert(mag as int == digits_val(ds));
    }
    if neg {
        if mag == 0x8000_0000 {
            proof {
                assert(spec_int_value(f) == i32::MIN as int);
            }
            Ok(i32::MIN)
        } else {
            Ok(-(mag as i32))
        }
    } else {
        if mag > 0x7fff_ffff {
            proof {
                assert(spec_int_value(f) > i32::MAX as int);
            }
            Err(ParseFailure::OutOfRange)
        } else {
            Ok(mag as i32)
        }
    }
}

/// The token denoted by the field `s[fs..i]`: a lone operator character,
/// or a signed 32-bit integer.
fn field_token(s: &str, fs: usize, i: usize) -> (r: Result<Node, ParseFailure>)
    requires
        fs <= i <= s@.len(),
    ensures
        r == spec_field_token(s@.subrange(fs as int, i as int)),
{
    let ghost f = s@.subrange(fs as int, i as int);
    if i - fs == 1 {
        let c = s.get_char(fs);
        proof {
            assert(f.len() == 1 && f[0] == s@[fs as int]);
        }
        if c == '+' {
            return Ok(Node::Plus);
        }
        if c == '-' {
            return Ok(Node::Minus);
        }
        if c == '*' {
            return Ok(Node::Mul);
        }
        if c == '/' {
            return Ok(Node::Div);
        }
    }
    match parse_field_int(s, fs, i) {
        Ok(v) => Ok(Node::Val(v)),
        Err(reason) => Err(reason),
    }
}

/// Tokenises one raw input line.
///
/// The line is trimmed of leading and trailing Unicode whitespace; a line
/// that trims to nothing yields an empty token sequence.  Otherwise the
/// trimmed line is split into fields on single ASCII spaces, in order, and
/// each field becomes one token: a lone `+`, `-`, `*` or `/` is an
/// operator, anything else must parse as a signed 32-bit integer.  The
/// first field that does neither aborts tokenisation with that field and
/// the reason it failed; an empty field (two adjacent spaces) is such a
/// failure.
pub fn tokenise(input: String) -> (r: Result<Vec<Node>, TokenizeError>)
    ensures
        match spec_tokenize(input@) {
            Ok(nodes) => r matches Ok(v) && v@ == nodes,
            Err((f, reason)) => r matches Err(e) && e.field@ == f && e.reason == reason,
        },
{
    let s = input.as_str();
    let n = s.unicode_len();
    let mut start: usize = 0;
    proof {
        assert(s@.skip(0) =~= s@);
    }
    while start < n && space_char(s.get_char(start))
        invariant
            0 <= start <= n,
            n == s@.len(),
            s@ == input@,
            spec_trim_start(s@) == spec_trim_start(s@.skip(start as int)),
        decreases n - start,
    {
        proof {
            assert(s@.skip(start as int).drop_first() =~= s@.skip(start as int + 1));
        }
        start += 1;
    }
    proof {
        assert(spec_trim_start(s@.skip(start as int)) == s@.skip(start as int));
    }
    let mut end: usize = n;
    proof {
        assert(s@.subrange(start as int, n as int) =~= s@.skip(start as int));
    }
    while end > start && space_char(s.get_char(end - 1))
        invariant
            start <= end <= n,
            n == s@.len(),
            s@ == input@,
            spec_trim_start(s@) == s@.skip(start as int),
            spec_trim_end(s@.skip(start as int)) == spec_trim_end(
                s@.subrange(start as int, end as int),
            ),
        decreases end,
    {
        proof {
            assert(s@.subrange(start as int, end as int).drop_last() =~= s@.subrange(
                start as int,
                end as int - 1,
            ));
        }
        end -= 1;
    }
    let ghost t = s@.subrange(start as int, end as int);
    proof {
        assert(spec_trim_end(t) == t);
        assert(spec_trim(s@) == t);
    }
    if start == end {
        return Ok(Vec::new());
    }
    let mut out: Vec<Node> = Vec::new();
    let mut fs: usize = start;
    let mut i: usize = start;
    proof {
        assert(t.skip(0) =~= t);
        lemma_prepend_empty(spec_tokens(spec_fields(t)));
    }
    while i < end
        invariant
            start <= fs <= i <= end <= n,
            n == s@.len(),
            s@ == input@,
            start < end,
            t == s@.subrange(start as int, end as int),
            spec_trim(s@) == t,
            forall|k: int| fs <= k < i ==> s@[k] != ' ',
            spec_tokens(spec_fields(t)) == spec_prepend(
                out@,
                spec_tokens(spec_fields(t.skip(fs as int - start as int))),
            ),
        decreases end - i,
    {
        let c = s.get_char(i);
        if c == ' ' {
            let ghost cur = s@.subrange(fs as int, i as int);
            let ghost u = t.skip(fs as int - start as int);
            proof {
                assert forall|j: int| 0 <= j < i - fs implies u[j] != ' ' by {
                    assert(u[j] == s@[fs + j]);
                }
                assert(u[i as int - fs as int] == s@[i as int]);
                lemma_fields_split_first(u, i as int - fs as int);
                assert(u.take(i as int - fs as int) =~= cur);
                assert(u.skip(i as int - fs as int + 1) =~= t.skip(i as int + 1 - start as int));
                lemma_tokens_cons(cur, spec_fields(t.skip(i as int + 1 - start as int)));
            }
            match field_token(s, fs, i) {
                Ok(node) => {
                    proof {
                        lemma_prepend_push(
                            out@,
                            node,
                            spec_tokens(spec_fields(t.skip(i as int + 1 - start as int))),
                        );
                    }
                    out.push(node);
                },
                Err(reason) => {
                    let field = String::from_str(s.substring_char(fs, i));
                    return Err(TokenizeError { field, reason });
                },
            }
            fs = i + 1;
        }
        i += 1;
    }
    let ghost u = t.skip(fs as int - start as int);
    proof {
        assert forall|j: int| 0 <= j < u.len() implies u[j] != ' ' by {
            assert(u[j] == s@[fs + j]);
        }
        lemma_fields_no_space(u);
        assert(u =~= s@.subrange(fs as int, end as int));
        lemma_tokens_cons(u, Seq::<Seq<char>>::empty());
        assert(seq![u] + Seq::<Seq<char>>::empty() =~~= seq![u]);
        assert(spec_tokens(Seq::<Seq<char>>::empty()) == Ok::<Seq<Node>, (Seq<char>, ParseFailure)>(
            Seq::<Node>::empty(),
        ));
    }
    match field_token(s, fs, end) {
        Ok(node) => {
            proof {
                lemma_prepend_push(out@, node, spec_tokens(Seq::<Seq<char>>::empty()));
                assert(out@.push(node) + Seq::<Node>::empty() =~= out@.push(node));
            }
            out.push(node);
            Ok(out)
        },
        Err(reason) => {
            let field = String::from_str(s.substring_char(fs, end));
            Err(TokenizeError { field, reason })
        },
    }
}

} // verus!
