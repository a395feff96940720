//! Parsing script-engine value text into typed values.
//!
//! A token is classified as a whole: the empty token fails, `true`/`false`
//! are booleans, a leading `[` opens an array, a leading `"` opens a string,
//! and anything else must be a floating-point literal. Array bodies are
//! scanned left to right by a state machine that tracks bracket depth and
//! quoting, so commas inside quoted strings and brackets inside nested
//! arrays never split elements.

use vstd::prelude::*;
use vstd::string::StrSliceExecFns;
use vstd::string::StringExecFns;

verus! {

broadcast use vstd::seq::axiom_seq_index_decreases, vstd::seq::axiom_seq_subrange_decreases;

/// A typed value recovered from one text token. A numeric token keeps the
/// text the grammar accepted; the floating-point value it denotes is the
/// caller's concern.
#[derive(Debug, PartialEq)]
pub enum VariableType {
    Number(String),
    Str(String),
    Boolean(bool),
    Array(Vec<VariableType>),
}

/// Why a parse failed: the syntactic class the parser assumed and the rule
/// that failed.
#[derive(Debug, PartialEq, Eq, Structural, Clone, Copy)]
pub enum VariableParseError {
    NothingToParse,
    ArrayNoClosingBracket,
    StringNoClosingQuote,
    NumberBadData,
}

/// The mathematical shape of a parsed value.
pub enum SpecValue {
    Number(Seq<char>),
    Str(Seq<char>),
    Boolean(bool),
    Array(Seq<SpecValue>),
}

/// The shapes of the values in `items`, in order.
pub open spec fn deep_seq(items: Seq<VariableType>) -> Seq<SpecValue>
    decreases items,
{
    if items.len() == 0 {
        Seq::<SpecValue>::empty()
    } else {
        seq![items[0].deep()] + deep_seq(items.subrange(1, items.len() as int))
    }
}

impl VariableType {
    /// The mathematical shape of this value.
    pub open spec fn deep(self) -> SpecValue
        decreases self,
    {
        match self {
            VariableType::Number(s) => SpecValue::Number(s@),
            VariableType::Str(s) => SpecValue::Str(s@),
            VariableType::Boolean(b) => SpecValue::Boolean(b),
            VariableType::Array(items) => SpecValue::Array(deep_seq(items@)),
        }
    }
}

/// A parse outcome, with the value reduced to its shape.
pub open spec fn res_deep(r: Result<VariableType, VariableParseError>) -> Result<
    SpecValue,
    VariableParseError,
> {
    match r {
        Ok(v) => Ok(v.deep()),
        Err(e) => Err(e),
    }
}

/// One decimal digit.
pub open spec fn spec_is_digit(c: char) -> bool {
    48 <= c as u32 && c as u32 <= 57
}

/// Every character of `s` is a decimal digit.
pub open spec fn all_digits(s: Seq<char>) -> bool {
    forall|i: int| 0 <= i < s.len() ==> spec_is_digit(#[trigger] s[i])
}

/// `c` equals the lower-case ASCII letter `l`, ignoring case.
pub open spec fn eq_ignore_case(c: char, l: char) -> bool {
    c == l || c as u32 + 32 == l as u32
}

/// `s` spells `inf`, `infinity` or `nan` in any letter case: the words that
/// std's float parsing accepts besides numeric bodies.
pub open spec fn is_special_word(s: Seq<char>) -> bool {
    ||| (s.len() == 3 && eq_ignore_case(s[0], 'i') && eq_ignore_case(s[1], 'n')
        && eq_ignore_case(s[2], 'f'))
    ||| (s.len() == 8 && eq_ignore_case(s[0], 'i') && eq_ignore_case(s[1], 'n')
        && eq_ignore_case(s[2], 'f') && eq_ignore_case(s[3], 'i') && eq_ignore_case(s[4], 'n')
        && eq_ignore_case(s[5], 'i') && eq_ignore_case(s[6], 't') && eq_ignore_case(s[7], 'y'))
    ||| (s.len() == 3 && eq_ignore_case(s[0], 'n') && eq_ignore_case(s[1], 'a')
        && eq_ignore_case(s[2], 'n'))
}

/// A mantissa: digits, or digits with exactly one decimal point and at least
/// one digit on one of its sides.
pub open spec fn is_mantissa(s: Seq<char>) -> bool {
    ||| (s.len() > 0 && all_digits(s))
    ||| (s.len() >= 2 && exists|k: int|
        0 <= k < s.len() && #[trigger] s[k] == '.' && all_digits(s.take(k)) && all_digits(
            s.skip(k + 1),
        ))
}

/// Marks the start of an exponent.
pub open spec fn is_exp_marker(c: char) -> bool {
    c == 'e' || c == 'E'
}

/// An exponent tail, after the marker: an optional sign, then digits.
pub open spec fn is_exp_tail(s: Seq<char>) -> bool {
    let t = if s.len() > 0 && (s[0] == '+' || s[0] == '-') {
        s.drop_first()
    } else {
        s
    };
    t.len() > 0 && all_digits(t)
}

/// A numeric literal body: a mantissa, optionally followed by an exponent.
pub open spec fn is_numeric_body(s: Seq<char>) -> bool {
    ||| is_mantissa(s)
    ||| exists|k: int|
        0 <= k < s.len() && is_exp_marker(#[trigger] s[k]) && is_mantissa(s.take(k))
            && is_exp_tail(s.skip(k + 1))
}

/// A floating-point literal as std's float parsing accepts it: an optional
/// sign, then an infinity or NaN word or a numeric body.
pub open spec fn is_float_literal(s: Seq<char>) -> bool {
    let t = if s.len() > 0 && (s[0] == '+' || s[0] == '-') {
        s.drop_first()
    } else {
        s
    };
    is_special_word(t) || is_numeric_body(t)
}

/// One decimal digit, decided executably.
fn exec_is_digit(c: char) -> (r: bool)
    ensures
        r == spec_is_digit(c),
{
    let u = c as u32;
    48 <= u && u <= 57
}

/// Case-ignoring character comparison, decided executably.
fn exec_eq_ci(c: char, l: char) -> (r: bool)
    ensures
        r == eq_ignore_case(c, l),
{
    let cu = c as u32 as u64;
    let lu = l as u32 as u64;
    c == l || cu + 32 == lu
}

/// A mantissa holds only digits and the decimal point.
proof fn lemma_mantissa_chars(m: Seq<char>, i: int)
    requires
        is_mantissa(m),
        0 <= i < m.len(),
    ensures
        spec_is_digit(m[i]) || m[i] == '.',
{
    if m.len() > 0 && all_digits(m) {
    } else {
        let k = choose|k: int|
            0 <= k < m.len() && #[trigger] m[k] == '.' && all_digits(m.take(k)) && all_digits(
                m.skip(k + 1),
            );
        if i < k {
            assert(m.take(k)[i] == m[i]);
        } else if i > k {
            assert(m.skip(k + 1)[i - k - 1] == m[i]);
        }
    }
}

/// A mantissa holds at most one decimal point: two dot positions coincide.
proof fn lemma_mantissa_dot_unique(m: Seq<char>, i: int, j: int)
    requires
        is_mantissa(m),
        0 <= i < m.len(),
        0 <= j < m.len(),
        m[i] == '.',
        m[j] == '.',
    ensures
        i == j,
{
    if m.len() > 0 && all_digits(m) {
        assert(spec_is_digit(m[i]));
    } else {
        let k = choose|k: int|
            0 <= k < m.len() && #[trigger] m[k] == '.' && all_digits(m.take(k)) && all_digits(
                m.skip(k + 1),
            );
        if i < k {
            assert(m.take(k)[i] == m[i]);
        } else if i > k {
            assert(m.skip(k + 1)[i - k - 1] == m[i]);
        }
        if j < k {
            assert(m.take(k)[j] == m[j]);
        } else if j > k {
            assert(m.skip(k + 1)[j - k - 1] == m[j]);
        }
    }
}

/// Decides whether the characters of `data` from `a` (inclusive) to `b`
/// (exclusive) form a mantissa.
#[verifier::loop_isolation(false)]
fn check_mantissa(data: &str, a: usize, b: usize) -> (r: bool)
    requires
        a <= b <= data@.len(),
    ensures
        r == is_mantissa(data@.subrange(a as int, b as int)),
{
    let ghost m = data@.subrange(a as int, b as int);
    let mut dot_at: Option<usize> = None;
    let mut idx: usize = a;
    while idx < b
        invariant
            a <= idx <= b <= data@.len(),
            m == data@.subrange(a as int, b as int),
            match dot_at {
                Option::None => all_digits(data@.subrange(a as int, idx as int)),
                Option::Some(d) => a <= d < idx && data@[d as int] == '.' && all_digits(
                    data@.subrange(a as int, d as int),
                ) && all_digits(data@.subrange(d as int + 1, idx as int)),
            },
        decreases b - idx,
    {
        let c = data.get_char(idx);
        if c == '.' {
            match dot_at {
                Option::Some(d) => {
                    proof {
                        if is_mantissa(m) {
                            assert(m[d - a] == data@[d as int]);
                            assert(m[idx - a] == data@[idx as int]);
                            lemma_mantissa_dot_unique(m, d - a, idx - a);
                        }
                    }
                    return false;
                },
                Option::None => {
                    dot_at = Some(idx);
                    proof {
                        assert(data@.subrange(idx as int + 1, idx as int + 1) =~= Seq::<
                            char,
                        >::empty());
                    }
                },
            }
        } else if !exec_is_digit(c) {
            proof {
                if is_mantissa(m) {
                    assert(m[idx - a] == data@[idx as int]);
                    lemma_mantissa_chars(m, idx - a);
                }
            }
            return false;
        } else {
            proof {
                match dot_at {
                    Option::None => {
                        assert(data@.subrange(a as int, idx as int + 1) =~= data@.subrange(
                            a as int,
                            idx as int,
                        ).push(data@[idx as int]));
                    },
                    Option::Some(d) => {
                        assert(data@.subrange(d as int + 1, idx as int + 1) =~= data@.subrange(
                            d as int + 1,
                            idx as int,
                        ).push(data@[idx as int]));
                    },
                }
            }
        }
        idx += 1;
    }
    match dot_at {
        Option::None => {
            proof {
                if b > a {
                    assert(m.len() > 0 && all_digits(m));
                }
            }
            b > a
        },
        Option::Some(d) => {
            proof {
                if b - a >= 2 {
                    let k = d - a;
                    assert(m[k] == data@[d as int]);
                    assert(m.take(k) =~= data@.subrange(a as int, d as int));
                    assert(m.skip(k + 1) =~= data@.subrange(d as int + 1, b as int));
                    assert(is_mantissa(m));
                } else {
                    assert(m.len() == 1);
                    assert(m[0] == '.');
                    assert(!spec_is_digit('.'));
                    assert(!(m.len() > 0 && all_digits(m)));
                }
            }
            b - a >= 2
        },
    }
}

/// Decides whether the characters of `data` from `a` to `b` form an
/// exponent tail: an optional sign, then at least one digit.
#[verifier::loop_isolation(false)]
fn check_exp_tail(data: &str, a: usize, b: usize) -> (r: bool)
    requires
        a <= b <= data@.len(),
    ensures
        r == is_exp_tail(data@.subrange(a as int, b as int)),
{
    let ghost s = data@.subrange(a as int, b as int);
    let start: usize = if a < b {
        let c0 = data.get_char(a);
        if c0 == '+' || c0 == '-' {
            a + 1
        } else {
            a
        }
    } else {
        a
    };
    let ghost t = if s.len() > 0 && (s[0] == '+' || s[0] == '-') {
        s.drop_first()
    } else {
        s
    };
    proof {
        assert(t =~= data@.subrange(start as int, b as int));
    }
    if start >= b {
        return false;
    }
    let mut idx: usize = start;
    while idx < b
        invariant
            start <= idx <= b <= data@.len(),
            t == data@.subrange(start as int, b as int),
            all_digits(data@.subrange(start as int, idx as int)),
        decreases b - idx,
    {
        let c = data.get_char(idx);
        if !exec_is_digit(c) {
            proof {
                assert(t[idx - start] == data@[idx as int]);
            }
            return false;
        }
        proof {
            assert(data@.subrange(start as int, idx as int + 1) =~= data@.subrange(
                start as int,
                idx as int,
            ).push(data@[idx as int]));
        }
        idx += 1;
    }
    true
}

/// Finds the first exponent marker at or after `from`, or `to` if none.
#[verifier::loop_isolation(false)]
fn find_marker(data: &str, from: usize, to: usize) -> (r: usize)
    requires
        from <= to <= data@.len(),
    ensures
        from <= r <= to,
        forall|p: int| from <= p < r ==> !is_exp_marker(#[trigger] data@[p]),
        r < to ==> is_exp_marker(data@[r as int]),
{
    let mut j: usize = from;
    while j < to
        invariant
            from <= j <= to <= data@.len(),
            forall|p: int| from <= p < j ==> !is_exp_marker(#[trigger] data@[p]),
        decreases to - j,
    {
        let c = data.get_char(j);
        if c == 'e' || c == 'E' {
            return j;
        }
        j += 1;
    }
    j
}

/// Decides whether the characters of `data` from `from` to `to` spell one of
/// the infinity or NaN words.
fn check_special(data: &str, from: usize, to: usize) -> (r: bool)
    requires
        from <= to <= data@.len(),
    ensures
        r == is_special_word(data@.subrange(from as int, to as int)),
{
    let len = to - from;
    if len == 3 {
        let c0 = data.get_char(from);
        let c1 = data.get_char(from + 1);
        let c2 = data.get_char(from + 2);
        let inf = exec_eq_ci(c0, 'i') && exec_eq_ci(c1, 'n') && exec_eq_ci(c2, 'f');
        let nan = exec_eq_ci(c0, 'n') && exec_eq_ci(c1, 'a') && exec_eq_ci(c2, 'n');
        inf || nan
    } else if len == 8 {
        let c0 = data.get_char(from);
        let c1 = data.get_char(from + 1);
        let c2 = data.get_char(from + 2);
        let c3 = data.get_char(from + 3);
        let c4 = data.get_char(from + 4);
        let c5 = data.get_char(from + 5);
        let c6 = data.get_char(from + 6);
        let c7 = data.get_char(from + 7);
        exec_eq_ci(c0, 'i') && exec_eq_ci(c1, 'n') && exec_eq_ci(c2, 'f') && exec_eq_ci(c3, 'i')
            && exec_eq_ci(c4, 'n') && exec_eq_ci(c5, 'i') && exec_eq_ci(c6, 't') && exec_eq_ci(
            c7,
            'y',
        )
    } else {
        false
    }
}

/// Decides whether a whole token is a floating-point literal of the
/// documented grammar.
#[verifier::loop_isolation(false)]
fn is_float_token(data: &str) -> (r: bool)
    ensures
        r == is_float_literal(data@),
{
    let n = data.unicode_len();
    let body: usize = if n > 0 {
        let c0 = data.get_char(0);
        if c0 == '+' || c0 == '-' {
            1
        } else {
            0
        }
    } else {
        0
    };
    let ghost t = if data@.len() > 0 && (data@[0] == '+' || data@[0] == '-') {
        data@.drop_first()
    } else {
        data@
    };
    proof {
        assert(t =~= data@.subrange(body as int, n as int));
    }
    if check_special(data, body, n) {
        return true;
    }
    let j = find_marker(data, body, n);
    if j == n {
        let r = check_mantissa(data, body, n);
        proof {
            if !r && is_numeric_body(t) {
                let k = choose|k: int|
                    0 <= k < t.len() && is_exp_marker(#[trigger] t[k]) && is_mantissa(t.take(k))
                        && is_exp_tail(t.skip(k + 1));
                assert(t[k] == data@[body + k]);
            }
        }
        r
    } else {
        let rm = check_mantissa(data, body, j);
        let re = check_exp_tail(data, j + 1, n);
        let ghost kj = j - body;
        proof {
            assert(t[kj] == data@[j as int]);
            assert(t.take(kj) =~= data@.subrange(body as int, j as int));
            assert(t.skip(kj + 1) =~= data@.subrange(j as int + 1, n as int));
            if rm && re {
                assert(is_numeric_body(t));
            } else if is_numeric_body(t) {
                if is_mantissa(t) {
                    lemma_mantissa_chars(t, kj);
                    assert(false);
                } else {
                    let k = choose|k: int|
                        0 <= k < t.len() && is_exp_marker(#[trigger] t[k]) && is_mantissa(
                            t.take(k),
                        ) && is_exp_tail(t.skip(k + 1));
                    assert(t[k] == data@[body + k]);
                    if k < kj {
                        assert(false);
                    } else if k > kj {
                        assert(t.take(k)[kj] == t[kj]);
                        lemma_mantissa_chars(t.take(k), kj);
                        assert(false);
                    }
                    assert(k == kj);
                    assert(false);
                }
            }
        }
        rm && re
    }
}

/// The token is exactly `true`.
pub open spec fn is_true_word(s: Seq<char>) -> bool {
    s.len() == 4 && s[0] == 't' && s[1] == 'r' && s[2] == 'u' && s[3] == 'e'
}

/// The token is exactly `false`.
pub open spec fn is_false_word(s: Seq<char>) -> bool {
    s.len() == 5 && s[0] == 'f' && s[1] == 'a' && s[2] == 'l' && s[3] == 's' && s[4] == 'e'
}

/// Whether std's Unicode tables class `c` as alphabetic; the answer depends
/// on the character alone.
pub uninterp spec fn is_alpha(c: char) -> bool;

/// Relies on char::is_alphabetic: whether `c` has the Unicode Alphabetic
/// property, a property of the character alone. The quotation mark is
/// punctuation, not alphabetic.
#[verifier::external_body]
fn char_is_alphabetic(c: char) -> (r: bool)
    ensures
        r == is_alpha(c),
        c == '"' ==> !r,
{
    c.is_alphabetic()
}

/// The array scanner's element state: what kind of element the current
/// buffer is assumed to hold.
#[derive(Clone, Copy, Debug)]
pub enum ParseState {
    Begin,
    Number,
    Boolean,
    Array,
    Str,
}

/// One pass of the array-body scanner over the characters still to read.
///
/// `rest` is what remains of the text between the outer brackets (the
/// closing bracket included), `buf` the characters of the element being
/// collected, `depth` the bracket depth inside an array element, and `acc`
/// the shapes of the elements already parsed. A completed element is handed
/// back to `spec_parse`; its failure aborts the whole scan.
pub open spec fn scan_elems(
    rest: Seq<char>,
    state: ParseState,
    buf: Seq<char>,
    depth: int,
    acc: Seq<SpecValue>,
) -> Result<Seq<SpecValue>, VariableParseError>
    decreases rest.len() + buf.len(), 1int, rest.len(),
{
    if rest.len() <= 0 {
        Ok(acc)
    } else {
        let c = rest[0];
        let rest2 = rest.skip(1);
        match state {
            ParseState::Begin => {
                let state2 = if spec_is_digit(c) {
                    ParseState::Number
                } else if is_alpha(c) {
                    ParseState::Boolean
                } else if c == '[' {
                    ParseState::Array
                } else if c == '"' {
                    ParseState::Str
                } else {
                    ParseState::Begin
                };
                let depth2 = if !spec_is_digit(c) && !is_alpha(c) && c == '[' {
                    1int
                } else {
                    depth
                };
                scan_elems(rest2, state2, seq![c], depth2, acc)
            },
            ParseState::Number => {
                if c == ',' || c == ']' {
                    match spec_parse(buf) {
                        Ok(v) => scan_elems(rest2, ParseState::Begin, seq![c], depth, acc.push(v)),
                        Err(e) => Err(e),
                    }
                } else {
                    scan_elems(rest2, ParseState::Number, buf.push(c), depth, acc)
                }
            },
            ParseState::Boolean => {
                if c == ',' || c == ']' {
                    match spec_parse(buf) {
                        Ok(v) => scan_elems(rest2, ParseState::Begin, seq![c], depth, acc.push(v)),
                        Err(e) => Err(e),
                    }
                } else {
                    scan_elems(rest2, ParseState::Boolean, buf.push(c), depth, acc)
                }
            },
            ParseState::Array => {
                let buf2 = buf.push(c);
                let depth2 = if c == '[' {
                    depth + 1
                } else if c == ']' {
                    depth - 1
                } else {
                    depth
                };
                if depth2 == 0 {
                    match spec_parse(buf2) {
                        Ok(v) => scan_elems(
                            rest2,
                            ParseState::Begin,
                            Seq::empty(),
                            depth2,
                            acc.push(v),
                        ),
                        Err(e) => Err(e),
                    }
                } else {
                    scan_elems(rest2, ParseState::Array, buf2, depth2, acc)
                }
            },
            ParseState::Str => {
                let buf2 = buf.push(c);
                if c == '"' {
                    match spec_parse(buf2) {
                        Ok(v) => scan_elems(rest2, ParseState::Begin, Seq::empty(), depth, acc.push(v)),
                        Err(e) => Err(e),
                    }
                } else {
                    scan_elems(rest2, ParseState::Str, buf2, depth, acc)
                }
            },
        }
    }
}

/// Wraps a scan outcome the way `spec_parse` reports it for an array token.
pub open spec fn wrap_scan(r: Result<Seq<SpecValue>, VariableParseError>) -> Result<
    SpecValue,
    VariableParseError,
> {
    match r {
        Ok(elems) => Ok(SpecValue::Array(elems)),
        Err(e) => Err(e),
    }
}

/// What parsing the token `s` yields: the value's shape, or the error.
///
/// The token is classified as a whole, in the same order the parser tries:
/// empty, the two boolean words, an array (which must end with `]` and whose
/// body `scan_elems` splits), a string (which must end with `"`; the value is
/// everything strictly between the outer quotes, unprocessed), and last a
/// floating-point literal.
pub open spec fn spec_parse(s: Seq<char>) -> Result<SpecValue, VariableParseError>
    decreases s.len(), 0int, 0int,
{
    if s.len() == 0 {
        Err(VariableParseError::NothingToParse)
    } else if is_true_word(s) {
        Ok(SpecValue::Boolean(true))
    } else if is_false_word(s) {
        Ok(SpecValue::Boolean(false))
    } else if s[0] == '[' {
        if s.last() != ']' {
            Err(VariableParseError::ArrayNoClosingBracket)
        } else {
            wrap_scan(scan_elems(s.skip(1), ParseState::Begin, Seq::empty(), 0, Seq::empty()))
        }
    } else if s[0] == '"' {
        if s.last() != '"' {
            Err(VariableParseError::StringNoClosingQuote)
        } else {
            Ok(SpecValue::Str(s.subrange(1, s.len() - 1)))
        }
    } else if is_float_literal(s) {
        Ok(SpecValue::Number(s))
    } else {
        Err(VariableParseError::NumberBadData)
    }
}

/// Pushing a value onto a list extends the list's shapes by that value's
/// shape.
proof fn lemma_deep_seq_push(items: Seq<VariableType>, v: VariableType)
    ensures
        deep_seq(items.push(v)) == deep_seq(items).push(v.deep()),
    decreases items.len(),
{
    let p = items.push(v);
    if items.len() == 0 {
        assert(p.subrange(1, p.len() as int) =~= Seq::<VariableType>::empty());
        assert(deep_seq(Seq::<VariableType>::empty()) == Seq::<SpecValue>::empty());
        assert(deep_seq(p) == seq![p[0].deep()] + deep_seq(p.subrange(1, p.len() as int)));
        assert(deep_seq(p) =~= deep_seq(items).push(v.deep()));
    } else {
        assert(p.subrange(1, p.len() as int) =~= items.subrange(1, items.len() as int).push(v));
        lemma_deep_seq_push(items.subrange(1, items.len() as int), v);
        assert(p[0] == items[0]);
        assert(deep_seq(p) == seq![p[0].deep()] + deep_seq(p.subrange(1, p.len() as int)));
        assert(deep_seq(items) == seq![items[0].deep()] + deep_seq(
            items.subrange(1, items.len() as int),
        ));
        assert(deep_seq(p) =~= deep_seq(items).push(v.deep()));
    }
}

/// Parsing is pure: it is a function of the text alone, so two parses of the
/// same text yield the same outcome, and with it structurally equal values.
pub proof fn lemma_parse_pure(s1: Seq<char>, s2: Seq<char>)
    requires
        s1 == s2,
    ensures
        spec_parse(s1) == spec_parse(s2),
{
}

/// A token that opens no array or string, is not `true` or `false`, and
/// starts with no sign, digit or decimal point — an alphabetic-leading word,
/// in particular — parses as a number exactly when it spells an infinity or
/// NaN word; every other such token fails with `NumberBadData`.
pub proof fn lemma_word_token(s: Seq<char>)
    requires
        s.len() > 0,
        !is_true_word(s),
        !is_false_word(s),
        s[0] != '[',
        s[0] != '"',
        s[0] != '+',
        s[0] != '-',
        s[0] != '.',
        !spec_is_digit(s[0]),
    ensures
        spec_parse(s) == (if is_special_word(s) {
            Ok::<SpecValue, VariableParseError>(SpecValue::Number(s))
        } else {
            Err::<SpecValue, VariableParseError>(VariableParseError::NumberBadData)
        }),
{
    if is_mantissa(s) {
        lemma_mantissa_chars(s, 0);
    }
    if is_numeric_body(s) && !is_mantissa(s) {
        let k = choose|k: int|
            0 <= k < s.len() && is_exp_marker(#[trigger] s[k]) && is_mantissa(s.take(k))
                && is_exp_tail(s.skip(k + 1));
        if k == 0 {
            assert(s.take(0).len() == 0);
        } else {
            assert(s.take(k)[0] == s[0]);
            lemma_mantissa_chars(s.take(k), 0);
        }
    }
    assert(!is_numeric_body(s));
}

/// Decides whether the token is exactly `true`.
fn is_true_token(data: &str) -> (r: bool)
    ensures
        r == is_true_word(data@),
{
    if data.unicode_len() != 4 {
        return false;
    }
    data.get_char(0) == 't' && data.get_char(1) == 'r' && data.get_char(2) == 'u'
        && data.get_char(3) == 'e'
}

/// Decides whether the token is exactly `false`.
fn is_false_token(data: &str) -> (r: bool)
    ensures
        r == is_false_word(data@),
{
    if data.unicode_len() != 5 {
        return false;
    }
    data.get_char(0) == 'f' && data.get_char(1) == 'a' && data.get_char(2) == 'l'
        && data.get_char(3) == 's' && data.get_char(4) == 'e'
}

impl VariableType {
    /// Parses one token into a typed value, or reports which syntactic rule
    /// failed; the outcome is exactly what `spec_parse` states for the text.
    ///
    /// The one-character token `"` is excluded: its single quote would have
    /// to serve as both the opening and the closing delimiter, leaving no
    /// interior to take.
    #[verifier::loop_isolation(false)]
    pub fn get_type_from_string(data: &str) -> (r: Result<VariableType, VariableParseError>)
        requires
            data@ != seq!['"'],
        ensures
            res_deep(r) == spec_parse(data@),
        decreases data@.len(),
    {
        let n = data.unicode_len();
        if n == 0 {
            return Err(VariableParseError::NothingToParse);
        }
        if is_true_token(data) {
            return Ok(VariableType::Boolean(true));
        }
        if is_false_token(data) {
            return Ok(VariableType::Boolean(false));
        }
        let c0 = data.get_char(0);
        if c0 == '[' {
            if data.get_char(n - 1) != ']' {
                return Err(VariableParseError::ArrayNoClosingBracket);
            }
            let mut state = ParseState::Begin;
            let mut elems: Vec<VariableType> = Vec::new();
            let mut start: usize = 0;
            let mut depth: usize = 0;
            let ghost mut gbuf: Seq<char> = Seq::empty();
            let ghost mut gdepth: int = 0;
            let mut i: usize = 1;
            while i < n
                invariant
                    1 <= i <= n,
                    match state {
                        ParseState::Begin => true,
                        ParseState::Number => 1 <= start < i && gbuf == data@.subrange(
                            start as int,
                            i as int,
                        ) && spec_is_digit(data@[start as int]),
                        ParseState::Boolean => 1 <= start < i && gbuf == data@.subrange(
                            start as int,
                            i as int,
                        ) && data@[start as int] != '"',
                        ParseState::Array => 1 <= start < i && gbuf == data@.subrange(
                            start as int,
                            i as int,
                        ) && data@[start as int] == '[' && gdepth == depth && 1 <= depth <= i,
                        ParseState::Str => 1 <= start < i && gbuf == data@.subrange(
                            start as int,
                            i as int,
                        ) && data@[start as int] == '"',
                    },
                    wrap_scan(
                        scan_elems(data@.skip(i as int), state, gbuf, gdepth, deep_seq(elems@)),
                    ) == spec_parse(data@),
                decreases n - i,
            {
                let c = data.get_char(i);
                proof {
                    assert(data@.skip(i as int)[0] == data@[i as int]);
                    assert(data@.skip(i as int).skip(1) =~= data@.skip(i as int + 1));
                }
                match state {
                    ParseState::Begin => {
                        start = i;
                        if exec_is_digit(c) {
                            state = ParseState::Number;
                        } else if char_is_alphabetic(c) {
                            state = ParseState::Boolean;
                        } else if c == '[' {
                            state = ParseState::Array;
                            depth = 1;
                            proof {
                                gdepth = 1;
                            }
                        } else if c == '"' {
                            state = ParseState::Str;
                        }
                        proof {
                            gbuf = seq![c];
                            assert(data@.subrange(i as int, i as int + 1) =~= seq![c]);
                        }
                    },
                    ParseState::Number => {
                        if c == ',' || c == ']' {
                            let sub = data.substring_char(start, i);
                            proof {
                                assert(!spec_is_digit('"'));
                                assert(sub@[0] == data@[start as int]);
                            }
                            match Self::get_type_from_string(sub) {
                                Ok(v) => {
                                    proof {
                                        lemma_deep_seq_push(elems@, v);
                                    }
                                    elems.push(v);
                                    state = ParseState::Begin;
                                    proof {
                                        gbuf = seq![c];
                                    }
                                },
                                Err(e) => {
                                    return Err(e);
                                },
                            }
                        } else {
                            proof {
                                assert(data@.subrange(start as int, i as int + 1)
                                    =~= data@.subrange(start as int, i as int).push(
                                    data@[i as int],
                                ));
                                gbuf = gbuf.push(c);
                            }
                        }
                    },
                    ParseState::Boolean => {
                        if c == ',' || c == ']' {
                            let sub = data.substring_char(start, i);
                            proof {
                                assert(sub@[0] == data@[start as int]);
                            }
                            match Self::get_type_from_string(sub) {
                                Ok(v) => {
                                    proof {
                                        lemma_deep_seq_push(elems@, v);
                                    }
                                    elems.push(v);
                                    state = ParseState::Begin;
                                    proof {
                                        gbuf = seq![c];
                                    }
                                },
                                Err(e) => {
                                    return Err(e);
                                },
                            }
                        } else {
                            proof {
                                assert(data@.subrange(start as int, i as int + 1)
                                    =~= data@.subrange(start as int, i as int).push(
                                    data@[i as int],
                                ));
                                gbuf = gbuf.push(c);
                            }
                        }
                    },
                    ParseState::Array => {
                        proof {
                            assert(data@.subrange(start as int, i as int + 1) =~= data@.subrange(
                                start as int,
                                i as int,
                            ).push(data@[i as int]));
                            gbuf = gbuf.push(c);
                        }
                        if c == '[' {
                            depth += 1;
                            proof {
                                gdepth = gdepth + 1;
                            }
                        } else if c == ']' {
                            depth -= 1;
                            proof {
                                gdepth = gdepth - 1;
                            }
                            if depth == 0 {
                                let sub = data.substring_char(start, i + 1);
                                proof {
                                    assert(sub@[0] == data@[start as int]);
                                }
                                match Self::get_type_from_string(sub) {
                                    Ok(v) => {
                                        proof {
                                            lemma_deep_seq_push(elems@, v);
                                        }
                                        elems.push(v);
                                        state = ParseState::Begin;
                                        proof {
                                            gbuf = Seq::empty();
                                        }
                                    },
                                    Err(e) => {
                                        return Err(e);
                                    },
                                }
                            }
                        }
                    },
                    ParseState::Str => {
                        proof {
                            assert(data@.subrange(start as int, i as int + 1) =~= data@.subrange(
                                start as int,
                                i as int,
                            ).push(data@[i as int]));
                            gbuf = gbuf.push(c);
                        }
                        if c == '"' {
                            let sub = data.substring_char(start, i + 1);
                            proof {
                                assert(sub@.len() >= 2);
                            }
                            match Self::get_type_from_string(sub) {
                                Ok(v) => {
                                    proof {
                                        lemma_deep_seq_push(elems@, v);
                                    }
                                    elems.push(v);
                                    state = ParseState::Begin;
                                    proof {
                                        gbuf = Seq::empty();
                                    }
                                },
                                Err(e) => {
                                    return Err(e);
                                },
                            }
                        }
                    },
                }
                i += 1;
            }
            proof {
                assert(data@.skip(n as int).len() == 0);
            }
            return Ok(VariableType::Array(elems));
        }
        if c0 == '"' {
            if data.get_char(n - 1) != '"' {
                return Err(VariableParseError::StringNoClosingQuote);
            }
            proof {
                if n == 1 {
                    assert(data@ =~= seq!['"']);
                }
            }
            let inner = data.substring_char(1, n - 1);
            return Ok(VariableType::Str(String::from_str(inner)));
        }
        if is_float_token(data) {
            return Ok(VariableType::Number(String::from_str(data)));
        }
        Err(VariableParseError::NumberBadData)
    }
}

} // verus!

