//! Parsing of position-list strings such as `"1,3,5-8"`.
//!
//! A specification string is split on `,` into tokens.  A token is either
//! a single 1-based index (`"7"`, giving the range `[6, 7)`) or a pair of
//! 1-based inclusive bounds (`"3-5"`, giving the range `[2, 5)`).  A token
//! that fits neither form, names the index `0`, or writes a bound with a
//! leading `+` is rejected.

use vstd::prelude::*;

verus! {

use core::ops::Range;

/// An ordered list of half-open 0-based ranges, one per token of the
/// specification string, in the order the user wrote them.
pub type PositionList = Vec<Range<usize>>;

/// Why a position-list string was rejected.
#[derive(Debug, PartialEq, Eq)]
pub enum ParseError {
    /// The quoted token (or range endpoint) is not a positive integer.
    IllegalValue(String),
    /// A two-sided token whose first 1-based bound (the first field) is not
    /// strictly below its second (the second field).
    InvalidRangeOrder(usize, usize),
}

/// The digit character for the value `d`, for `0 <= d <= 9`.
pub open spec fn digit_char(d: int) -> char {
    if d == 0 {
        '0'
    } else if d == 1 {
        '1'
    } else if d == 2 {
        '2'
    } else if d == 3 {
        '3'
    } else if d == 4 {
        '4'
    } else if d == 5 {
        '5'
    } else if d == 6 {
        '6'
    } else if d == 7 {
        '7'
    } else if d == 8 {
        '8'
    } else {
        '9'
    }
}

/// The decimal spelling of `n`, most significant digit first, with no
/// leading zeros (a lone `0` for zero).
pub open spec fn dec_digits(n: int) -> Seq<char>
    recommends
        n >= 0,
    decreases n,
{
    if n < 10 {
        seq![digit_char(n)]
    } else {
        dec_digits(n / 10) + seq![digit_char(n % 10)]
    }
}

/// The diagnostic line for a parse error, exactly as the host tool
/// prints it.
pub open spec fn message_spec(e: ParseError) -> Seq<char> {
    match e {
        ParseError::IllegalValue(t) => "illegal list value: \""@ + t@ + "\""@,
        ParseError::InvalidRangeOrder(a, b) => "First number in range ("@ + dec_digits(a as int)
            + ") must be lower than second number ("@ + dec_digits(b as int) + ")"@,
    }
}

/// `c` is one of the ten ASCII digits.
pub open spec fn is_digit(c: char) -> bool {
    48 <= c as u32 <= 57
}

/// Every character of `t` is an ASCII digit.
pub open spec fn all_digits(t: Seq<char>) -> bool {
    forall|i: int| 0 <= i < t.len() ==> is_digit(#[trigger] t[i])
}

/// The numeric value of the digit string `t`, most significant digit first.
pub open spec fn digits_val(t: Seq<char>) -> int
    decreases t.len(),
{
    if t.len() == 0 {
        0
    } else {
        digits_val(t.drop_last()) * 10 + (t.last() as u32 - 48)
    }
}

/// `t` is a well-formed single-index token: one or more digits (no sign),
/// with a value that is positive and representable.
pub open spec fn valid_index_token(t: Seq<char>) -> bool {
    &&& t.len() > 0
    &&& all_digits(t)
    &&& 1 <= digits_val(t) <= usize::MAX
}

/// `e` quotes exactly the text `t` as an illegal list value.
pub open spec fn is_illegal_err(e: ParseError, t: Seq<char>) -> bool {
    e matches ParseError::IllegalValue(tok) && tok@ == t
}

/// What [`parse_idx`] returns on the token `t`: the 0-based index on a
/// well-formed positive token, and an error quoting `t` otherwise.
pub open spec fn index_token_post(t: Seq<char>, r: Result<usize, ParseError>) -> bool {
    &&& r is Ok <==> valid_index_token(t)
    &&& r matches Ok(v) ==> v + 1 == digits_val(t)
    &&& r matches Err(e) ==> is_illegal_err(e, t)
}

/// The index of the first occurrence of `c` in `t`, or `t.len()` if `c`
/// does not occur.
pub open spec fn first_at(t: Seq<char>, c: char) -> int
    decreases t.len(),
{
    if t.len() == 0 {
        0
    } else if t[0] == c {
        0
    } else {
        1 + first_at(t.skip(1), c)
    }
}

/// A scan that saw no `c` before `d`, and `c` at `d` (unless `d` is the
/// length), determines `first_at`.
proof fn lemma_first_at_is(t: Seq<char>, c: char, d: int)
    requires
        0 <= d <= t.len(),
        forall|m: int| 0 <= m < d ==> t[m] != c,
        d < t.len() ==> t[d] == c,
    ensures
        first_at(t, c) == d,
    decreases t.len(),
{
    if t.len() > 0 && t[0] != c {
        assert forall|m: int| 0 <= m < d - 1 implies t.skip(1)[m] != c by {
            assert(t.skip(1)[m] == t[m + 1]);
        }
        assert(d - 1 < t.skip(1).len() ==> t.skip(1)[d - 1] == c);
        lemma_first_at_is(t.skip(1), c, d - 1);
    }
}

/// `t` is shaped like a range endpoint: one or more digits, with an
/// optional leading `+`.  (A leading `+` is shaped like an endpoint but is
/// still rejected by the single-index rule, so the error can quote the
/// endpoint alone.)
pub open spec fn endpoint_shape(t: Seq<char>) -> bool {
    if t.len() > 0 && t[0] == '+' {
        t.len() > 1 && all_digits(t.skip(1))
    } else {
        t.len() > 0 && all_digits(t)
    }
}

/// The text before the first `-` of a two-sided token.
pub open spec fn range_lhs(t: Seq<char>) -> Seq<char> {
    t.take(first_at(t, '-'))
}

/// The text after the first `-` of a two-sided token.
pub open spec fn range_rhs(t: Seq<char>) -> Seq<char> {
    t.skip(first_at(t, '-') + 1)
}

/// `t` is recognizable as a two-sided range token: endpoint, `-`, endpoint.
pub open spec fn is_range_token(t: Seq<char>) -> bool {
    &&& first_at(t, '-') < t.len()
    &&& endpoint_shape(range_lhs(t))
    &&& endpoint_shape(range_rhs(t))
}

/// A recognizable range token whose endpoints are valid positive indices
/// in strictly increasing order.
pub open spec fn range_token_ok(t: Seq<char>) -> bool {
    &&& is_range_token(t)
    &&& valid_index_token(range_lhs(t))
    &&& valid_index_token(range_rhs(t))
    &&& digits_val(range_lhs(t)) < digits_val(range_rhs(t))
}

/// `e` names the two 1-based bounds of a reversed (or collapsed) range.
pub open spec fn is_order_err(e: ParseError, a: int, b: int) -> bool {
    e matches ParseError::InvalidRangeOrder(x, y) && x == a && y == b
}

/// The error [`parse_range`] reports on the token `t`: an unrecognizable
/// token is quoted whole; a recognizable one has its first malformed
/// endpoint quoted alone; otherwise the bounds are out of order.
pub open spec fn range_token_err(t: Seq<char>, e: ParseError) -> bool {
    if !is_range_token(t) {
        is_illegal_err(e, t)
    } else if !valid_index_token(range_lhs(t)) {
        is_illegal_err(e, range_lhs(t))
    } else if !valid_index_token(range_rhs(t)) {
        is_illegal_err(e, range_rhs(t))
    } else {
        &&& digits_val(range_lhs(t)) >= digits_val(range_rhs(t))
        &&& is_order_err(e, digits_val(range_lhs(t)), digits_val(range_rhs(t)))
    }
}

/// What [`parse_range`] returns on the token `t`.
pub open spec fn range_token_post(t: Seq<char>, r: Result<Range<usize>, ParseError>) -> bool {
    &&& r is Ok <==> range_token_ok(t)
    &&& r matches Ok(rg) ==> rg.start + 1 == digits_val(range_lhs(t)) && rg.end == digits_val(
        range_rhs(t),
    )
    &&& r matches Err(e) ==> range_token_err(t, e)
}

/// `r == endpoint_shape(s@)`, decided by one scan.
fn is_endpoint_shape(s: &str) -> (r: bool)
    ensures
        r == endpoint_shape(s@),
{
    let n = s.unicode_len();
    if n == 0 {
        return false;
    }
    let first = s.get_char(0);
    let start: usize = if first == '+' {
        1
    } else {
        0
    };
    if start == n {
        return false;
    }
    let mut i: usize = start;
    while i < n
        invariant
            start <= i <= n,
            n == s@.len(),
            start == 0 || start == 1,
            start == 1 ==> s@[0] == '+',
            start == 0 ==> s@[0] != '+',
            start < n,
            forall|m: int| start <= m < i ==> is_digit(#[trigger] s@[m]),
        decreases n - i,
    {
        let c = s.get_char(i);
        let cu = c as u32;
        if cu < 48 || cu > 57 {
            proof {
                if start == 1 {
                    assert(s@.skip(1)[i - 1] == s@[i as int]);
                }
            }
            return false;
        }
        i += 1;
    }
    proof {
        if start == 1 {
            assert(forall|m: int| 0 <= m < s@.skip(1).len() ==> s@.skip(1)[m] == s@[m + 1]);
        }
    }
    true
}

/// Parse one token as a two-sided 1-based inclusive range `a-b` and
/// convert it to the half-open 0-based range `[a-1, b)`.
///
/// A token that is not endpoint`-`endpoint is quoted whole as an
/// [`ParseError::IllegalValue`]; a malformed endpoint (zero, a leading
/// `+`, or an unrepresentable value) is quoted alone, first endpoint
/// first; and well-formed bounds with `a >= b` give
/// [`ParseError::InvalidRangeOrder`] naming both 1-based bounds.
pub fn parse_range(s: &str) -> (r: Result<Range<usize>, ParseError>)
    ensures
        range_token_post(s@, r),
{
    let n = s.unicode_len();
    let mut d: usize = 0;
    while d < n && s.get_char(d) != '-'
        invariant
            0 <= d <= n,
            n == s@.len(),
            forall|m: int| 0 <= m < d ==> s@[m] != '-',
        decreases n - d,
    {
        d += 1;
    }
    proof {
        lemma_first_at_is(s@, '-', d as int);
    }
    if d == n {
        return Err(ParseError::IllegalValue(s.to_owned()));
    }
    let lhs = s.substring_char(0, d);
    let rhs = s.substring_char(d + 1, n);
    proof {
        assert(lhs@ =~= range_lhs(s@));
        assert(rhs@ =~= range_rhs(s@));
    }
    if !is_endpoint_shape(lhs) || !is_endpoint_shape(rhs) {
        return Err(ParseError::IllegalValue(s.to_owned()));
    }
    let a = match parse_idx(lhs) {
        Ok(v) => v,
        Err(e) => {
            return Err(e);
        },
    };
    let b = match parse_idx(rhs) {
        Ok(v) => v,
        Err(e) => {
            return Err(e);
        },
    };
    if a >= b {
        return Err(ParseError::InvalidRangeOrder(a + 1, b + 1));
    }
    Ok(Range { start: a, end: b + 1 })
}

/// Parse one token as a 1-based positive index and convert it to 0-based.
///
/// The token must be all digits (so a leading `+` is rejected), non-zero,
/// and no larger than `usize::MAX`; any violation is reported as an
/// [`ParseError::IllegalValue`] quoting the token verbatim.
pub fn parse_idx(s: &str) -> (r: Result<usize, ParseError>)
    ensures
        index_token_post(s@, r),
{
    let n = s.unicode_len();
    if n == 0 {
        return Err(ParseError::IllegalValue(s.to_owned()));
    }
    let mut val: usize = 0;
    let mut overflow = false;
    let mut i: usize = 0;
    while i < n
        invariant
            0 <= i <= n,
            n == s@.len(),
            all_digits(s@.take(i as int)),
            !overflow ==> val == digits_val(s@.take(i as int)),
            overflow ==> digits_val(s@.take(i as int)) > usize::MAX,
        decreases n - i,
    {
        let c = s.get_char(i);
        let cu = c as u32;
        if cu < 48 || cu > 57 {
            return Err(ParseError::IllegalValue(s.to_owned()));
        }
        let d = (cu - 48) as usize;
        proof {
            assert(s@.take(i + 1).drop_last() =~= s@.take(i as int));
            assert(s@.take(i + 1).last() == s@[i as int]);
        }
        if !overflow {
            if val > (usize::MAX - d) / 10 {
                overflow = true;
            } else {
                val = val * 10 + d;
            }
        }
        i += 1;
    }
    proof {
        assert(s@.take(n as int) =~= s@);
    }
    if overflow || val == 0 {
        return Err(ParseError::IllegalValue(s.to_owned()));
    }
    Ok(val - 1)
}

/// The token `t` is acceptable, either as a single index or as a range.
pub open spec fn token_ok(t: Seq<char>) -> bool {
    valid_index_token(t) || range_token_ok(t)
}

/// The 0-based inclusive start of the range that the token `t` denotes.
pub open spec fn token_start(t: Seq<char>) -> int {
    if valid_index_token(t) {
        digits_val(t) - 1
    } else {
        digits_val(range_lhs(t)) - 1
    }
}

/// The 0-based exclusive end of the range that the token `t` denotes.
pub open spec fn token_end(t: Seq<char>) -> int {
    if valid_index_token(t) {
        digits_val(t)
    } else {
        digits_val(range_rhs(t))
    }
}

/// The error reported for the token `t`: a token with a `-` is judged by
/// the range rule, any other unacceptable token is quoted whole.
pub open spec fn token_err(t: Seq<char>, e: ParseError) -> bool {
    if first_at(t, '-') < t.len() {
        range_token_err(t, e)
    } else {
        !valid_index_token(t) && is_illegal_err(e, t)
    }
}

/// What parsing one comma-separated token returns.
pub open spec fn token_post(t: Seq<char>, r: Result<Range<usize>, ParseError>) -> bool {
    &&& r is Ok <==> token_ok(t)
    &&& r matches Ok(rg) ==> rg.start == token_start(t) && rg.end == token_end(t)
    &&& r matches Err(e) ==> token_err(t, e)
}

/// A digit string contains no `-`, so no single-index token is also a
/// range token.
proof fn lemma_all_digits_no_dash(t: Seq<char>)
    requires
        all_digits(t),
    ensures
        first_at(t, '-') == t.len(),
{
    assert(forall|m: int| 0 <= m < t.len() ==> t[m] != '-');
    lemma_first_at_is(t, '-', t.len() as int);
}

/// Parse one comma-separated token: a token without `-` by the
/// single-index rule, any other by the range rule.
fn parse_token(s: &str) -> (r: Result<Range<usize>, ParseError>)
    ensures
        token_post(s@, r),
{
    let n = s.unicode_len();
    let mut d: usize = 0;
    while d < n && s.get_char(d) != '-'
        invariant
            0 <= d <= n,
            n == s@.len(),
            forall|m: int| 0 <= m < d ==> s@[m] != '-',
        decreases n - d,
    {
        d += 1;
    }
    proof {
        lemma_first_at_is(s@, '-', d as int);
    }
    if d == n {
        proof {
            if valid_index_token(s@) {
                lemma_all_digits_no_dash(s@);
            }
        }
        match parse_idx(s) {
            Ok(v) => Ok(Range { start: v, end: v + 1 }),
            Err(e) => Err(e),
        }
    } else {
        proof {
            assert(!is_digit(s@[d as int]));
            assert(!valid_index_token(s@));
        }
        parse_range(s)
    }
}

/// The comma-separated tokens of `s`, in order.  Splitting keeps empty
/// pieces, so `""` has one (empty) token and `"1,"` has two.
pub open spec fn split_commas(s: Seq<char>) -> Seq<Seq<char>>
    decreases s.len(),
{
    let d = first_at(s, ',');
    if 0 <= d < s.len() {
        seq![s.take(d)] + split_commas(s.skip(d + 1))
    } else {
        seq![s]
    }
}

/// Every token of `toks` is acceptable.
pub open spec fn all_tokens_ok(toks: Seq<Seq<char>>) -> bool {
    forall|i: int| 0 <= i < toks.len() ==> token_ok(#[trigger] toks[i])
}

/// The index of the first unacceptable token, or `toks.len()` if all are
/// acceptable.
pub open spec fn first_bad_token(toks: Seq<Seq<char>>) -> int
    decreases toks.len(),
{
    if toks.len() == 0 {
        0
    } else if !token_ok(toks[0]) {
        0
    } else {
        1 + first_bad_token(toks.skip(1))
    }
}

/// A scan that found the tokens before `k` acceptable and token `k` not
/// determines `first_bad_token`.
proof fn lemma_first_bad_is(toks: Seq<Seq<char>>, k: int)
    requires
        0 <= k < toks.len(),
        forall|i: int| 0 <= i < k ==> token_ok(#[trigger] toks[i]),
        !token_ok(toks[k]),
    ensures
        first_bad_token(toks) == k,
    decreases toks.len(),
{
    if k > 0 {
        assert forall|i: int| 0 <= i < k - 1 implies token_ok(#[trigger] toks.skip(1)[i]) by {
            assert(toks.skip(1)[i] == toks[i + 1]);
        }
        assert(toks.skip(1)[k - 1] == toks[k]);
        lemma_first_bad_is(toks.skip(1), k - 1);
    }
}

/// What [`parse_pos`] returns on the specification string `s`: the range
/// of each token, in order, when every token is acceptable, and otherwise
/// the error of the first unacceptable token.
pub open spec fn parse_pos_post(s: Seq<char>, r: Result<Vec<Range<usize>>, ParseError>) -> bool {
    let toks = split_commas(s);
    &&& r is Ok <==> all_tokens_ok(toks)
    &&& r matches Ok(v) ==> v@.len() == toks.len() && forall|i: int|
        0 <= i < toks.len() ==> (#[trigger] v@[i]).start == token_start(toks[i]) && v@[i].end
            == token_end(toks[i])
    &&& r matches Err(e) ==> 0 <= first_bad_token(toks) < toks.len() && token_err(
        toks[first_bad_token(toks)],
        e,
    )
}

/// Parse a whole position-list string into its ordered list of half-open
/// 0-based ranges.
///
/// The string is split on `,`; each token is parsed independently, in
/// order, and the first failing token aborts the parse with its own
/// error, so no partial list is ever produced.
pub fn parse_pos(s: &str) -> (r: Result<PositionList, ParseError>)
    ensures
        parse_pos_post(s@, r),
{
    let ghost toks = split_commas(s@);
    let n = s.unicode_len();
    let mut out: Vec<Range<usize>> = Vec::new();
    let mut start: usize = 0;
    proof {
        assert(s@.skip(0) =~= s@);
    }
    loop
        invariant
            n == s@.len(),
            0 <= start <= n,
            toks == split_commas(s@),
            out@.len() <= toks.len(),
            split_commas(s@.skip(start as int)) == toks.skip(out@.len() as int),
            forall|i: int| 0 <= i < out@.len() ==> token_ok(#[trigger] toks[i]),
            forall|i: int|
                0 <= i < out@.len() ==> (#[trigger] out@[i]).start == token_start(toks[i])
                    && out@[i].end == token_end(toks[i]),
        decreases n - start,
    {
        let ghost k = out@.len() as int;
        let mut j: usize = start;
        while j < n && s.get_char(j) != ','
            invariant
                start <= j <= n,
                n == s@.len(),
                forall|m: int| start <= m < j ==> s@[m] != ',',
            decreases n - j,
        {
            j += 1;
        }
        let tok = s.substring_char(start, j);
        proof {
            let rest = s@.skip(start as int);
            assert forall|m: int| 0 <= m < j - start implies rest[m] != ',' by {
                assert(rest[m] == s@[start + m]);
            }
            if j < n {
                assert(rest[j - start] == s@[j as int]);
            }
            lemma_first_at_is(rest, ',', j - start);
            assert(rest.take(j - start) =~= tok@);
            if j < n {
                assert(rest.skip(j - start + 1) =~= s@.skip(j + 1));
                assert(split_commas(rest) == seq![tok@] + split_commas(s@.skip(j + 1)));
            } else {
                assert(rest =~= tok@);
                assert(split_commas(rest) == seq![tok@]);
            }
            assert(toks[k] == toks.skip(k)[0]);
            assert(toks[k] == tok@);
        }
        match parse_token(tok) {
            Err(e) => {
                proof {
                    assert(!token_ok(toks[k]));
                    lemma_first_bad_is(toks, k);
                }
                return Err(e);
            },
            Ok(rg) => {
                out.push(rg);
            },
        }
        if j == n {
            proof {
                assert(toks.skip(k) == seq![tok@]);
                assert(toks.len() == k + 1);
            }
            return Ok(out);
        }
        proof {
            assert(toks.skip(k + 1) =~~= toks.skip(k).skip(1));
            assert(toks.skip(k).skip(1) =~~= split_commas(s@.skip(j + 1)));
        }
        start = j + 1;
    }
}

/// The one-character string for the digit value `d`.
fn digit_str(d: usize) -> (r: &'static str)
    requires
        d < 10,
    ensures
        r@ == seq![digit_char(d as int)],
{
    proof {
        reveal_strlit("0");
        reveal_strlit("1");
        reveal_strlit("2");
        reveal_strlit("3");
        reveal_strlit("4");
        reveal_strlit("5");
        reveal_strlit("6");
        reveal_strlit("7");
        reveal_strlit("8");
        reveal_strlit("9");
    }
    if d == 0 {
        "0"
    } else if d == 1 {
        "1"
    } else if d == 2 {
        "2"
    } else if d == 3 {
        "3"
    } else if d == 4 {
        "4"
    } else if d == 5 {
        "5"
    } else if d == 6 {
        "6"
    } else if d == 7 {
        "7"
    } else if d == 8 {
        "8"
    } else {
        "9"
    }
}

/// Render `n` in decimal, most significant digit first.
fn decimal(n: usize) -> (r: String)
    ensures
        r@ == dec_digits(n as int),
    decreases n,
{
    if n < 10 {
        digit_str(n).to_owned()
    } else {
        let mut prefix = decimal(n / 10);
        prefix.append(digit_str(n % 10));
        prefix
    }
}

impl ParseError {
    /// The diagnostic line for this error, as the host tool prints it:
    /// an illegal value is quoted verbatim, a reversed range names both
    /// 1-based bounds.
    pub fn message(&self) -> (r: String)
        ensures
            r@ == message_spec(*self),
    {
        match self {
            ParseError::IllegalValue(t) => {
                let mut m = "illegal list value: \"".to_owned();
                m.append(t.as_str());
                m.append("\"");
                m
            },
            ParseError::InvalidRangeOrder(a, b) => {
                let mut m = "First number in range (".to_owned();
                m.append(decimal(*a).as_str());
                m.append(") must be lower than second number (");
                m.append(decimal(*b).as_str());
                m.append(")");
                m
            },
        }
    }
}

/// The decimal spelling of a non-negative number is all digits and reads
/// back as the same number.
proof fn lemma_dec_digits(n: int)
    requires
        n >= 0,
    ensures
        all_digits(dec_digits(n)),
        digits_val(dec_digits(n)) == n,
        dec_digits(n).len() >= 1,
    decreases n,
{
    if n < 10 {
        let s = dec_digits(n);
        assert(s =~= seq![digit_char(n)]);
        assert(s.len() == 1);
        assert(s.last() == digit_char(n));
        assert(s.drop_last() =~= Seq::<char>::empty());
        assert(digits_val(s.drop_last()) == 0);
        assert(is_digit(digit_char(n)));
        assert(digit_char(n) as u32 - 48 == n);
    } else {
        lemma_dec_digits(n / 10);
        let p = dec_digits(n / 10);
        let s = dec_digits(n);
        assert(s =~= p + seq![digit_char(n % 10)]);
        assert(s.len() == p.len() + 1);
        assert(s.drop_last() =~= p);
        assert(s.last() == digit_char(n % 10));
        assert(digits_val(s) == digits_val(p) * 10 + (digit_char(n % 10) as u32 - 48));
        assert(digit_char(n % 10) as u32 - 48 == n % 10);
        assert forall|i: int| 0 <= i < s.len() implies is_digit(#[trigger] s[i]) by {
            if i < p.len() {
                assert(s[i] == p[i]);
            } else {
                assert(s[i] == digit_char(n % 10));
                assert(is_digit(digit_char(n % 10)));
            }
        }
    }
}

/// The two errors are the same diagnosis: the same kind with the same
/// quoted text or the same pair of bounds.
pub open spec fn same_error(e1: ParseError, e2: ParseError) -> bool {
    match (e1, e2) {
        (ParseError::IllegalValue(a), ParseError::IllegalValue(b)) => a@ == b@,
        (ParseError::InvalidRangeOrder(a, b), ParseError::InvalidRangeOrder(c, d)) => a == c && b
            == d,
        _ => false,
    }
}

/// Parsing is a pure function of the specification string: two results
/// that both satisfy the parse contract for the same string agree — the
/// same ranges in the same order, or the same diagnosis.
pub proof fn lemma_parse_pos_deterministic(
    s: Seq<char>,
    r1: Result<Vec<Range<usize>>, ParseError>,
    r2: Result<Vec<Range<usize>>, ParseError>,
)
    requires
        parse_pos_post(s, r1),
        parse_pos_post(s, r2),
    ensures
        r1 is Ok <==> r2 is Ok,
        r1 is Ok ==> r1->Ok_0@ == r2->Ok_0@,
        r1 is Err ==> same_error(r1->Err_0, r2->Err_0),
{
    let toks = split_commas(s);
    if r1 is Ok {
        let v1 = r1->Ok_0;
        let v2 = r2->Ok_0;
        assert forall|i: int| 0 <= i < v1@.len() implies v1@[i] == v2@[i] by {
            assert(v1@[i].start == token_start(toks[i]));
            assert(v2@[i].start == token_start(toks[i]));
        }
        assert(v1@ =~= v2@);
    } else {
        let j = first_bad_token(toks);
        assert(token_err(toks[j], r1->Err_0));
        assert(token_err(toks[j], r2->Err_0));
    }
}

/// For every positive representable integer `v`, parsing the decimal
/// spelling of `v` alone yields the single range `[v-1, v)`.
pub proof fn lemma_parse_single_value(v: int, r: Result<Vec<Range<usize>>, ParseError>)
    requires
        1 <= v <= usize::MAX,
        parse_pos_post(dec_digits(v), r),
    ensures
        r is Ok,
        r->Ok_0@.len() == 1,
        r->Ok_0@[0].start == v - 1,
        r->Ok_0@[0].end == v,
{
    lemma_dec_digits(v);
    let t = dec_digits(v);
    assert(forall|m: int| 0 <= m < t.len() ==> t[m] != ',');
    lemma_first_at_is(t, ',', t.len() as int);
    let toks = split_commas(t);
    assert(toks == seq![t]);
    assert(valid_index_token(t));
    assert(toks[0] == t);
    assert(all_tokens_ok(toks));
    assert(r->Ok_0@[0].start == token_start(t));
}

} // verus!
