use vstd::prelude::*;
use crate::error::YariError;
use crate::module::{spec_module_from, Module};
use crate::text::chars_of;

verus! {

// ---------------------------------------------------------------------
// The abstract syntax a query parses to.
// ---------------------------------------------------------------------
/// One argument of a function call.  A float argument keeps the literal
/// text it was written with: the evaluator treats float-typed arguments
/// as unsupported, so nothing is lost by not decoding them here.
#[derive(Debug, Clone, PartialEq)]
pub enum Argument {
    String(String),
    Regexp(String, String),
    Float(String),
    Integer(i64),
}

/// The four string-predicate operators, one per sigil.
#[derive(Debug, Clone, Copy, PartialEq, Eq, Structural)]
pub enum StrOperation {
    MatchesOnce,
    MatchesCount,
    MatchOffset,
    MatchLength,
}

impl StrOperation {
    /// The operator written with sigil `val`, if any.
    pub fn try_from(val: char) -> (r: Result<StrOperation, ()>)
        ensures
            r == spec_op_of(val),
    {
        match val {
            '$' => Ok(StrOperation::MatchesOnce),
            '#' => Ok(StrOperation::MatchesCount),
            '@' => Ok(StrOperation::MatchOffset),
            '!' => Ok(StrOperation::MatchLength),
            _ => Err(()),
        }
    }
}

/// The operator a sigil character stands for.
pub open spec fn spec_op_of(c: char) -> Result<StrOperation, ()> {
    if c == '$' {
        Ok(StrOperation::MatchesOnce)
    } else if c == '#' {
        Ok(StrOperation::MatchesCount)
    } else if c == '@' {
        Ok(StrOperation::MatchOffset)
    } else if c == '!' {
        Ok(StrOperation::MatchLength)
    } else {
        Err(())
    }
}

/// A parsed query expression.
#[derive(Debug, Clone, PartialEq)]
pub enum Expression {
    Function { name: String, args: Vec<Argument> },
    Value(String),
    String { operator: StrOperation, prefix: String, index: Option<i64> },
    Complex(String),
}

impl Argument {
    /// The single-character format tag of this argument, as a string.
    pub fn to_str(&self) -> (r: &'static str)
        ensures
            r@ == seq![self.spec_tag()],
    {
        let r = match self {
            Argument::String(_) => "s",
            Argument::Regexp(_, _) => "r",
            Argument::Integer(_) => "i",
            Argument::Float(_) => "f",
        };
        proof {
            reveal_strlit("s");
            reveal_strlit("r");
            reveal_strlit("i");
            reveal_strlit("f");
            assert(r@ =~= seq![self.spec_tag()]);
        }
        r
    }

    /// The single-character format tag of this argument.
    pub fn to_char(&self) -> (r: char)
        ensures
            r == self.spec_tag(),
    {
        match self {
            Argument::String(_) => 's',
            Argument::Regexp(_, _) => 'r',
            Argument::Integer(_) => 'i',
            Argument::Float(_) => 'f',
        }
    }

    /// The format tag used for overload matching.
    pub open spec fn spec_tag(&self) -> char {
        match self {
            Argument::String(_) => 's',
            Argument::Regexp(_, _) => 'r',
            Argument::Integer(_) => 'i',
            Argument::Float(_) => 'f',
        }
    }
}

// ---------------------------------------------------------------------
// Ghost mirror of the syntax, over character sequences.
// ---------------------------------------------------------------------
/// Ghost rendering of one argument.
pub enum ArgSpec {
    AString(Seq<char>),
    ARegexp(Seq<char>, Seq<char>),
    AFloat(Seq<char>),
    AInteger(i64),
}

/// Ghost rendering of one expression.
pub enum ExprSpec {
    EFunction(Seq<char>, Seq<ArgSpec>),
    EValue(Seq<char>),
    EString(StrOperation, Seq<char>, Option<i64>),
    EComplex(Seq<char>),
}

/// The ghost rendering of an argument value.
pub open spec fn arg_view(a: Argument) -> ArgSpec {
    match a {
        Argument::String(s) => ArgSpec::AString(s@),
        Argument::Regexp(p, m) => ArgSpec::ARegexp(p@, m@),
        Argument::Float(t) => ArgSpec::AFloat(t@),
        Argument::Integer(i) => ArgSpec::AInteger(i),
    }
}

/// The ghost rendering of an expression value.
pub open spec fn expr_view(e: Expression) -> ExprSpec {
    match e {
        Expression::Function { name, args } => ExprSpec::EFunction(
            name@,
            args@.map_values(|a: Argument| arg_view(a)),
        ),
        Expression::Value(s) => ExprSpec::EValue(s@),
        Expression::String { operator, prefix, index } => ExprSpec::EString(
            operator,
            prefix@,
            index,
        ),
        Expression::Complex(s) => ExprSpec::EComplex(s@),
    }
}

// ---------------------------------------------------------------------
// Character classes.
// ---------------------------------------------------------------------
/// The grammar's whitespace characters.
pub open spec fn is_ws_char(c: char) -> bool {
    c == ' ' || c == '\t' || c == '\r' || c == '\n'
}

/// Identifier characters: ASCII letters, digits and underscore, judged
/// on the character's low byte.
pub open spec fn is_ident_char(c: char) -> bool {
    let b = (c as u32) % 256;
    (65 <= b && b <= 90) || (97 <= b && b <= 122) || (48 <= b && b <= 57) || c == '_'
}

/// ASCII decimal digits.
pub open spec fn is_digit_char(c: char) -> bool {
    '0' <= c && c <= '9'
}

/// ASCII letters.
pub open spec fn is_alpha_char(c: char) -> bool {
    ('a' <= c && c <= 'z') || ('A' <= c && c <= 'Z')
}

fn ws_char(c: char) -> (r: bool)
    ensures
        r == is_ws_char(c),
{
    c == ' ' || c == '\t' || c == '\r' || c == '\n'
}

fn ident_char(c: char) -> (r: bool)
    ensures
        r == is_ident_char(c),
{
    let b: u32 = (c as u32) % 256;
    (65 <= b && b <= 90) || (97 <= b && b <= 122) || (48 <= b && b <= 57) || c == '_'
}

fn digit_char_test(c: char) -> (r: bool)
    ensures
        r == is_digit_char(c),
{
    '0' <= c && c <= '9'
}

fn alpha_char_test(c: char) -> (r: bool)
    ensures
        r == is_alpha_char(c),
{
    ('a' <= c && c <= 'z') || ('A' <= c && c <= 'Z')
}

// ---------------------------------------------------------------------
// Runs of characters from a class.
// ---------------------------------------------------------------------
/// The end of the whitespace run starting at `i`.
pub open spec fn ws_to(s: Seq<char>, i: int) -> int
    decreases s.len() - i,
{
    if 0 <= i < s.len() && is_ws_char(s[i]) {
        ws_to(s, i + 1)
    } else {
        i
    }
}

/// The end of the identifier-character run starting at `i`.
pub open spec fn ident_to(s: Seq<char>, i: int) -> int
    decreases s.len() - i,
{
    if 0 <= i < s.len() && is_ident_char(s[i]) {
        ident_to(s, i + 1)
    } else {
        i
    }
}

/// The end of the digit run starting at `i`.
pub open spec fn digits_to(s: Seq<char>, i: int) -> int
    decreases s.len() - i,
{
    if 0 <= i < s.len() && is_digit_char(s[i]) {
        digits_to(s, i + 1)
    } else {
        i
    }
}

/// The end of the letter run starting at `i`.
pub open spec fn alpha_to(s: Seq<char>, i: int) -> int
    decreases s.len() - i,
{
    if 0 <= i < s.len() && is_alpha_char(s[i]) {
        alpha_to(s, i + 1)
    } else {
        i
    }
}

proof fn lemma_digits_to_stop(s: Seq<char>, i: int)
    requires
        0 <= i <= s.len(),
    ensures
        digits_to(s, i) == s.len() || (digits_to(s, i) < s.len() && !is_digit_char(
            s[digits_to(s, i)],
        )),
    decreases s.len() - i,
{
    if i < s.len() && is_digit_char(s[i]) {
        lemma_digits_to_stop(s, i + 1);
    } else {
        lemma_digits_to_bounds(s, i);
    }
}

proof fn lemma_ws_to_bounds(s: Seq<char>, i: int)
    requires
        0 <= i <= s.len(),
    ensures
        i <= ws_to(s, i) <= s.len(),
    decreases s.len() - i,
{
    if i < s.len() && is_ws_char(s[i]) {
        lemma_ws_to_bounds(s, i + 1);
    }
}

proof fn lemma_ident_to_bounds(s: Seq<char>, i: int)
    requires
        0 <= i <= s.len(),
    ensures
        i <= ident_to(s, i) <= s.len(),
    decreases s.len() - i,
{
    if i < s.len() && is_ident_char(s[i]) {
        lemma_ident_to_bounds(s, i + 1);
    }
}

proof fn lemma_digits_to_bounds(s: Seq<char>, i: int)
    requires
        0 <= i <= s.len(),
    ensures
        i <= digits_to(s, i) <= s.len(),
    decreases s.len() - i,
{
    if i < s.len() && is_digit_char(s[i]) {
        lemma_digits_to_bounds(s, i + 1);
    }
}

proof fn lemma_alpha_to_bounds(s: Seq<char>, i: int)
    requires
        0 <= i <= s.len(),
    ensures
        i <= alpha_to(s, i) <= s.len(),
    decreases s.len() - i,
{
    if i < s.len() && is_alpha_char(s[i]) {
        lemma_alpha_to_bounds(s, i + 1);
    }
}

fn skip_ws(v: &Vec<char>, i: usize) -> (j: usize)
    requires
        i <= v@.len(),
    ensures
        j as int == ws_to(v@, i as int),
        i <= j <= v@.len(),
{
    let mut j: usize = i;
    while j < v.len() && ws_char(v[j])
        invariant
            i <= j <= v@.len(),
            ws_to(v@, i as int) == ws_to(v@, j as int),
        decreases v@.len() - j,
    {
        j += 1;
    }
    j
}

fn skip_ident(v: &Vec<char>, i: usize) -> (j: usize)
    requires
        i <= v@.len(),
    ensures
        j as int == ident_to(v@, i as int),
        i <= j <= v@.len(),
{
    let mut j: usize = i;
    while j < v.len() && ident_char(v[j])
        invariant
            i <= j <= v@.len(),
            ident_to(v@, i as int) == ident_to(v@, j as int),
        decreases v@.len() - j,
    {
        j += 1;
    }
    j
}

fn skip_digits(v: &Vec<char>, i: usize) -> (j: usize)
    requires
        i <= v@.len(),
    ensures
        j as int == digits_to(v@, i as int),
        i <= j <= v@.len(),
{
    let mut j: usize = i;
    while j < v.len() && digit_char_test(v[j])
        invariant
            i <= j <= v@.len(),
            digits_to(v@, i as int) == digits_to(v@, j as int),
        decreases v@.len() - j,
    {
        j += 1;
    }
    j
}

// ---------------------------------------------------------------------
// Decimal digit runs and their values.
// ---------------------------------------------------------------------
/// The value of the digit sequence `t`, most significant digit first.
pub open spec fn seq_digits_val(t: Seq<char>) -> int
    decreases t.len(),
{
    if t.len() == 0 {
        0
    } else {
        seq_digits_val(t.drop_last()) * 10 + (t.last() as u32 - 48)
    }
}

proof fn lemma_digits_run(s: Seq<char>, i: int)
    requires
        0 <= i <= s.len(),
    ensures
        forall|k: int| i <= k < digits_to(s, i) ==> is_digit_char(s[k]),
    decreases s.len() - i,
{
    if i < s.len() && is_digit_char(s[i]) {
        lemma_digits_run(s, i + 1);
    }
}

proof fn lemma_digits_val_nonneg(t: Seq<char>)
    requires
        forall|k: int| 0 <= k < t.len() ==> is_digit_char(#[trigger] t[k]),
    ensures
        seq_digits_val(t) >= 0,
    decreases t.len(),
{
    if t.len() > 0 {
        lemma_digits_val_nonneg(t.drop_last());
    }
}

proof fn lemma_digits_val_grows(t: Seq<char>, k: int, bound: int)
    requires
        forall|m: int| 0 <= m < t.len() ==> is_digit_char(#[trigger] t[m]),
        0 <= k <= t.len(),
        bound >= 0,
        seq_digits_val(t.subrange(0, k)) > bound,
    ensures
        seq_digits_val(t) > bound,
    decreases t.len() - k,
{
    if k == t.len() {
        assert(t.subrange(0, k) =~= t);
    } else {
        let p = t.subrange(0, k + 1);
        assert(p.drop_last() =~= t.subrange(0, k));
        assert(forall|m: int| 0 <= m < p.len() ==> is_digit_char(#[trigger] p[m]));
        lemma_digits_val_nonneg(t.subrange(0, k));
        assert(seq_digits_val(p) == seq_digits_val(t.subrange(0, k)) * 10 + (p.last() as u32
            - 48));
        assert(seq_digits_val(p) > bound);
        lemma_digits_val_grows(t, k + 1, bound);
    }
}

/// Evaluate the digit run `v[from..to]`, refusing values above `bound`.
fn digits_value(v: &Vec<char>, from: usize, to: usize, bound: u64) -> (r: Option<u64>)
    requires
        from <= to <= v@.len(),
        bound <= 9223372036854775808,
        forall|k: int| from <= k < to ==> is_digit_char(#[trigger] v@[k]),
    ensures
        match r {
            Some(val) => val <= bound && val as int == seq_digits_val(
                v@.subrange(from as int, to as int),
            ),
            None => seq_digits_val(v@.subrange(from as int, to as int)) > bound,
        },
{
    let whole = Ghost(v@.subrange(from as int, to as int));
    proof {
        assert(forall|m: int|
            0 <= m < whole@.len() ==> is_digit_char(#[trigger] whole@[m]));
    }
    let mut acc: u64 = 0;
    let mut k: usize = from;
    while k < to
        invariant
            from <= k <= to <= v@.len(),
            bound <= 9223372036854775808,
            forall|m: int| from <= m < to ==> is_digit_char(#[trigger] v@[m]),
            whole@ == v@.subrange(from as int, to as int),
            acc <= bound,
            acc as int == seq_digits_val(whole@.subrange(0, k - from)),
        decreases to - k,
    {
        let c = v[k];
        assert(is_digit_char(c));
        let d: u64 = (c as u32 - 48) as u64;
        assert(d <= 9);
        proof {
            let pref = whole@.subrange(0, k - from);
            let pref2 = whole@.subrange(0, k + 1 - from);
            assert(pref2.drop_last() =~= pref);
            assert(pref2.last() == whole@[k - from]);
            assert(whole@[k - from] == v@[k as int]);
        }
        if acc > bound / 10 || (acc == bound / 10 && d > bound % 10) {
            proof {
                vstd::arithmetic::div_mod::lemma_fundamental_div_mod(bound as int, 10);
                assert(acc * 10 + d > bound);
                lemma_digits_val_grows(whole@, k + 1 - from, bound as int);
            }
            return None;
        }
        proof {
            vstd::arithmetic::div_mod::lemma_fundamental_div_mod(bound as int, 10);
            assert(acc * 10 + d <= bound);
        }
        acc = acc * 10 + d;
        k += 1;
    }
    proof {
        assert(whole@.subrange(0, to - from) =~= whole@);
    }
    Some(acc)
}

/// A bracketed decimal index `[123]`; its value must fit an `i64`.
pub open spec fn spec_array_access(s: Seq<char>, i: int) -> Option<(i64, int)> {
    if 0 <= i < s.len() && s[i] == '[' {
        let j = digits_to(s, i + 1);
        if j > i + 1 && j < s.len() && s[j] == ']' {
            let val = seq_digits_val(s.subrange(i + 1, j));
            if val <= i64::MAX {
                Some(((val as i64), j + 1))
            } else {
                None
            }
        } else {
            None
        }
    } else {
        None
    }
}

fn array_access(v: &Vec<char>, i: usize) -> (r: Option<(i64, usize)>)
    requires
        i <= v@.len(),
    ensures
        match spec_array_access(v@, i as int) {
            Some((val, e)) => r matches Some(p) && p.0 == val && p.1 as int == e && i < e
                <= v@.len(),
            None => r is None,
        },
{
    if i < v.len() && v[i] == '[' {
        let j = skip_digits(v, i + 1);
        proof {
            lemma_digits_run(v@, i as int + 1);
        }
        if j > i + 1 && j < v.len() && v[j] == ']' {
            match digits_value(v, i + 1, j, 9223372036854775807u64) {
                Some(val) => Some((val as i64, j + 1)),
                None => None,
            }
        } else {
            None
        }
    } else {
        None
    }
}

// ---------------------------------------------------------------------
// Delimited bodies: quoted strings and regular expressions.
// ---------------------------------------------------------------------
/// The position of the closing delimiter `d` scanning from `i`, where a
/// backslash escapes the following character.  `None` when the input
/// ends first (a trailing lone backslash also fails).
pub open spec fn body_to(s: Seq<char>, i: int, d: char) -> Option<int>
    decreases s.len() - i,
{
    if !(0 <= i < s.len()) {
        None
    } else if s[i] == d {
        Some(i)
    } else if s[i] == '\\' {
        if i + 1 < s.len() {
            body_to(s, i + 2, d)
        } else {
            None
        }
    } else {
        body_to(s, i + 1, d)
    }
}

proof fn lemma_body_to_bounds(s: Seq<char>, i: int, d: char)
    requires
        0 <= i <= s.len(),
    ensures
        body_to(s, i, d) matches Some(q) ==> i <= q < s.len() && s[q] == d,
    decreases s.len() - i,
{
    if 0 <= i < s.len() && s[i] != d {
        if s[i] == '\\' {
            if i + 1 < s.len() {
                lemma_body_to_bounds(s, i + 2, d);
            }
        } else {
            lemma_body_to_bounds(s, i + 1, d);
        }
    }
}

fn scan_body(v: &Vec<char>, i: usize, d: char) -> (r: Option<usize>)
    requires
        i <= v@.len(),
    ensures
        match body_to(v@, i as int, d) {
            Some(q) => r matches Some(p) && p as int == q && i <= q < v@.len(),
            None => r is None,
        },
{
    proof {
        lemma_body_to_bounds(v@, i as int, d);
    }
    let mut j: usize = i;
    loop
        invariant
            i <= j <= v@.len(),
            body_to(v@, i as int, d) == body_to(v@, j as int, d),
        ensures
            j < v@.len() && v@[j as int] == d && body_to(v@, i as int, d) == Some(
                j as int,
            ),
        decreases v@.len() - j,
    {
        if j >= v.len() {
            proof {
                lemma_body_to_bounds(v@, i as int, d);
            }
            return None;
        }
        let c = v[j];
        if c == d {
            break ;
        } else if c == '\\' {
            if j + 1 < v.len() {
                j += 2;
            } else {
                return None;
            }
        } else {
            j += 1;
        }
    }
    Some(j)
}

/// A quoted string literal: the text between the quotes (escapes kept
/// verbatim) and the position after the closing quote.
pub open spec fn spec_string_lit(s: Seq<char>, i: int) -> Option<(Seq<char>, int)> {
    if 0 <= i < s.len() && s[i] == '"' {
        match body_to(s, i + 1, '"') {
            Some(q) => Some((s.subrange(i + 1, q), q + 1)),
            None => None,
        }
    } else {
        None
    }
}

/// Positions of a string literal's content and end, without building
/// the fragment.
fn string_lit_at(v: &Vec<char>, i: usize) -> (r: Option<(usize, usize, usize)>)
    requires
        i <= v@.len(),
    ensures
        match spec_string_lit(v@, i as int) {
            Some((content, e)) => r matches Some(p) && p.0 as int == i + 1 && content
                == v@.subrange(i as int + 1, p.1 as int) && p.2 as int == e && i < p.1
                < v@.len() && p.1 < p.2 <= v@.len(),
            None => r is None,
        },
{
    if i < v.len() && v[i] == '"' {
        match scan_body(v, i + 1, '"') {
            Some(q) => Some((i + 1, q, q + 1)),
            None => None,
        }
    } else {
        None
    }
}

// ---------------------------------------------------------------------
// Regular-expression literals and their modifiers.
// ---------------------------------------------------------------------
/// How many times `c` occurs in `s[a..b]`.
pub open spec fn count_char(s: Seq<char>, a: int, b: int, c: char) -> int
    decreases b - a,
{
    if a >= b {
        0
    } else {
        count_char(s, a, b - 1, c) + if s[b - 1] == c {
            1int
        } else {
            0int
        }
    }
}

/// The modifier run is acceptable: only `i` and `s`, at most once each.
pub open spec fn mods_ok(s: Seq<char>, a: int, b: int) -> bool {
    (forall|k: int| a <= k < b ==> (#[trigger] s[k]) == 'i' || s[k] == 's') && count_char(
        s,
        a,
        b,
        'i',
    ) <= 1 && count_char(s, a, b, 's') <= 1
}

fn check_mods(v: &Vec<char>, a: usize, b: usize) -> (r: bool)
    requires
        a <= b <= v@.len(),
    ensures
        r == mods_ok(v@, a as int, b as int),
{
    let mut icnt: u64 = 0;
    let mut scnt: u64 = 0;
    let mut j: usize = a;
    while j < b
        invariant
            a <= j <= b <= v@.len(),
            icnt <= j - a,
            scnt <= j - a,
            icnt as int == count_char(v@, a as int, j as int, 'i'),
            scnt as int == count_char(v@, a as int, j as int, 's'),
            forall|k: int| a <= k < j ==> (#[trigger] v@[k]) == 'i' || v@[k] == 's',
        decreases b - j,
    {
        let c = v[j];
        if c == 'i' {
            icnt += 1;
        } else if c == 's' {
            scnt += 1;
        } else {
            proof {
                assert(!(v@[j as int] == 'i' || v@[j as int] == 's'));
                assert(!mods_ok(v@, a as int, b as int));
            }
            return false;
        }
        j += 1;
    }
    if icnt <= 1 && scnt <= 1 {
        true
    } else {
        proof {
            lemma_count_le(v@, a as int, j as int, b as int, 'i');
            lemma_count_le(v@, a as int, j as int, b as int, 's');
        }
        false
    }
}

proof fn lemma_count_le(s: Seq<char>, a: int, j: int, b: int, c: char)
    requires
        a <= j <= b,
    ensures
        count_char(s, a, b, c) >= count_char(s, a, j, c),
    decreases b - j,
{
    if j < b {
        lemma_count_le(s, a, j, b - 1, c);
    }
}

fn skip_alpha(v: &Vec<char>, i: usize) -> (j: usize)
    requires
        i <= v@.len(),
    ensures
        j as int == alpha_to(v@, i as int),
        i <= j <= v@.len(),
{
    let mut j: usize = i;
    while j < v.len() && alpha_char_test(v[j])
        invariant
            i <= j <= v@.len(),
            alpha_to(v@, i as int) == alpha_to(v@, j as int),
        decreases v@.len() - j,
    {
        j += 1;
    }
    j
}

// ---------------------------------------------------------------------
// Regular-expression literal: `/body/modifiers`.
// ---------------------------------------------------------------------
/// Outcome of recognising a regular-expression literal: the pattern and
/// modifier texts with the end position, a soft miss, or a hard stop
/// (bad modifiers abort the whole parse).
pub enum Rst {
    RGot(Seq<char>, Seq<char>, int),
    RMiss,
    RHalt,
}

/// A regular-expression literal at `i`.
pub open spec fn spec_regexp(s: Seq<char>, i: int) -> Rst {
    if 0 <= i < s.len() && s[i] == '/' {
        match body_to(s, i + 1, '/') {
            Some(q) => {
                let m = alpha_to(s, q + 1);
                if mods_ok(s, q + 1, m) {
                    Rst::RGot(s.subrange(i + 1, q), s.subrange(q + 1, m), m)
                } else {
                    Rst::RHalt
                }
            },
            None => Rst::RMiss,
        }
    } else {
        Rst::RMiss
    }
}

// ---------------------------------------------------------------------
// Dotted identifier chains with array and dictionary accessors.
// ---------------------------------------------------------------------
/// A dictionary accessor `["key"]` at `i`: the position after `]`.
pub open spec fn spec_dict_access(s: Seq<char>, i: int) -> Option<int> {
    if 0 <= i < s.len() && s[i] == '[' {
        match spec_string_lit(s, i + 1) {
            Some((_, e)) => if e < s.len() && s[e] == ']' {
                Some(e + 1)
            } else {
                None
            },
            None => None,
        }
    } else {
        None
    }
}

proof fn lemma_dict_access_bounds(s: Seq<char>, i: int)
    ensures
        spec_dict_access(s, i) matches Some(e) ==> i < e <= s.len(),
{
    if 0 <= i < s.len() && s[i] == '[' && i + 1 < s.len() && s[i + 1] == '"' {
        lemma_body_to_bounds(s, i + 2, '"');
    }
}

proof fn lemma_array_access_bounds(s: Seq<char>, i: int)
    ensures
        spec_array_access(s, i) matches Some(p) ==> i < p.1 <= s.len(),
{
    if 0 <= i < s.len() && s[i] == '[' {
        lemma_digits_to_bounds(s, i + 1);
    }
}

/// A chain of accessors (`["k"]` or `[3]`), one or more, at `i`: the
/// position after the last one.
pub open spec fn spec_iam(s: Seq<char>, i: int) -> Option<int>
    decreases s.len() - i,
{
    match spec_dict_access(s, i) {
        Some(e) => if i < e <= s.len() {
            match spec_iam(s, e) {
                Some(e2) => Some(e2),
                None => Some(e),
            }
        } else {
            Some(e)
        },
        None => match spec_array_access(s, i) {
            Some((_, e)) => if i < e <= s.len() {
                match spec_iam(s, e) {
                    Some(e2) => Some(e2),
                    None => Some(e),
                }
            } else {
                Some(e)
            },
            None => None,
        },
    }
}

proof fn lemma_iam_bounds(s: Seq<char>, i: int)
    ensures
        spec_iam(s, i) matches Some(e) ==> i < e <= s.len(),
    decreases s.len() - i,
{
    lemma_dict_access_bounds(s, i);
    lemma_array_access_bounds(s, i);
    match spec_dict_access(s, i) {
        Some(e) => {
            if i < e <= s.len() {
                lemma_iam_bounds(s, e);
            }
        },
        None => {
            match spec_array_access(s, i) {
                Some((_, e)) => {
                    if i < e <= s.len() {
                        lemma_iam_bounds(s, e);
                    }
                },
                None => {},
            }
        },
    }
}

/// Outcome of a parser that only advances: a position, a soft miss, or
/// a hard stop that forbids falling back to another alternative.
pub enum PStep {
    At(int),
    Miss,
    Halt,
}

/// A dotted identifier chain at `i`: identifier, optional accessor
/// chain, then optionally `.` and — mandatorily, or the parse stops
/// hard — another chain.
pub open spec fn spec_im(s: Seq<char>, i: int) -> PStep
    decreases s.len() - i,
{
    if !(0 <= i <= s.len()) {
        PStep::Miss
    } else {
        let j = ident_to(s, i);
        if j == i {
            PStep::Miss
        } else {
            let k = match spec_iam(s, j) {
                Some(e) => e,
                None => j,
            };
            if i < k <= s.len() {
                if k < s.len() && s[k] == '.' {
                    match spec_im(s, k + 1) {
                        PStep::At(e) => PStep::At(e),
                        _ => PStep::Halt,
                    }
                } else {
                    PStep::At(k)
                }
            } else {
                PStep::Miss
            }
        }
    }
}

proof fn lemma_im_bounds(s: Seq<char>, i: int)
    ensures
        spec_im(s, i) matches PStep::At(e) ==> i < e <= s.len(),
    decreases s.len() - i,
{
    if 0 <= i <= s.len() {
        lemma_ident_to_bounds(s, i);
        let j = ident_to(s, i);
        if j != i {
            lemma_iam_bounds(s, j);
            let k = match spec_iam(s, j) {
                Some(e) => e,
                None => j,
            };
            if i < k <= s.len() && k < s.len() && s[k] == '.' {
                lemma_im_bounds(s, k + 1);
            }
        }
    }
}

/// The optional `name|` rule-context prefix, with surrounding
/// whitespace consumed: the context name and the position after.
pub open spec fn spec_rule_context(s: Seq<char>) -> Option<(Seq<char>, int)> {
    let a = ws_to(s, 0);
    let j = ident_to(s, a);
    if j > a && j < s.len() && s[j] == '|' {
        Some((s.subrange(a, j), ws_to(s, j + 1)))
    } else {
        None
    }
}

proof fn lemma_rule_context_bounds(s: Seq<char>)
    ensures
        spec_rule_context(s) matches Some(p) ==> 0 <= p.1 <= s.len(),
{
    lemma_ws_to_bounds(s, 0);
    let a = ws_to(s, 0);
    lemma_ident_to_bounds(s, a);
    let j = ident_to(s, a);
    if j > a && j < s.len() && s[j] == '|' {
        lemma_ws_to_bounds(s, j + 1);
    }
}

// ---------------------------------------------------------------------
// Integer and float argument literals.
// ---------------------------------------------------------------------
/// The end of the run of characters other than `,` and `)` at `i`.
pub open spec fn not_to(s: Seq<char>, i: int) -> int
    decreases s.len() - i,
{
    if 0 <= i < s.len() && s[i] != ',' && s[i] != ')' {
        not_to(s, i + 1)
    } else {
        i
    }
}

proof fn lemma_not_to_bounds(s: Seq<char>, i: int)
    requires
        0 <= i <= s.len(),
    ensures
        i <= not_to(s, i) <= s.len(),
    decreases s.len() - i,
{
    if i < s.len() && s[i] != ',' && s[i] != ')' {
        lemma_not_to_bounds(s, i + 1);
    }
}

fn skip_not(v: &Vec<char>, i: usize) -> (j: usize)
    requires
        i <= v@.len(),
    ensures
        j as int == not_to(v@, i as int),
        i <= j <= v@.len(),
{
    let mut j: usize = i;
    while j < v.len() && v[j] != ',' && v[j] != ')'
        invariant
            i <= j <= v@.len(),
            not_to(v@, i as int) == not_to(v@, j as int),
        decreases v@.len() - j,
    {
        j += 1;
    }
    j
}

/// Every character of `d` is a decimal digit.
pub open spec fn all_digits(d: Seq<char>) -> bool {
    forall|k: int| 0 <= k < d.len() ==> is_digit_char(#[trigger] d[k])
}

/// The signed 64-bit integer `t` denotes, if it is exactly an optional
/// sign followed by decimal digits whose value fits.
pub open spec fn spec_int_parse(t: Seq<char>) -> Option<i64> {
    let neg = t.len() > 0 && t[0] == '-';
    let d = if t.len() > 0 && (t[0] == '-' || t[0] == '+') {
        t.drop_first()
    } else {
        t
    };
    if d.len() > 0 && all_digits(d) {
        let val = seq_digits_val(d);
        if neg {
            if val <= 9223372036854775808 {
                Some((-val) as i64)
            } else {
                None
            }
        } else {
            if val <= 9223372036854775807 {
                Some(val as i64)
            } else {
                None
            }
        }
    } else {
        None
    }
}

/// Parse `v[a..b]` as a signed 64-bit integer.
fn int_parse_range(v: &Vec<char>, a: usize, b: usize) -> (r: Option<i64>)
    requires
        a <= b <= v@.len(),
    ensures
        r == spec_int_parse(v@.subrange(a as int, b as int)),
{
    let ghost t = v@.subrange(a as int, b as int);
    if a == b {
        return None;
    }
    let first = v[a];
    let neg = first == '-';
    let d_start: usize = if first == '-' || first == '+' {
        a + 1
    } else {
        a
    };
    let ghost d = if t.len() > 0 && (t[0] == '-' || t[0] == '+') {
        t.drop_first()
    } else {
        t
    };
    proof {
        assert(d =~= v@.subrange(d_start as int, b as int));
    }
    if d_start == b {
        return None;
    }
    let e = skip_digits(v, d_start);
    proof {
        lemma_digits_run(v@, d_start as int);
    }
    if e < b {
        proof {
            lemma_digits_to_stop(v@, d_start as int);
            assert(d.len() == b - d_start);
            assert(d[e - d_start] == v@[e as int]);
            assert(!all_digits(d)) by {
                assert(!is_digit_char(d[e - d_start]));
            }
        }
        return None;
    }
    proof {
        assert(all_digits(d));
    }
    let bound: u64 = if neg {
        9223372036854775808u64
    } else {
        9223372036854775807u64
    };
    match digits_value(v, d_start, b, bound) {
        Some(val) => {
            if neg {
                if val == 9223372036854775808u64 {
                    Some(i64::MIN)
                } else {
                    Some(-(val as i64))
                }
            } else {
                Some(val as i64)
            }
        },
        None => None,
    }
}

/// Outcome of the float-literal recogniser.
pub enum FStep {
    FAt(int),
    FMiss,
    FHalt,
}

/// Case-insensitive (ASCII) match of `lit` at position `i` of `s`.
pub open spec fn prefix_ci(s: Seq<char>, i: int, lit: Seq<char>) -> bool {
    0 <= i && i + lit.len() <= s.len() && forall|k: int|
        0 <= k < lit.len() ==> crate::text::lower_char(s[i + k]) == lit[k]
}

/// The float-literal grammar: an optional sign, then digits with an
/// optional fraction or a fraction alone, then an optional exponent
/// whose digits are mandatory once `e` was read (else the parse stops
/// hard); or one of `nan`, `infinity`, `inf`, case-insensitively.
pub open spec fn spec_float_to(s: Seq<char>, i: int) -> FStep {
    if !(0 <= i <= s.len()) {
        FStep::FMiss
    } else {
        let j = if i < s.len() && (s[i] == '+' || s[i] == '-') {
            i + 1
        } else {
            i
        };
        let d1 = digits_to(s, j);
        let core = if d1 > j {
            if d1 < s.len() && s[d1] == '.' {
                Some(digits_to(s, d1 + 1))
            } else {
                Some(d1)
            }
        } else if j < s.len() && s[j] == '.' {
            let f = digits_to(s, j + 1);
            if f > j + 1 {
                Some(f)
            } else {
                None
            }
        } else {
            None
        };
        match core {
            Some(p) => if p < s.len() && (s[p] == 'e' || s[p] == 'E') {
                let q = if p + 1 < s.len() && (s[p + 1] == '+' || s[p + 1] == '-') {
                    p + 2
                } else {
                    p + 1
                };
                let r = digits_to(s, q);
                if r > q {
                    FStep::FAt(r)
                } else {
                    FStep::FHalt
                }
            } else {
                FStep::FAt(p)
            },
            None => if prefix_ci(s, i, "nan"@) {
                FStep::FAt(i + 3)
            } else if prefix_ci(s, i, "infinity"@) {
                FStep::FAt(i + 8)
            } else if prefix_ci(s, i, "inf"@) {
                FStep::FAt(i + 3)
            } else {
                FStep::FMiss
            },
        }
    }
}

// ---------------------------------------------------------------------
// Arguments and argument lists.
// ---------------------------------------------------------------------
/// Outcome of parsing one argument.
pub enum ASt {
    AGot(ArgSpec, int),
    AMiss,
    AHalt,
}

/// One function-call argument at `i`, after leading whitespace: a
/// quoted string, a regular expression, an integer (the full run up to
/// the next `,` or `)` must parse as one), or a float literal — tried
/// in that order.
pub open spec fn spec_argument(s: Seq<char>, i: int) -> ASt {
    if !(0 <= i <= s.len()) {
        ASt::AMiss
    } else {
        let a = ws_to(s, i);
        match spec_string_lit(s, a) {
            Some((c, e)) => ASt::AGot(ArgSpec::AString(c), e),
            None => match spec_regexp(s, a) {
                Rst::RGot(p, m, e) => ASt::AGot(ArgSpec::ARegexp(p, m), e),
                Rst::RHalt => ASt::AHalt,
                Rst::RMiss => {
                    let ne = not_to(s, a);
                    let ip = if ne > a {
                        spec_int_parse(s.subrange(a, ne))
                    } else {
                        None
                    };
                    match ip {
                        Some(x) => ASt::AGot(ArgSpec::AInteger(x), ne),
                        None => match spec_float_to(s, a) {
                            FStep::FAt(e) => ASt::AGot(
                                ArgSpec::AFloat(s.subrange(a, e)),
                                e,
                            ),
                            FStep::FMiss => ASt::AMiss,
                            FStep::FHalt => ASt::AHalt,
                        },
                    }
                },
            },
        }
    }
}

proof fn lemma_argument_bounds(s: Seq<char>, i: int)
    requires
        0 <= i <= s.len(),
    ensures
        spec_argument(s, i) matches ASt::AGot(_, e) ==> i < e <= s.len(),
{
    lemma_ws_to_bounds(s, i);
    let a = ws_to(s, i);
    if 0 <= a < s.len() && s[a] == '"' {
        lemma_body_to_bounds(s, a + 1, '"');
    }
    if 0 <= a < s.len() && s[a] == '/' {
        lemma_body_to_bounds(s, a + 1, '/');
        match body_to(s, a + 1, '/') {
            Some(q) => {
                lemma_alpha_to_bounds(s, q + 1);
            },
            None => {},
        }
    }
    lemma_not_to_bounds(s, a);
    lemma_float_to_bounds(s, a);
}

/// Outcome of parsing an argument list or its tail.
pub enum Lst {
    LGot(Seq<ArgSpec>, int),
    LMiss,
    LHalt,
}

/// The comma-separated tail of an argument list at `i`: every further
/// `, argument` pair; a failed argument after a comma backtracks the
/// comma and ends the list.
pub open spec fn spec_args_rest(s: Seq<char>, i: int) -> Lst
    decreases s.len() - i,
{
    if !(0 <= i <= s.len()) {
        Lst::LGot(Seq::empty(), i)
    } else {
        let w = ws_to(s, i);
        if w < s.len() && s[w] == ',' {
            match spec_argument(s, w + 1) {
                ASt::AGot(v, e) => if i < e <= s.len() {
                    match spec_args_rest(s, e) {
                        Lst::LGot(vs, p) => Lst::LGot(seq![v] + vs, p),
                        Lst::LMiss => Lst::LHalt,
                        Lst::LHalt => Lst::LHalt,
                    }
                } else {
                    Lst::LHalt
                },
                ASt::AMiss => Lst::LGot(Seq::empty(), i),
                ASt::AHalt => Lst::LHalt,
            }
        } else {
            Lst::LGot(Seq::empty(), i)
        }
    }
}

proof fn lemma_args_rest_bounds(s: Seq<char>, i: int)
    requires
        0 <= i <= s.len(),
    ensures
        spec_args_rest(s, i) matches Lst::LGot(_, p) ==> i <= p <= s.len(),
    decreases s.len() - i,
{
    lemma_ws_to_bounds(s, i);
    let w = ws_to(s, i);
    if w < s.len() && s[w] == ',' {
        lemma_argument_bounds(s, w + 1);
        match spec_argument(s, w + 1) {
            ASt::AGot(_, e) => {
                if i < e <= s.len() {
                    lemma_args_rest_bounds(s, e);
                }
            },
            _ => {},
        }
    }
}

/// The closing of an argument list: whitespace then `)`.
pub open spec fn spec_close_args(s: Seq<char>, p: int, vs: Seq<ArgSpec>) -> Lst {
    let w = ws_to(s, p);
    if w < s.len() && s[w] == ')' {
        Lst::LGot(vs, w + 1)
    } else {
        Lst::LMiss
    }
}

/// A parenthesised, comma-separated argument list at `i`.
pub open spec fn spec_arguments(s: Seq<char>, i: int) -> Lst {
    if 0 <= i < s.len() && s[i] == '(' {
        match spec_argument(s, i + 1) {
            ASt::AHalt => Lst::LHalt,
            ASt::AMiss => spec_close_args(s, i + 1, Seq::empty()),
            ASt::AGot(v, e) => if i < e <= s.len() {
                match spec_args_rest(s, e) {
                    Lst::LGot(vs, p) => spec_close_args(s, p, seq![v] + vs),
                    Lst::LMiss => Lst::LHalt,
                    Lst::LHalt => Lst::LHalt,
                }
            } else {
                Lst::LHalt
            },
        }
    } else {
        Lst::LMiss
    }
}

proof fn lemma_arguments_bounds(s: Seq<char>, i: int)
    requires
        0 <= i <= s.len(),
    ensures
        spec_arguments(s, i) matches Lst::LGot(_, p) ==> i < p <= s.len(),
{
    if 0 <= i < s.len() && s[i] == '(' {
        lemma_argument_bounds(s, i + 1);
        lemma_ws_to_bounds(s, i + 1);
        match spec_argument(s, i + 1) {
            ASt::AGot(_, e) => {
                if i < e <= s.len() {
                    lemma_args_rest_bounds(s, e);
                    match spec_args_rest(s, e) {
                        Lst::LGot(_, p) => {
                            lemma_ws_to_bounds(s, p);
                        },
                        _ => {},
                    }
                }
            },
            _ => {},
        }
    }
}

// ---------------------------------------------------------------------
// The expression alternatives.
// ---------------------------------------------------------------------
/// Outcome of parsing a whole function call.
pub enum Cst {
    CGot(Seq<char>, Seq<ArgSpec>),
    CMiss,
    CHalt,
}

/// A function call standing alone (with surrounding whitespace) at
/// `i0`: a dotted chain then an argument list, consuming all input.
pub open spec fn spec_function_call(s: Seq<char>, i0: int) -> Cst {
    if !(0 <= i0 <= s.len()) {
        Cst::CMiss
    } else {
        let i = ws_to(s, i0);
        match spec_im(s, i) {
            PStep::Halt => Cst::CHalt,
            PStep::Miss => Cst::CMiss,
            PStep::At(j) => if i <= j <= s.len() {
                match spec_arguments(s, j) {
                    Lst::LHalt => Cst::CHalt,
                    Lst::LMiss => Cst::CMiss,
                    Lst::LGot(args, e) => if ws_to(s, e) == s.len() {
                        Cst::CGot(s.subrange(i, j), args)
                    } else {
                        Cst::CMiss
                    },
                }
            } else {
                Cst::CMiss
            },
        }
    }
}

/// Outcome of parsing a bare value access.
pub enum VSt {
    VGot(Seq<char>),
    VMiss,
    VHalt,
}

/// A dotted chain standing alone (with surrounding whitespace) at
/// `i0`, consuming all input.
pub open spec fn spec_value_access(s: Seq<char>, i0: int) -> VSt {
    if !(0 <= i0 <= s.len()) {
        VSt::VMiss
    } else {
        let i = ws_to(s, i0);
        match spec_im(s, i) {
            PStep::Halt => VSt::VHalt,
            PStep::Miss => VSt::VMiss,
            PStep::At(j) => if i <= j <= s.len() && ws_to(s, j) == s.len() {
                VSt::VGot(s.subrange(i, j))
            } else {
                VSt::VMiss
            },
        }
    }
}

/// Outcome of parsing a string predicate.
pub enum Sst {
    SGot(StrOperation, Seq<char>, Option<i64>),
    SMiss,
    SHalt,
}

/// A string predicate at `i`: a sigil, the string name, and — for `@`
/// and `!` only, mandatorily — a bracketed positive index; it must
/// consume all input.  A missing, malformed or non-positive index
/// after `@` or `!` stops the parse hard.
pub open spec fn spec_string_operation(s: Seq<char>, i: int) -> Sst {
    if !(0 <= i <= s.len()) {
        Sst::SMiss
    } else {
        let a = ws_to(s, i);
        if a >= s.len() {
            Sst::SMiss
        } else {
            let c = s[a];
            if c == '$' || c == '#' {
                let op = if c == '$' {
                    StrOperation::MatchesOnce
                } else {
                    StrOperation::MatchesCount
                };
                let j = ident_to(s, a + 1);
                if j == a + 1 {
                    Sst::SMiss
                } else if ws_to(s, j) == s.len() {
                    Sst::SGot(op, s.subrange(a + 1, j), None)
                } else {
                    Sst::SMiss
                }
            } else if c == '@' || c == '!' {
                let op = if c == '@' {
                    StrOperation::MatchOffset
                } else {
                    StrOperation::MatchLength
                };
                let j = ident_to(s, a + 1);
                if j == a + 1 {
                    Sst::SMiss
                } else {
                    match spec_array_access(s, j) {
                        Some((vdx, e)) => if vdx > 0 {
                            if ws_to(s, e) == s.len() {
                                Sst::SGot(op, s.subrange(a + 1, j), Some(vdx))
                            } else {
                                Sst::SMiss
                            }
                        } else {
                            Sst::SHalt
                        },
                        None => Sst::SHalt,
                    }
                }
            } else {
                Sst::SMiss
            }
        }
    }
}

/// What a query parses to: `None` for a parse error, else the optional
/// rule context and the expression.  The alternatives are tried in
/// order — string predicate, function call, value access — and only
/// when a rule context is present and none of them hard-stopped does
/// the remaining text become a `Complex` expression.
pub open spec fn spec_parse(s: Seq<char>) -> Option<(Option<Seq<char>>, ExprSpec)> {
    let ctx = spec_rule_context(s);
    let cname = match ctx {
        Some((n, _)) => Some(n),
        None => None::<Seq<char>>,
    };
    let start = match ctx {
        Some((_, e)) => e,
        None => 0,
    };
    if !(0 <= start <= s.len()) {
        None
    } else {
        match spec_string_operation(s, start) {
            Sst::SGot(op, p, ix) => Some((cname, ExprSpec::EString(op, p, ix))),
            Sst::SHalt => None,
            Sst::SMiss => match spec_function_call(s, start) {
                Cst::CGot(n, args) => Some((cname, ExprSpec::EFunction(n, args))),
                Cst::CHalt => None,
                Cst::CMiss => match spec_value_access(s, start) {
                    VSt::VGot(n) => Some((cname, ExprSpec::EValue(n))),
                    VSt::VHalt => None,
                    VSt::VMiss => match ctx {
                        Some((n, e)) => if e < s.len() {
                            Some((Some(n), ExprSpec::EComplex(s.subrange(e, s.len() as int))))
                        } else {
                            None
                        },
                        None => None,
                    },
                },
            },
        }
    }
}

proof fn lemma_float_to_bounds(s: Seq<char>, i: int)
    requires
        0 <= i <= s.len(),
    ensures
        spec_float_to(s, i) matches FStep::FAt(e) ==> i < e <= s.len(),
{
    reveal_strlit("nan");
    reveal_strlit("infinity");
    reveal_strlit("inf");
    let j = if i < s.len() && (s[i] == '+' || s[i] == '-') {
        i + 1
    } else {
        i
    };
    lemma_digits_to_bounds(s, j);
    let d1 = digits_to(s, j);
    if d1 > j && d1 < s.len() && s[d1] == '.' {
        lemma_digits_to_bounds(s, d1 + 1);
    }
    if d1 == j && j < s.len() && s[j] == '.' {
        lemma_digits_to_bounds(s, j + 1);
    }
    if d1 > j {
        let p = if d1 < s.len() && s[d1] == '.' {
            digits_to(s, d1 + 1)
        } else {
            d1
        };
        if p < s.len() && (s[p] == 'e' || s[p] == 'E') {
            let q = if p + 1 < s.len() && (s[p + 1] == '+' || s[p + 1] == '-') {
                p + 2
            } else {
                p + 1
            };
            lemma_digits_to_bounds(s, q);
        }
    } else if j < s.len() && s[j] == '.' {
        let p = digits_to(s, j + 1);
        if p > j + 1 && p < s.len() && (s[p] == 'e' || s[p] == 'E') {
            let q = if p + 1 < s.len() && (s[p + 1] == '+' || s[p + 1] == '-') {
                p + 2
            } else {
                p + 1
            };
            lemma_digits_to_bounds(s, q);
        }
    }
}

// ---------------------------------------------------------------------
// The executable parser.
// ---------------------------------------------------------------------
enum Im {
    IAt(usize),
    IMiss,
    IHalt,
}

fn dict_access(v: &Vec<char>, i: usize) -> (r: Option<usize>)
    requires
        i <= v@.len(),
    ensures
        match spec_dict_access(v@, i as int) {
            Some(e) => r matches Some(p) && p as int == e && i < e <= v@.len(),
            None => r is None,
        },
{
    proof {
        lemma_dict_access_bounds(v@, i as int);
    }
    if i < v.len() && v[i] == '[' {
        match string_lit_at(v, i + 1) {
            Some((_, _, e)) => {
                if e < v.len() && v[e] == ']' {
                    Some(e + 1)
                } else {
                    None
                }
            },
            None => None,
        }
    } else {
        None
    }
}

fn iterable_access_multi(v: &Vec<char>, i: usize) -> (r: Option<usize>)
    requires
        i <= v@.len(),
    ensures
        match spec_iam(v@, i as int) {
            Some(e) => r matches Some(p) && p as int == e && i < e <= v@.len(),
            None => r is None,
        },
    decreases v@.len() - i,
{
    proof {
        lemma_iam_bounds(v@, i as int);
    }
    let first = match dict_access(v, i) {
        Some(e) => Some(e),
        None => match array_access(v, i) {
            Some((_, e)) => Some(e),
            None => None,
        },
    };
    match first {
        Some(e) => match iterable_access_multi(v, e) {
            Some(e2) => Some(e2),
            None => Some(e),
        },
        None => None,
    }
}

fn identifier_multi_at(v: &Vec<char>, i: usize) -> (r: Im)
    requires
        i <= v@.len(),
    ensures
        match spec_im(v@, i as int) {
            PStep::At(e) => r matches Im::IAt(p) && p as int == e && i < e <= v@.len(),
            PStep::Miss => r is IMiss,
            PStep::Halt => r is IHalt,
        },
    decreases v@.len() - i,
{
    proof {
        lemma_im_bounds(v@, i as int);
    }
    let j = skip_ident(v, i);
    if j == i {
        return Im::IMiss;
    }
    let k = match iterable_access_multi(v, j) {
        Some(e) => e,
        None => j,
    };
    if k < v.len() && v[k] == '.' {
        match identifier_multi_at(v, k + 1) {
            Im::IAt(e) => Im::IAt(e),
            _ => Im::IHalt,
        }
    } else {
        Im::IAt(k)
    }
}

fn rule_context_ex(s: &str, v: &Vec<char>) -> (r: Option<(String, usize)>)
    requires
        v@ == s@,
    ensures
        match spec_rule_context(s@) {
            Some((n, e)) => r matches Some(p) && p.0@ == n && p.1 as int == e && 0 <= e
                <= s@.len(),
            None => r is None,
        },
{
    proof {
        lemma_rule_context_bounds(s@);
    }
    let a = skip_ws(v, 0);
    let j = skip_ident(v, a);
    if j > a && j < v.len() && v[j] == '|' {
        let name = String::from_str(s.substring_char(a, j));
        let e = skip_ws(v, j + 1);
        Some((name, e))
    } else {
        None
    }
}

enum FRes {
    At(usize),
    Miss,
    Halt,
}

fn prefix_ci_ex(v: &Vec<char>, i: usize, lit: &str) -> (r: bool)
    requires
        i <= v@.len(),
    ensures
        r == prefix_ci(v@, i as int, lit@),
{
    let l = chars_of(lit);
    if v.len() - i < l.len() {
        return false;
    }
    let n = l.len();
    let vn: usize = v.len();
    let mut k: usize = 0;
    while k < n
        invariant
            n == l@.len(),
            l@ == lit@,
            v@.len() == vn,
            i + n <= v@.len(),
            k <= n,
            forall|m: int|
                0 <= m < k ==> crate::text::lower_char(v@[i + m]) == lit@[m],
        decreases n - k,
    {
        if crate::text::lower_char_exec(v[i + k]) != l[k] {
            assert(crate::text::lower_char(v@[i + k]) != lit@[k as int]);
            return false;
        }
        k += 1;
    }
    true
}

fn float_to_ex(v: &Vec<char>, i: usize) -> (r: FRes)
    requires
        i <= v@.len(),
    ensures
        match spec_float_to(v@, i as int) {
            FStep::FAt(e) => r matches FRes::At(p) && p as int == e && i < e <= v@.len(),
            FStep::FMiss => r is Miss,
            FStep::FHalt => r is Halt,
        },
{
    proof {
        lemma_float_to_bounds(v@, i as int);
    }
    let j: usize = if i < v.len() && (v[i] == '+' || v[i] == '-') {
        i + 1
    } else {
        i
    };
    let d1 = skip_digits(v, j);
    let core: Option<usize> = if d1 > j {
        if d1 < v.len() && v[d1] == '.' {
            Some(skip_digits(v, d1 + 1))
        } else {
            Some(d1)
        }
    } else if j < v.len() && v[j] == '.' {
        let f = skip_digits(v, j + 1);
        if f > j + 1 {
            Some(f)
        } else {
            None
        }
    } else {
        None
    };
    match core {
        Some(p) => {
            if p < v.len() && (v[p] == 'e' || v[p] == 'E') {
                let q: usize = if p + 1 < v.len() && (v[p + 1] == '+' || v[p + 1] == '-') {
                    p + 2
                } else {
                    p + 1
                };
                let rr = skip_digits(v, q);
                if rr > q {
                    FRes::At(rr)
                } else {
                    FRes::Halt
                }
            } else {
                FRes::At(p)
            }
        },
        None => {
            if prefix_ci_ex(v, i, "nan") {
                FRes::At(i + 3)
            } else if prefix_ci_ex(v, i, "infinity") {
                FRes::At(i + 8)
            } else if prefix_ci_ex(v, i, "inf") {
                FRes::At(i + 3)
            } else {
                FRes::Miss
            }
        },
    }
}

enum PArg {
    Got(Argument, usize),
    Miss,
    Halt,
}

fn argument_ex(s: &str, v: &Vec<char>, i: usize) -> (r: PArg)
    requires
        v@ == s@,
        i <= v@.len(),
    ensures
        match spec_argument(s@, i as int) {
            ASt::AGot(av, e) => r matches PArg::Got(a, p) && arg_view(a) == av && p as int
                == e && i < e <= s@.len(),
            ASt::AMiss => r is Miss,
            ASt::AHalt => r is Halt,
        },
{
    proof {
        lemma_argument_bounds(s@, i as int);
    }
    let a = skip_ws(v, i);
    match string_lit_at(v, a) {
        Some((cs, ce, e)) => {
            let text = String::from_str(s.substring_char(cs, ce));
            return PArg::Got(Argument::String(text), e);
        },
        None => {},
    }
    if a < v.len() && v[a] == '/' {
        match scan_body(v, a + 1, '/') {
            Some(q) => {
                let m = skip_alpha(v, q + 1);
                if check_mods(v, q + 1, m) {
                    let pat = String::from_str(s.substring_char(a + 1, q));
                    let mods = String::from_str(s.substring_char(q + 1, m));
                    return PArg::Got(Argument::Regexp(pat, mods), m);
                } else {
                    return PArg::Halt;
                }
            },
            None => {},
        }
    }
    let ne = skip_not(v, a);
    if ne > a {
        match int_parse_range(v, a, ne) {
            Some(x) => {
                return PArg::Got(Argument::Integer(x), ne);
            },
            None => {},
        }
    }
    match float_to_ex(v, a) {
        FRes::At(e) => {
            let text = String::from_str(s.substring_char(a, e));
            PArg::Got(Argument::Float(text), e)
        },
        FRes::Miss => PArg::Miss,
        FRes::Halt => PArg::Halt,
    }
}

enum PArgs {
    Got(Vec<Argument>, usize),
    Miss,
    Halt,
}

/// The ghost rendering of an argument vector.
pub open spec fn args_view(args: Seq<Argument>) -> Seq<ArgSpec> {
    args.map_values(|a: Argument| arg_view(a))
}

fn args_rest_ex(s: &str, v: &Vec<char>, i: usize) -> (r: PArgs)
    requires
        v@ == s@,
        i <= v@.len(),
    ensures
        match spec_args_rest(s@, i as int) {
            Lst::LGot(vs, p) => r matches PArgs::Got(args, pp) && args_view(args@) == vs
                && pp as int == p && i <= p <= s@.len(),
            Lst::LHalt => r is Halt,
            Lst::LMiss => r is Miss,
        },
    decreases v@.len() - i,
{
    proof {
        lemma_args_rest_bounds(s@, i as int);
    }
    let w = skip_ws(v, i);
    if w < v.len() && v[w] == ',' {
        match argument_ex(s, v, w + 1) {
            PArg::Got(a, e) => {
                match args_rest_ex(s, v, e) {
                    PArgs::Got(mut args, p) => {
                        let ghost tail = args@;
                        args.insert(0, a);
                        proof {
                            assert(args@[0] == a);
                            assert(args@.drop_first() =~= tail);
                            assert(args_view(args@) =~= seq![arg_view(a)] + args_view(
                                tail,
                            ));
                        }
                        PArgs::Got(args, p)
                    },
                    _ => PArgs::Halt,
                }
            },
            PArg::Miss => {
                let empty: Vec<Argument> = Vec::new();
                proof {
                    assert(args_view(empty@) =~= Seq::<ArgSpec>::empty());
                }
                PArgs::Got(empty, i)
            },
            PArg::Halt => PArgs::Halt,
        }
    } else {
        let empty: Vec<Argument> = Vec::new();
        proof {
            assert(args_view(empty@) =~= Seq::<ArgSpec>::empty());
        }
        PArgs::Got(empty, i)
    }
}

fn arguments_ex(s: &str, v: &Vec<char>, i: usize) -> (r: PArgs)
    requires
        v@ == s@,
        i <= v@.len(),
    ensures
        match spec_arguments(s@, i as int) {
            Lst::LGot(vs, p) => r matches PArgs::Got(args, pp) && args_view(args@) == vs
                && pp as int == p && i < p <= s@.len(),
            Lst::LHalt => r is Halt,
            Lst::LMiss => r is Miss,
        },
{
    proof {
        lemma_arguments_bounds(s@, i as int);
    }
    if i < v.len() && v[i] == '(' {
        match argument_ex(s, v, i + 1) {
            PArg::Halt => PArgs::Halt,
            PArg::Miss => {
                let empty: Vec<Argument> = Vec::new();
                proof {
                    assert(args_view(empty@) =~= Seq::<ArgSpec>::empty());
                }
                close_args_ex(v, i + 1, empty)
            },
            PArg::Got(a, e) => {
                match args_rest_ex(s, v, e) {
                    PArgs::Got(mut args, p) => {
                        let ghost tail = args@;
                        args.insert(0, a);
                        proof {
                            assert(args@[0] == a);
                            assert(args@.drop_first() =~= tail);
                            assert(args_view(args@) =~= seq![arg_view(a)] + args_view(
                                tail,
                            ));
                        }
                        close_args_ex(v, p, args)
                    },
                    _ => PArgs::Halt,
                }
            },
        }
    } else {
        PArgs::Miss
    }
}

enum PCall {
    Got(String, Vec<Argument>),
    Miss,
    Halt,
}

fn function_call_ex(s: &str, v: &Vec<char>, i0: usize) -> (r: PCall)
    requires
        v@ == s@,
        i0 <= v@.len(),
    ensures
        match spec_function_call(s@, i0 as int) {
            Cst::CGot(n, args) => r matches PCall::Got(name, a) && name@ == n && args_view(
                a@,
            ) == args,
            Cst::CMiss => r is Miss,
            Cst::CHalt => r is Halt,
        },
{
    let i = skip_ws(v, i0);
    match identifier_multi_at(v, i) {
        Im::IHalt => PCall::Halt,
        Im::IMiss => PCall::Miss,
        Im::IAt(j) => {
            match arguments_ex(s, v, j) {
                PArgs::Halt => PCall::Halt,
                PArgs::Miss => PCall::Miss,
                PArgs::Got(args, e) => {
                    let t = skip_ws(v, e);
                    if t == v.len() {
                        let name = String::from_str(s.substring_char(i, j));
                        PCall::Got(name, args)
                    } else {
                        PCall::Miss
                    }
                },
            }
        },
    }
}

enum PVal {
    Got(String),
    Miss,
    Halt,
}

fn value_access_ex(s: &str, v: &Vec<char>, i0: usize) -> (r: PVal)
    requires
        v@ == s@,
        i0 <= v@.len(),
    ensures
        match spec_value_access(s@, i0 as int) {
            VSt::VGot(n) => r matches PVal::Got(name) && name@ == n,
            VSt::VMiss => r is Miss,
            VSt::VHalt => r is Halt,
        },
{
    let i = skip_ws(v, i0);
    match identifier_multi_at(v, i) {
        Im::IHalt => PVal::Halt,
        Im::IMiss => PVal::Miss,
        Im::IAt(j) => {
            let t = skip_ws(v, j);
            if t == v.len() {
                PVal::Got(String::from_str(s.substring_char(i, j)))
            } else {
                PVal::Miss
            }
        },
    }
}

enum PStr {
    Got(StrOperation, String, Option<i64>),
    Miss,
    Halt,
}

fn string_operation_ex(s: &str, v: &Vec<char>, i: usize) -> (r: PStr)
    requires
        v@ == s@,
        i <= v@.len(),
    ensures
        match spec_string_operation(s@, i as int) {
            Sst::SGot(op, p, ix) => r matches PStr::Got(o2, p2, ix2) && o2 == op && p2@
                == p && ix2 == ix,
            Sst::SMiss => r is Miss,
            Sst::SHalt => r is Halt,
        },
{
    let a = skip_ws(v, i);
    if a >= v.len() {
        return PStr::Miss;
    }
    let c = v[a];
    if c == '$' || c == '#' {
        let op = if c == '$' {
            StrOperation::MatchesOnce
        } else {
            StrOperation::MatchesCount
        };
        let j = skip_ident(v, a + 1);
        if j == a + 1 {
            PStr::Miss
        } else {
            let t = skip_ws(v, j);
            if t == v.len() {
                PStr::Got(op, String::from_str(s.substring_char(a + 1, j)), None)
            } else {
                PStr::Miss
            }
        }
    } else if c == '@' || c == '!' {
        let op = if c == '@' {
            StrOperation::MatchOffset
        } else {
            StrOperation::MatchLength
        };
        let j = skip_ident(v, a + 1);
        if j == a + 1 {
            PStr::Miss
        } else {
            match array_access(v, j) {
                Some((vdx, e)) => {
                    if vdx > 0 {
                        let t = skip_ws(v, e);
                        if t == v.len() {
                            PStr::Got(
                                op,
                                String::from_str(s.substring_char(a + 1, j)),
                                Some(vdx),
                            )
                        } else {
                            PStr::Miss
                        }
                    } else {
                        PStr::Halt
                    }
                },
                None => PStr::Halt,
            }
        }
    } else {
        PStr::Miss
    }
}

/// Does the parse result `r` render the ghost outcome `(octx, espec)`?
pub open spec fn parse_result_matches(
    r: Result<(Option<String>, Expression), YariError>,
    out: Option<(Option<Seq<char>>, ExprSpec)>,
) -> bool {
    match out {
        Some((octx, espec)) => r matches Ok((c, e)) && (match octx {
            Some(n) => c matches Some(cs) && cs@ == n,
            None => c is None,
        }) && expr_view(e) == espec,
        None => r == Err::<(Option<String>, Expression), YariError>(YariError::ParserError),
    }
}

/// Parse a query: an optional `rule|` context followed by a string
/// predicate, a function call, a value access or — with a context
/// present — an arbitrary complex expression.
pub fn parse(input: &str) -> (r: Result<(Option<String>, Expression), YariError>)
    ensures
        parse_result_matches(r, spec_parse(input@)),
{
    let v = chars_of(input);
    proof {
        lemma_rule_context_bounds(input@);
    }
    let ctx = rule_context_ex(input, &v);
    let start: usize = match &ctx {
        Some(p) => p.1,
        None => 0,
    };
    match string_operation_ex(input, &v, start) {
        PStr::Got(op, prefix, index) => {
            let cname = match ctx {
                Some((n, _)) => Some(n),
                None => None,
            };
            return Ok((cname, Expression::String { operator: op, prefix, index }));
        },
        PStr::Halt => {
            return Err(YariError::ParserError);
        },
        PStr::Miss => {},
    }
    match function_call_ex(input, &v, start) {
        PCall::Got(name, args) => {
            let cname = match ctx {
                Some((n, _)) => Some(n),
                None => None,
            };
            return Ok((cname, Expression::Function { name, args }));
        },
        PCall::Halt => {
            return Err(YariError::ParserError);
        },
        PCall::Miss => {},
    }
    match value_access_ex(input, &v, start) {
        PVal::Got(name) => {
            let cname = match ctx {
                Some((n, _)) => Some(n),
                None => None,
            };
            return Ok((cname, Expression::Value(name)));
        },
        PVal::Halt => {
            return Err(YariError::ParserError);
        },
        PVal::Miss => {},
    }
    match ctx {
        Some((n, e)) => {
            if e < v.len() {
                let text = String::from_str(input.substring_char(e, v.len()));
                Ok((Some(n), Expression::Complex(text)))
            } else {
                Err(YariError::ParserError)
            }
        },
        None => Err(YariError::ParserError),
    }
}

// ---------------------------------------------------------------------
// Stand-alone entry points for the grammar's pieces.
// ---------------------------------------------------------------------
/// Parse a whole dotted identifier chain, accessors included.
pub fn identifier_multi(input: &str) -> (r: Result<String, YariError>)
    ensures
        match spec_im(input@, 0) {
            PStep::At(e) => if e == input@.len() {
                r matches Ok(m) && m@ == input@
            } else {
                r == Err::<String, YariError>(YariError::ParserError)
            },
            _ => r == Err::<String, YariError>(YariError::ParserError),
        },
{
    let v = chars_of(input);
    match identifier_multi_at(&v, 0) {
        Im::IAt(e) => {
            if e == v.len() {
                proof {
                    assert(input@.subrange(0, e as int) =~= input@);
                }
                Ok(String::from_str(input.substring_char(0, e)))
            } else {
                Err(YariError::ParserError)
            }
        },
        _ => Err(YariError::ParserError),
    }
}

/// Parse a whole regular-expression literal `/pattern/modifiers`.
pub fn regexp(input: &str) -> (r: Result<(String, String), YariError>)
    ensures
        match spec_regexp(input@, 0) {
            Rst::RGot(p, m, e) => if e == input@.len() {
                r matches Ok(pm) && pm.0@ == p && pm.1@ == m
            } else {
                r == Err::<(String, String), YariError>(YariError::ParserError)
            },
            _ => r == Err::<(String, String), YariError>(YariError::ParserError),
        },
{
    let v = chars_of(input);
    if v.len() > 0 && v[0] == '/' {
        match scan_body(&v, 1, '/') {
            Some(q) => {
                let m = skip_alpha(&v, q + 1);
                if check_mods(&v, q + 1, m) {
                    if m == v.len() {
                        let pat = String::from_str(input.substring_char(1, q));
                        let mods = String::from_str(input.substring_char(q + 1, m));
                        Ok((pat, mods))
                    } else {
                        Err(YariError::ParserError)
                    }
                } else {
                    Err(YariError::ParserError)
                }
            },
            None => Err(YariError::ParserError),
        }
    } else {
        Err(YariError::ParserError)
    }
}

/// Parse a whole quoted string literal, escapes kept verbatim.
pub fn string(input: &str) -> (r: Result<String, YariError>)
    ensures
        match spec_string_lit(input@, 0) {
            Some((c, e)) => if e == input@.len() {
                r matches Ok(t) && t@ == c
            } else {
                r == Err::<String, YariError>(YariError::ParserError)
            },
            None => r == Err::<String, YariError>(YariError::ParserError),
        },
{
    let v = chars_of(input);
    match string_lit_at(&v, 0) {
        Some((cs, ce, e)) => {
            if e == v.len() {
                Ok(String::from_str(input.substring_char(cs, ce)))
            } else {
                Err(YariError::ParserError)
            }
        },
        None => Err(YariError::ParserError),
    }
}

/// Parse a whole escape sequence: a backslash and the escaped
/// character, kept verbatim.
pub fn regexp_escape(input: &str) -> (r: Result<String, YariError>)
    ensures
        input@.len() == 2 && input@[0] == '\\' ==> (r matches Ok(t) && t@ == input@),
        !(input@.len() == 2 && input@[0] == '\\') ==> r == Err::<String, YariError>(
            YariError::ParserError,
        ),
{
    let v = chars_of(input);
    if v.len() == 2 && v[0] == '\\' {
        Ok(String::from_str(input))
    } else {
        Err(YariError::ParserError)
    }
}

/// Parse a whole string predicate.
pub fn string_operation(input: &str) -> (r: Result<
    (StrOperation, String, Option<i64>),
    YariError,
>)
    ensures
        match spec_string_operation(input@, 0) {
            Sst::SGot(op, p, ix) => r matches Ok(t) && t.0 == op && t.1@ == p && t.2 == ix,
            _ => r == Err::<(StrOperation, String, Option<i64>), YariError>(
                YariError::ParserError,
            ),
        },
{
    let v = chars_of(input);
    match string_operation_ex(input, &v, 0) {
        PStr::Got(op, prefix, index) => Ok((op, prefix, index)),
        _ => Err(YariError::ParserError),
    }
}

/// Parse a whole function-call argument.
pub fn argument(input: &str) -> (r: Result<Argument, YariError>)
    ensures
        match spec_argument(input@, 0) {
            ASt::AGot(av, e) => if e == input@.len() {
                r matches Ok(a) && arg_view(a) == av
            } else {
                r == Err::<Argument, YariError>(YariError::ParserError)
            },
            _ => r == Err::<Argument, YariError>(YariError::ParserError),
        },
{
    let v = chars_of(input);
    match argument_ex(input, &v, 0) {
        PArg::Got(a, e) => {
            if e == v.len() {
                Ok(a)
            } else {
                Err(YariError::ParserError)
            }
        },
        _ => Err(YariError::ParserError),
    }
}

// ---------------------------------------------------------------------
// Reading the module out of an expression.
// ---------------------------------------------------------------------
/// The end of the run of characters other than `.` at `i`.
pub open spec fn dot_to(s: Seq<char>, i: int) -> int
    decreases s.len() - i,
{
    if 0 <= i < s.len() && s[i] != '.' {
        dot_to(s, i + 1)
    } else {
        i
    }
}

/// The leading path segment of `s`: everything before the first dot.
pub open spec fn first_segment(s: Seq<char>) -> Seq<char> {
    s.subrange(0, dot_to(s, 0))
}

proof fn lemma_dot_to_bounds(s: Seq<char>, i: int)
    requires
        0 <= i <= s.len(),
    ensures
        i <= dot_to(s, i) <= s.len(),
    decreases s.len() - i,
{
    if i < s.len() && s[i] != '.' {
        lemma_dot_to_bounds(s, i + 1);
    }
}

impl Expression {
    /// The module the expression's leading path segment names, if any:
    /// only function calls and value accesses carry one.
    pub fn get_module(&self) -> (r: Option<Module>)
        ensures
            match self {
                Expression::Function { name, .. } => r == spec_module_from(
                    first_segment(name@),
                ),
                Expression::Value(name) => r == spec_module_from(first_segment(name@)),
                _ => r is None,
            },
    {
        let name: &String = match self {
            Expression::Function { name, .. } => name,
            Expression::Value(name) => name,
            Expression::String { .. } => {
                return None;
            },
            Expression::Complex(_) => {
                return None;
            },
        };
        let v = chars_of(name.as_str());
        proof {
            lemma_dot_to_bounds(name@, 0);
        }
        let mut j: usize = 0;
        while j < v.len() && v[j] != '.'
            invariant
                j <= v@.len(),
                v@ == name@,
                dot_to(v@, 0) == dot_to(v@, j as int),
            decreases v@.len() - j,
        {
            j += 1;
        }
        let seg = name.as_str().substring_char(0, j);
        match Module::from_str(seg) {
            Ok(m) => Some(m),
            Err(_) => None,
        }
    }
}

fn close_args_ex(v: &Vec<char>, p: usize, args: Vec<Argument>) -> (r: PArgs)
    requires
        p <= v@.len(),
    ensures
        match spec_close_args(v@, p as int, args_view(args@)) {
            Lst::LGot(vs, e) => r matches PArgs::Got(a2, pp) && args_view(a2@) == vs
                && pp as int == e && p < e <= v@.len(),
            Lst::LMiss => r is Miss,
            Lst::LHalt => r is Halt,
        },
{
    let w = skip_ws(v, p);
    if w < v.len() && v[w] == ')' {
        PArgs::Got(args, w + 1)
    } else {
        PArgs::Miss
    }
}

// ---------------------------------------------------------------------
// Whitespace padding never changes what a query parses to (leading
// side).  The lemmas below shift every grammar function across a
// whitespace prefix.
// ---------------------------------------------------------------------
/// Every character of `p` is grammar whitespace.
pub open spec fn all_ws(p: Seq<char>) -> bool {
    forall|k: int| 0 <= k < p.len() ==> is_ws_char(#[trigger] p[k])
}

/// `t` is `s` with a whitespace prefix of length `off`.
pub open spec fn ws_prefixed(s: Seq<char>, t: Seq<char>, off: int) -> bool {
    &&& 0 <= off
    &&& t.len() == off + s.len()
    &&& forall|j: int| 0 <= j < off ==> is_ws_char(#[trigger] t[j])
    &&& forall|j: int| 0 <= j < s.len() ==> #[trigger] t[off + j] == s[j]
}

proof fn lemma_subrange_shift(s: Seq<char>, t: Seq<char>, off: int, a: int, b: int)
    requires
        ws_prefixed(s, t, off),
        0 <= a <= b <= s.len(),
    ensures
        t.subrange(off + a, off + b) == s.subrange(a, b),
{
    assert forall|k: int| 0 <= k < b - a implies t.subrange(off + a, off + b)[k]
        == s.subrange(a, b)[k] by {
        assert(t[off + (a + k)] == s[a + k]);
    }
    assert(t.subrange(off + a, off + b) =~= s.subrange(a, b));
}

proof fn lemma_ws_to_shift(s: Seq<char>, t: Seq<char>, off: int, i: int)
    requires
        ws_prefixed(s, t, off),
        0 <= i <= s.len(),
    ensures
        ws_to(t, off + i) == off + ws_to(s, i),
    decreases s.len() - i,
{
    if i < s.len() && is_ws_char(s[i]) {
        lemma_ws_to_shift(s, t, off, i + 1);
    }
}

proof fn lemma_ws_to_pad(s: Seq<char>, t: Seq<char>, off: int, j: int)
    requires
        ws_prefixed(s, t, off),
        0 <= j <= off,
    ensures
        ws_to(t, j) == off + ws_to(s, 0),
    decreases off - j,
{
    if j < off {
        lemma_ws_to_pad(s, t, off, j + 1);
    } else {
        lemma_ws_to_shift(s, t, off, 0);
    }
}

proof fn lemma_ident_to_shift(s: Seq<char>, t: Seq<char>, off: int, i: int)
    requires
        ws_prefixed(s, t, off),
        0 <= i <= s.len(),
    ensures
        ident_to(t, off + i) == off + ident_to(s, i),
    decreases s.len() - i,
{
    if i < s.len() && is_ident_char(s[i]) {
        lemma_ident_to_shift(s, t, off, i + 1);
    }
}

proof fn lemma_digits_to_shift(s: Seq<char>, t: Seq<char>, off: int, i: int)
    requires
        ws_prefixed(s, t, off),
        0 <= i <= s.len(),
    ensures
        digits_to(t, off + i) == off + digits_to(s, i),
    decreases s.len() - i,
{
    if i < s.len() && is_digit_char(s[i]) {
        lemma_digits_to_shift(s, t, off, i + 1);
    }
}

proof fn lemma_alpha_to_shift(s: Seq<char>, t: Seq<char>, off: int, i: int)
    requires
        ws_prefixed(s, t, off),
        0 <= i <= s.len(),
    ensures
        alpha_to(t, off + i) == off + alpha_to(s, i),
    decreases s.len() - i,
{
    if i < s.len() && is_alpha_char(s[i]) {
        lemma_alpha_to_shift(s, t, off, i + 1);
    }
}

proof fn lemma_not_to_shift(s: Seq<char>, t: Seq<char>, off: int, i: int)
    requires
        ws_prefixed(s, t, off),
        0 <= i <= s.len(),
    ensures
        not_to(t, off + i) == off + not_to(s, i),
    decreases s.len() - i,
{
    if i < s.len() && s[i] != ',' && s[i] != ')' {
        lemma_not_to_shift(s, t, off, i + 1);
    }
}

proof fn lemma_body_to_shift(s: Seq<char>, t: Seq<char>, off: int, i: int, d: char)
    requires
        ws_prefixed(s, t, off),
        0 <= i <= s.len(),
    ensures
        match body_to(s, i, d) {
            Some(q) => body_to(t, off + i, d) == Some(off + q),
            None => body_to(t, off + i, d) is None,
        },
    decreases s.len() - i,
{
    if i < s.len() {
        if s[i] == d {
        } else if s[i] == '\\' {
            if i + 1 < s.len() {
                lemma_body_to_shift(s, t, off, i + 2, d);
            }
        } else {
            lemma_body_to_shift(s, t, off, i + 1, d);
        }
    }
}

proof fn lemma_count_char_shift(s: Seq<char>, t: Seq<char>, off: int, a: int, b: int, c: char)
    requires
        ws_prefixed(s, t, off),
        0 <= a <= b <= s.len(),
    ensures
        count_char(t, off + a, off + b, c) == count_char(s, a, b, c),
    decreases b - a,
{
    if a < b {
        lemma_count_char_shift(s, t, off, a, b - 1, c);
    }
}

proof fn lemma_mods_ok_shift(s: Seq<char>, t: Seq<char>, off: int, a: int, b: int)
    requires
        ws_prefixed(s, t, off),
        0 <= a <= b <= s.len(),
    ensures
        mods_ok(t, off + a, off + b) == mods_ok(s, a, b),
{
    lemma_count_char_shift(s, t, off, a, b, 'i');
    lemma_count_char_shift(s, t, off, a, b, 's');
    assert(forall|k: int| a <= k < b ==> #[trigger] t[off + k] == s[k]);
    if (forall|k: int| a <= k < b ==> (#[trigger] s[k]) == 'i' || s[k] == 's') {
        assert forall|k: int| off + a <= k < off + b implies ((#[trigger] t[k]) == 'i'
            || t[k] == 's') by {
            assert(t[off + (k - off)] == s[k - off]);
            assert(s[k - off] == 'i' || s[k - off] == 's');
        }
    } else {
        let k0 = choose|k: int| a <= k < b && !((#[trigger] s[k]) == 'i' || s[k] == 's');
        assert(t[off + k0] == s[k0]);
        assert(!(t[off + k0] == 'i' || t[off + k0] == 's'));
    }
}

proof fn lemma_array_access_shift(s: Seq<char>, t: Seq<char>, off: int, i: int)
    requires
        ws_prefixed(s, t, off),
        0 <= i <= s.len(),
    ensures
        match spec_array_access(s, i) {
            Some((v, e)) => spec_array_access(t, off + i) == Some((v, off + e)),
            None => spec_array_access(t, off + i) is None,
        },
{
    if i < s.len() && s[i] == '[' {
        lemma_digits_to_shift(s, t, off, i + 1);
        lemma_digits_to_bounds(s, i + 1);
        let j = digits_to(s, i + 1);
        if j > i + 1 && j < s.len() && s[j] == ']' {
            lemma_subrange_shift(s, t, off, i + 1, j);
        }
    }
}

proof fn lemma_string_lit_shift(s: Seq<char>, t: Seq<char>, off: int, i: int)
    requires
        ws_prefixed(s, t, off),
        0 <= i <= s.len(),
    ensures
        match spec_string_lit(s, i) {
            Some((c, e)) => spec_string_lit(t, off + i) == Some((c, off + e)),
            None => spec_string_lit(t, off + i) is None,
        },
{
    if i < s.len() && s[i] == '"' {
        lemma_body_to_shift(s, t, off, i + 1, '"');
        lemma_body_to_bounds(s, i + 1, '"');
        match body_to(s, i + 1, '"') {
            Some(q) => {
                lemma_subrange_shift(s, t, off, i + 1, q);
            },
            None => {},
        }
    }
}

proof fn lemma_regexp_shift(s: Seq<char>, t: Seq<char>, off: int, i: int)
    requires
        ws_prefixed(s, t, off),
        0 <= i <= s.len(),
    ensures
        match spec_regexp(s, i) {
            Rst::RGot(p, m, e) => spec_regexp(t, off + i) == Rst::RGot(p, m, off + e),
            Rst::RMiss => spec_regexp(t, off + i) is RMiss,
            Rst::RHalt => spec_regexp(t, off + i) is RHalt,
        },
{
    if i < s.len() && s[i] == '/' {
        lemma_body_to_shift(s, t, off, i + 1, '/');
        lemma_body_to_bounds(s, i + 1, '/');
        match body_to(s, i + 1, '/') {
            Some(q) => {
                lemma_alpha_to_shift(s, t, off, q + 1);
                lemma_alpha_to_bounds(s, q + 1);
                let m = alpha_to(s, q + 1);
                lemma_mods_ok_shift(s, t, off, q + 1, m);
                if mods_ok(s, q + 1, m) {
                    lemma_subrange_shift(s, t, off, i + 1, q);
                    lemma_subrange_shift(s, t, off, q + 1, m);
                }
            },
            None => {},
        }
    }
}

proof fn lemma_dict_access_shift(s: Seq<char>, t: Seq<char>, off: int, i: int)
    requires
        ws_prefixed(s, t, off),
        0 <= i <= s.len(),
    ensures
        match spec_dict_access(s, i) {
            Some(e) => spec_dict_access(t, off + i) == Some(off + e),
            None => spec_dict_access(t, off + i) is None,
        },
{
    if i < s.len() && s[i] == '[' {
        lemma_string_lit_shift(s, t, off, i + 1);
        if i + 1 < s.len() && s[i + 1] == '"' {
            lemma_body_to_bounds(s, i + 2, '"');
        }
    }
}

proof fn lemma_iam_shift(s: Seq<char>, t: Seq<char>, off: int, i: int)
    requires
        ws_prefixed(s, t, off),
        0 <= i <= s.len(),
    ensures
        match spec_iam(s, i) {
            Some(e) => spec_iam(t, off + i) == Some(off + e),
            None => spec_iam(t, off + i) is None,
        },
    decreases s.len() - i,
{
    lemma_dict_access_shift(s, t, off, i);
    lemma_array_access_shift(s, t, off, i);
    lemma_dict_access_bounds(s, i);
    lemma_array_access_bounds(s, i);
    match spec_dict_access(s, i) {
        Some(e) => {
            if i < e <= s.len() {
                lemma_iam_shift(s, t, off, e);
                lemma_iam_bounds(s, e);
            }
        },
        None => {
            match spec_array_access(s, i) {
                Some((_, e)) => {
                    if i < e <= s.len() {
                        lemma_iam_shift(s, t, off, e);
                        lemma_iam_bounds(s, e);
                    }
                },
                None => {},
            }
        },
    }
}

proof fn lemma_im_shift(s: Seq<char>, t: Seq<char>, off: int, i: int)
    requires
        ws_prefixed(s, t, off),
        0 <= i <= s.len(),
    ensures
        match spec_im(s, i) {
            PStep::At(e) => spec_im(t, off + i) == PStep::At(off + e),
            PStep::Miss => spec_im(t, off + i) is Miss,
            PStep::Halt => spec_im(t, off + i) is Halt,
        },
    decreases s.len() - i,
{
    lemma_ident_to_shift(s, t, off, i);
    lemma_ident_to_bounds(s, i);
    let j = ident_to(s, i);
    if j != i {
        lemma_iam_shift(s, t, off, j);
        lemma_iam_bounds(s, j);
        let k = match spec_iam(s, j) {
            Some(e) => e,
            None => j,
        };
        if i < k <= s.len() {
            if k < s.len() && s[k] == '.' {
                lemma_im_shift(s, t, off, k + 1);
            }
        }
    }
}

proof fn lemma_prefix_ci_shift(s: Seq<char>, t: Seq<char>, off: int, i: int, lit: Seq<char>)
    requires
        ws_prefixed(s, t, off),
        0 <= i <= s.len(),
    ensures
        prefix_ci(t, off + i, lit) == prefix_ci(s, i, lit),
{
    if prefix_ci(s, i, lit) {
        assert forall|k: int| 0 <= k < lit.len() implies crate::text::lower_char(
            t[off + i + k],
        ) == lit[k] by {
            assert(t[off + (i + k)] == s[i + k]);
        }
    }
    if prefix_ci(t, off + i, lit) {
        assert forall|k: int| 0 <= k < lit.len() implies crate::text::lower_char(s[i + k])
            == lit[k] by {
            assert(t[off + (i + k)] == s[i + k]);
            assert(crate::text::lower_char(t[off + i + k]) == lit[k]);
        }
    }
}

proof fn lemma_float_to_shift(s: Seq<char>, t: Seq<char>, off: int, i: int)
    requires
        ws_prefixed(s, t, off),
        0 <= i <= s.len(),
    ensures
        match spec_float_to(s, i) {
            FStep::FAt(e) => spec_float_to(t, off + i) == FStep::FAt(off + e),
            FStep::FMiss => spec_float_to(t, off + i) is FMiss,
            FStep::FHalt => spec_float_to(t, off + i) is FHalt,
        },
{
    if i < s.len() {
        assert(t[off + i] == s[i]);
    }
    let j = if i < s.len() && (s[i] == '+' || s[i] == '-') {
        i + 1
    } else {
        i
    };
    let jt = if off + i < t.len() && (t[off + i] == '+' || t[off + i] == '-') {
        off + i + 1
    } else {
        off + i
    };
    assert(jt == off + j);
    lemma_digits_to_shift(s, t, off, j);
    lemma_digits_to_bounds(s, j);
    let d1 = digits_to(s, j);
    assert(digits_to(t, jt) == off + d1);
    if d1 < s.len() {
        assert(t[off + d1] == s[d1]);
    }
    if j < s.len() {
        assert(t[off + j] == s[j]);
    }
    if d1 > j && d1 < s.len() && s[d1] == '.' {
        lemma_digits_to_shift(s, t, off, d1 + 1);
        lemma_digits_to_bounds(s, d1 + 1);
    }
    if d1 == j && j < s.len() && s[j] == '.' {
        lemma_digits_to_shift(s, t, off, j + 1);
        lemma_digits_to_bounds(s, j + 1);
    }
    let core = if d1 > j {
        if d1 < s.len() && s[d1] == '.' {
            Some(digits_to(s, d1 + 1))
        } else {
            Some(d1)
        }
    } else if j < s.len() && s[j] == '.' {
        let f = digits_to(s, j + 1);
        if f > j + 1 {
            Some(f)
        } else {
            None
        }
    } else {
        None
    };
    match core {
        Some(p) => {
            lemma_digits_to_bounds(s, j);
            if p < s.len() {
                assert(t[off + p] == s[p]);
            }
            if p < s.len() && (s[p] == 'e' || s[p] == 'E') {
                if p + 1 < s.len() {
                    assert(t[off + (p + 1)] == s[p + 1]);
                }
                let q = if p + 1 < s.len() && (s[p + 1] == '+' || s[p + 1] == '-') {
                    p + 2
                } else {
                    p + 1
                };
                lemma_digits_to_shift(s, t, off, q);
                lemma_digits_to_bounds(s, q);
            }
        },
        None => {
            lemma_prefix_ci_shift(s, t, off, i, "nan"@);
            lemma_prefix_ci_shift(s, t, off, i, "infinity"@);
            lemma_prefix_ci_shift(s, t, off, i, "inf"@);
        },
    }
}

proof fn lemma_argument_shift(s: Seq<char>, t: Seq<char>, off: int, i: int)
    requires
        ws_prefixed(s, t, off),
        0 <= i <= s.len(),
    ensures
        match spec_argument(s, i) {
            ASt::AGot(v, e) => spec_argument(t, off + i) == ASt::AGot(v, off + e),
            ASt::AMiss => spec_argument(t, off + i) is AMiss,
            ASt::AHalt => spec_argument(t, off + i) is AHalt,
        },
{
    lemma_ws_to_shift(s, t, off, i);
    lemma_ws_to_bounds(s, i);
    let a = ws_to(s, i);
    lemma_string_lit_shift(s, t, off, a);
    lemma_regexp_shift(s, t, off, a);
    lemma_not_to_shift(s, t, off, a);
    lemma_not_to_bounds(s, a);
    let ne = not_to(s, a);
    lemma_subrange_shift(s, t, off, a, ne);
    lemma_float_to_shift(s, t, off, a);
    lemma_float_to_bounds(s, a);
    match spec_float_to(s, a) {
        FStep::FAt(e) => {
            lemma_subrange_shift(s, t, off, a, e);
        },
        _ => {},
    }
}

proof fn lemma_args_rest_shift(s: Seq<char>, t: Seq<char>, off: int, i: int)
    requires
        ws_prefixed(s, t, off),
        0 <= i <= s.len(),
    ensures
        match spec_args_rest(s, i) {
            Lst::LGot(vs, p) => spec_args_rest(t, off + i) == Lst::LGot(vs, off + p),
            Lst::LMiss => spec_args_rest(t, off + i) is LMiss,
            Lst::LHalt => spec_args_rest(t, off + i) is LHalt,
        },
    decreases s.len() - i,
{
    lemma_ws_to_shift(s, t, off, i);
    lemma_ws_to_bounds(s, i);
    let w = ws_to(s, i);
    if w < s.len() && s[w] == ',' {
        lemma_argument_shift(s, t, off, w + 1);
        lemma_argument_bounds(s, w + 1);
        match spec_argument(s, w + 1) {
            ASt::AGot(_, e) => {
                if i < e <= s.len() {
                    lemma_args_rest_shift(s, t, off, e);
                    lemma_args_rest_bounds(s, e);
                }
            },
            _ => {},
        }
    }
}

proof fn lemma_close_args_shift(
    s: Seq<char>,
    t: Seq<char>,
    off: int,
    p: int,
    vs: Seq<ArgSpec>,
)
    requires
        ws_prefixed(s, t, off),
        0 <= p <= s.len(),
    ensures
        match spec_close_args(s, p, vs) {
            Lst::LGot(vs2, e) => spec_close_args(t, off + p, vs) == Lst::LGot(
                vs2,
                off + e,
            ),
            Lst::LMiss => spec_close_args(t, off + p, vs) is LMiss,
            Lst::LHalt => spec_close_args(t, off + p, vs) is LHalt,
        },
{
    lemma_ws_to_shift(s, t, off, p);
    lemma_ws_to_bounds(s, p);
}

proof fn lemma_arguments_shift(s: Seq<char>, t: Seq<char>, off: int, i: int)
    requires
        ws_prefixed(s, t, off),
        0 <= i <= s.len(),
    ensures
        match spec_arguments(s, i) {
            Lst::LGot(vs, p) => spec_arguments(t, off + i) == Lst::LGot(vs, off + p),
            Lst::LMiss => spec_arguments(t, off + i) is LMiss,
            Lst::LHalt => spec_arguments(t, off + i) is LHalt,
        },
{
    if 0 <= i < s.len() && s[i] == '(' {
        lemma_argument_shift(s, t, off, i + 1);
        lemma_argument_bounds(s, i + 1);
        match spec_argument(s, i + 1) {
            ASt::AHalt => {},
            ASt::AMiss => {
                lemma_close_args_shift(s, t, off, i + 1, Seq::empty());
            },
            ASt::AGot(v, e) => {
                if i < e <= s.len() {
                    lemma_args_rest_shift(s, t, off, e);
                    lemma_args_rest_bounds(s, e);
                    match spec_args_rest(s, e) {
                        Lst::LGot(vs, p) => {
                            lemma_close_args_shift(s, t, off, p, seq![v] + vs);
                        },
                        _ => {},
                    }
                }
            },
        }
    }
}

proof fn lemma_function_call_shift(s: Seq<char>, t: Seq<char>, off: int, i0: int)
    requires
        ws_prefixed(s, t, off),
        0 <= i0 <= s.len(),
    ensures
        spec_function_call(t, off + i0) == spec_function_call(s, i0),
{
    lemma_ws_to_shift(s, t, off, i0);
    lemma_ws_to_bounds(s, i0);
    let i = ws_to(s, i0);
    lemma_im_shift(s, t, off, i);
    lemma_im_bounds(s, i);
    match spec_im(s, i) {
        PStep::At(j) => {
            if i <= j <= s.len() {
                lemma_arguments_shift(s, t, off, j);
                lemma_arguments_bounds(s, j);
                lemma_subrange_shift(s, t, off, i, j);
                match spec_arguments(s, j) {
                    Lst::LGot(_, e) => {
                        lemma_ws_to_shift(s, t, off, e);
                    },
                    _ => {},
                }
            }
        },
        _ => {},
    }
}

proof fn lemma_value_access_shift(s: Seq<char>, t: Seq<char>, off: int, i0: int)
    requires
        ws_prefixed(s, t, off),
        0 <= i0 <= s.len(),
    ensures
        spec_value_access(t, off + i0) == spec_value_access(s, i0),
{
    lemma_ws_to_shift(s, t, off, i0);
    lemma_ws_to_bounds(s, i0);
    let i = ws_to(s, i0);
    lemma_im_shift(s, t, off, i);
    lemma_im_bounds(s, i);
    match spec_im(s, i) {
        PStep::At(j) => {
            if i <= j <= s.len() {
                lemma_ws_to_shift(s, t, off, j);
                lemma_subrange_shift(s, t, off, i, j);
            }
        },
        _ => {},
    }
}

proof fn lemma_string_operation_shift(s: Seq<char>, t: Seq<char>, off: int, i: int)
    requires
        ws_prefixed(s, t, off),
        0 <= i <= s.len(),
    ensures
        spec_string_operation(t, off + i) == spec_string_operation(s, i),
{
    lemma_ws_to_shift(s, t, off, i);
    lemma_ws_to_bounds(s, i);
    let a = ws_to(s, i);
    if a < s.len() {
        let c = s[a];
        if c == '$' || c == '#' || c == '@' || c == '!' {
            lemma_ident_to_shift(s, t, off, a + 1);
            lemma_ident_to_bounds(s, a + 1);
            let j = ident_to(s, a + 1);
            if j != a + 1 {
                lemma_subrange_shift(s, t, off, a + 1, j);
                lemma_ws_to_shift(s, t, off, j);
                lemma_array_access_shift(s, t, off, j);
                lemma_array_access_bounds(s, j);
                match spec_array_access(s, j) {
                    Some((_, e)) => {
                        lemma_ws_to_shift(s, t, off, e);
                    },
                    None => {},
                }
            }
        }
    }
}

proof fn lemma_rule_context_shift(s: Seq<char>, t: Seq<char>, off: int)
    requires
        ws_prefixed(s, t, off),
    ensures
        match spec_rule_context(s) {
            Some((n, e)) => spec_rule_context(t) == Some((n, off + e)),
            None => spec_rule_context(t) is None,
        },
{
    lemma_ws_to_pad(s, t, off, 0);
    lemma_ws_to_bounds(s, 0);
    let a = ws_to(s, 0);
    lemma_ident_to_shift(s, t, off, a);
    lemma_ident_to_bounds(s, a);
    let j = ident_to(s, a);
    if j > a && j < s.len() && s[j] == '|' {
        lemma_subrange_shift(s, t, off, a, j);
        lemma_ws_to_shift(s, t, off, j + 1);
    }
}

/// Law: leading whitespace never changes what a query parses to — for
/// every query, not only well-formed ones, prepending whitespace gives
/// the very same parse, errors included.
pub proof fn lemma_parse_ignores_leading_whitespace(p: Seq<char>, s: Seq<char>)
    requires
        all_ws(p),
    ensures
        spec_parse(p + s) == spec_parse(s),
{
    let t = p + s;
    let off = p.len() as int;
    assert forall|j: int| 0 <= j < off implies is_ws_char(#[trigger] t[j]) by {
        assert(t[j] == p[j]);
    }
    assert forall|j: int| 0 <= j < s.len() implies #[trigger] t[off + j] == s[j] by {
        assert((p + s)[off + j] == s[j]);
    }
    assert(ws_prefixed(s, t, off));
    lemma_rule_context_shift(s, t, off);
    lemma_rule_context_bounds(s);
    let ctx = spec_rule_context(s);
    let start = match ctx {
        Some((_, e)) => e,
        None => 0,
    };
    assert(0 <= start <= s.len());
    if 0 <= start <= s.len() {
        lemma_string_operation_shift(s, t, off, start);
        lemma_function_call_shift(s, t, off, start);
        lemma_value_access_shift(s, t, off, start);
        match ctx {
            Some((_, e)) => {
                if e < s.len() {
                    lemma_subrange_shift(s, t, off, e, s.len() as int);
                }
            },
            None => {
                // Without a context the padded parse starts at zero,
                // inside the pad; the alternatives' own leading
                // whitespace skip absorbs it.
                lemma_ws_to_pad(s, t, off, 0);
                lemma_ws_to_shift(s, t, off, 0);
                assert(ws_to(t, 0) == ws_to(t, off + 0));
                assert(spec_string_operation(t, 0) == spec_string_operation(t, off + 0));
                assert(spec_function_call(t, 0) == spec_function_call(t, off + 0));
                assert(spec_value_access(t, 0) == spec_value_access(t, off + 0));
            },
        }
    }
}

// ---------------------------------------------------------------------
// Whitespace padding never changes what a query parses to (trailing
// side).  The lemmas below extend every grammar function across a
// whitespace suffix.
// ---------------------------------------------------------------------
/// `t` is `s` with a whitespace suffix.
pub open spec fn ws_extended(s: Seq<char>, t: Seq<char>) -> bool {
    &&& s.len() <= t.len()
    &&& forall|j: int| 0 <= j < s.len() ==> #[trigger] t[j] == s[j]
    &&& forall|j: int| s.len() <= j < t.len() ==> is_ws_char(#[trigger] t[j])
}

proof fn lemma_subrange_ext(s: Seq<char>, t: Seq<char>, a: int, b: int)
    requires
        ws_extended(s, t),
        0 <= a <= b <= s.len(),
    ensures
        t.subrange(a, b) == s.subrange(a, b),
{
    assert forall|k: int| 0 <= k < b - a implies t.subrange(a, b)[k] == s.subrange(
        a,
        b,
    )[k] by {
        assert(t[a + k] == s[a + k]);
    }
    assert(t.subrange(a, b) =~= s.subrange(a, b));
}

proof fn lemma_ws_to_ext(s: Seq<char>, t: Seq<char>, i: int)
    requires
        ws_extended(s, t),
        0 <= i <= s.len(),
    ensures
        ws_to(s, i) < s.len() ==> ws_to(t, i) == ws_to(s, i),
        ws_to(s, i) == s.len() ==> ws_to(t, i) == t.len(),
    decreases t.len() - i,
{
    if i < s.len() && is_ws_char(s[i]) {
        lemma_ws_to_ext(s, t, i + 1);
    } else if i >= s.len() && i < t.len() {
        assert(is_ws_char(t[i]));
        lemma_ws_to_tail(s, t, i + 1);
    } else {
    }
}

proof fn lemma_ws_to_tail(s: Seq<char>, t: Seq<char>, i: int)
    requires
        ws_extended(s, t),
        s.len() <= i <= t.len(),
    ensures
        ws_to(t, i) == t.len(),
    decreases t.len() - i,
{
    if i < t.len() {
        lemma_ws_to_tail(s, t, i + 1);
    }
}

proof fn lemma_ident_to_ext(s: Seq<char>, t: Seq<char>, i: int)
    requires
        ws_extended(s, t),
        0 <= i <= s.len(),
    ensures
        ident_to(t, i) == ident_to(s, i),
    decreases s.len() - i,
{
    if i < s.len() && is_ident_char(s[i]) {
        lemma_ident_to_ext(s, t, i + 1);
    }
}

proof fn lemma_digits_to_ext(s: Seq<char>, t: Seq<char>, i: int)
    requires
        ws_extended(s, t),
        0 <= i <= s.len(),
    ensures
        digits_to(t, i) == digits_to(s, i),
    decreases s.len() - i,
{
    if i < s.len() && is_digit_char(s[i]) {
        lemma_digits_to_ext(s, t, i + 1);
    }
}

proof fn lemma_alpha_to_ext(s: Seq<char>, t: Seq<char>, i: int)
    requires
        ws_extended(s, t),
        0 <= i <= s.len(),
    ensures
        alpha_to(t, i) == alpha_to(s, i),
    decreases s.len() - i,
{
    if i < s.len() && is_alpha_char(s[i]) {
        lemma_alpha_to_ext(s, t, i + 1);
    }
}

proof fn lemma_not_to_ext(s: Seq<char>, t: Seq<char>, i: int)
    requires
        ws_extended(s, t),
        0 <= i <= s.len(),
    ensures
        not_to(s, i) < s.len() ==> not_to(t, i) == not_to(s, i),
        not_to(s, i) == s.len() ==> not_to(t, i) == t.len(),
    decreases t.len() - i,
{
    if i < s.len() && s[i] != ',' && s[i] != ')' {
        lemma_not_to_ext(s, t, i + 1);
    } else if i >= s.len() && i < t.len() {
        assert(is_ws_char(t[i]));
        lemma_not_to_tail(s, t, i + 1);
    } else {
    }
}

proof fn lemma_not_to_tail(s: Seq<char>, t: Seq<char>, i: int)
    requires
        ws_extended(s, t),
        s.len() <= i <= t.len(),
    ensures
        not_to(t, i) == t.len(),
    decreases t.len() - i,
{
    if i < t.len() {
        assert(is_ws_char(t[i]));
        lemma_not_to_tail(s, t, i + 1);
    }
}

proof fn lemma_body_to_tail(s: Seq<char>, t: Seq<char>, i: int, d: char)
    requires
        ws_extended(s, t),
        s.len() <= i <= t.len(),
        !is_ws_char(d),
    ensures
        body_to(t, i, d) is None,
    decreases t.len() - i,
{
    if i < t.len() {
        assert(is_ws_char(t[i]));
        if i + 1 < t.len() {
            if t[i] == '\\' {
            }
        }
        lemma_body_to_tail(s, t, i + 1, d);
    }
}

proof fn lemma_body_to_ext(s: Seq<char>, t: Seq<char>, i: int, d: char)
    requires
        ws_extended(s, t),
        0 <= i <= s.len(),
        !is_ws_char(d),
    ensures
        match body_to(s, i, d) {
            Some(q) => body_to(t, i, d) == Some(q),
            None => body_to(t, i, d) is None,
        },
    decreases t.len() - i,
{
    if i < s.len() {
        if s[i] == d {
        } else if s[i] == '\\' {
            if i + 1 < s.len() {
                lemma_body_to_ext(s, t, i + 2, d);
            } else {
                // A lone backslash at the input's end eats the first
                // pad character; the rest of the pad holds no closing
                // delimiter either.
                if i + 1 < t.len() {
                    lemma_body_to_tail(s, t, i + 2, d);
                }
            }
        } else {
            lemma_body_to_ext(s, t, i + 1, d);
        }
    } else {
        lemma_body_to_tail(s, t, i, d);
    }
}

proof fn lemma_array_access_ext(s: Seq<char>, t: Seq<char>, i: int)
    requires
        ws_extended(s, t),
        0 <= i <= s.len(),
    ensures
        spec_array_access(t, i) == spec_array_access(s, i),
{
    if i < s.len() && s[i] == '[' {
        lemma_digits_to_ext(s, t, i + 1);
        lemma_digits_to_bounds(s, i + 1);
        let j = digits_to(s, i + 1);
        if j > i + 1 && j < s.len() && s[j] == ']' {
            lemma_subrange_ext(s, t, i + 1, j);
        }
    }
}

proof fn lemma_string_lit_ext(s: Seq<char>, t: Seq<char>, i: int)
    requires
        ws_extended(s, t),
        0 <= i <= s.len(),
    ensures
        spec_string_lit(t, i) == spec_string_lit(s, i),
{
    if i < s.len() && s[i] == '"' {
        lemma_body_to_ext(s, t, i + 1, '"');
        lemma_body_to_bounds(s, i + 1, '"');
        match body_to(s, i + 1, '"') {
            Some(q) => {
                lemma_subrange_ext(s, t, i + 1, q);
            },
            None => {},
        }
    }
}

proof fn lemma_count_char_ext(s: Seq<char>, t: Seq<char>, a: int, b: int, c: char)
    requires
        ws_extended(s, t),
        0 <= a <= b <= s.len(),
    ensures
        count_char(t, a, b, c) == count_char(s, a, b, c),
    decreases b - a,
{
    if a < b {
        lemma_count_char_ext(s, t, a, b - 1, c);
    }
}

proof fn lemma_mods_ok_ext(s: Seq<char>, t: Seq<char>, a: int, b: int)
    requires
        ws_extended(s, t),
        0 <= a <= b <= s.len(),
    ensures
        mods_ok(t, a, b) == mods_ok(s, a, b),
{
    lemma_count_char_ext(s, t, a, b, 'i');
    lemma_count_char_ext(s, t, a, b, 's');
    if (forall|k: int| a <= k < b ==> (#[trigger] s[k]) == 'i' || s[k] == 's') {
        assert forall|k: int| a <= k < b implies ((#[trigger] t[k]) == 'i' || t[k]
            == 's') by {
            assert(t[k] == s[k]);
        }
    } else {
        let k0 = choose|k: int| a <= k < b && !((#[trigger] s[k]) == 'i' || s[k] == 's');
        assert(t[k0] == s[k0]);
    }
}

proof fn lemma_regexp_ext(s: Seq<char>, t: Seq<char>, i: int)
    requires
        ws_extended(s, t),
        0 <= i <= s.len(),
    ensures
        spec_regexp(t, i) == spec_regexp(s, i),
{
    if i < s.len() && s[i] == '/' {
        lemma_body_to_ext(s, t, i + 1, '/');
        lemma_body_to_bounds(s, i + 1, '/');
        match body_to(s, i + 1, '/') {
            Some(q) => {
                lemma_alpha_to_ext(s, t, q + 1);
                lemma_alpha_to_bounds(s, q + 1);
                let m = alpha_to(s, q + 1);
                lemma_mods_ok_ext(s, t, q + 1, m);
                if mods_ok(s, q + 1, m) {
                    lemma_subrange_ext(s, t, i + 1, q);
                    lemma_subrange_ext(s, t, q + 1, m);
                }
            },
            None => {},
        }
    }
}

proof fn lemma_dict_access_ext(s: Seq<char>, t: Seq<char>, i: int)
    requires
        ws_extended(s, t),
        0 <= i <= s.len(),
    ensures
        spec_dict_access(t, i) == spec_dict_access(s, i),
{
    if i < s.len() && s[i] == '[' {
        lemma_string_lit_ext(s, t, i + 1);
        if i + 1 < s.len() && s[i + 1] == '"' {
            lemma_body_to_bounds(s, i + 2, '"');
        }
    }
}

proof fn lemma_iam_ext(s: Seq<char>, t: Seq<char>, i: int)
    requires
        ws_extended(s, t),
        0 <= i <= s.len(),
    ensures
        spec_iam(t, i) == spec_iam(s, i),
    decreases s.len() - i,
{
    lemma_dict_access_ext(s, t, i);
    lemma_array_access_ext(s, t, i);
    lemma_dict_access_bounds(s, i);
    lemma_array_access_bounds(s, i);
    match spec_dict_access(s, i) {
        Some(e) => {
            if i < e <= s.len() {
                lemma_iam_ext(s, t, e);
            }
        },
        None => {
            match spec_array_access(s, i) {
                Some((_, e)) => {
                    if i < e <= s.len() {
                        lemma_iam_ext(s, t, e);
                    }
                },
                None => {},
            }
        },
    }
}

proof fn lemma_im_ext(s: Seq<char>, t: Seq<char>, i: int)
    requires
        ws_extended(s, t),
        0 <= i <= s.len(),
    ensures
        spec_im(t, i) == spec_im(s, i),
    decreases s.len() - i,
{
    lemma_ident_to_ext(s, t, i);
    lemma_ident_to_bounds(s, i);
    let j = ident_to(s, i);
    if j != i {
        lemma_iam_ext(s, t, j);
        lemma_iam_bounds(s, j);
        let k = match spec_iam(s, j) {
            Some(e) => e,
            None => j,
        };
        if i < k <= s.len() {
            if k < s.len() && s[k] == '.' {
                lemma_im_ext(s, t, k + 1);
            } else {
                if k == s.len() && k < t.len() {
                    assert(is_ws_char(t[k]));
                }
            }
        }
    }
}

proof fn lemma_prefix_ci_ext(s: Seq<char>, t: Seq<char>, i: int, lit: Seq<char>)
    requires
        ws_extended(s, t),
        0 <= i <= s.len(),
        forall|k: int| 0 <= k < lit.len() ==> !is_ws_char(#[trigger] lit[k]),
    ensures
        prefix_ci(t, i, lit) == prefix_ci(s, i, lit),
{
    if prefix_ci(s, i, lit) {
        assert forall|k: int| 0 <= k < lit.len() implies crate::text::lower_char(t[i + k])
            == lit[k] by {
            assert(t[i + k] == s[i + k]);
        }
    }
    if prefix_ci(t, i, lit) {
        if i + lit.len() <= s.len() {
            assert forall|k: int| 0 <= k < lit.len() implies crate::text::lower_char(
                s[i + k],
            ) == lit[k] by {
                assert(t[i + k] == s[i + k]);
                assert(crate::text::lower_char(t[i + k]) == lit[k]);
            }
        } else {
            // The literal would have to run into the whitespace pad,
            // and whitespace lower-cases to itself, never to a literal
            // character.
            let k0 = s.len() - i;
            assert(0 <= k0 < lit.len());
            assert(is_ws_char(t[i + k0]));
            assert(crate::text::lower_char(t[i + k0]) == t[i + k0]);
            assert(lit[k0] == t[i + k0]);
            assert(false);
        }
    }
}

proof fn lemma_float_to_ext(s: Seq<char>, t: Seq<char>, i: int)
    requires
        ws_extended(s, t),
        0 <= i <= s.len(),
    ensures
        spec_float_to(t, i) == spec_float_to(s, i),
{
    reveal_strlit("nan");
    reveal_strlit("infinity");
    reveal_strlit("inf");
    if i < s.len() {
        assert(t[i] == s[i]);
    } else if i < t.len() {
        assert(is_ws_char(t[i]));
    }
    let j = if i < s.len() && (s[i] == '+' || s[i] == '-') {
        i + 1
    } else {
        i
    };
    let jt = if i < t.len() && (t[i] == '+' || t[i] == '-') {
        i + 1
    } else {
        i
    };
    assert(jt == j);
    lemma_digits_to_ext(s, t, j);
    lemma_digits_to_bounds(s, j);
    let d1 = digits_to(s, j);
    if d1 < s.len() {
        assert(t[d1] == s[d1]);
    } else if d1 < t.len() {
        assert(is_ws_char(t[d1]));
    }
    if j < s.len() {
        assert(t[j] == s[j]);
    } else if j < t.len() {
        assert(is_ws_char(t[j]));
    }
    if d1 > j && d1 < s.len() && s[d1] == '.' {
        lemma_digits_to_ext(s, t, d1 + 1);
        lemma_digits_to_bounds(s, d1 + 1);
    }
    if d1 == j && j < s.len() && s[j] == '.' {
        lemma_digits_to_ext(s, t, j + 1);
        lemma_digits_to_bounds(s, j + 1);
    }
    let core = if d1 > j {
        if d1 < s.len() && s[d1] == '.' {
            Some(digits_to(s, d1 + 1))
        } else {
            Some(d1)
        }
    } else if j < s.len() && s[j] == '.' {
        let f = digits_to(s, j + 1);
        if f > j + 1 {
            Some(f)
        } else {
            None
        }
    } else {
        None
    };
    match core {
        Some(p) => {
            if p < s.len() {
                assert(t[p] == s[p]);
            } else if p < t.len() {
                assert(is_ws_char(t[p]));
            }
            if p < s.len() && (s[p] == 'e' || s[p] == 'E') {
                if p + 1 < s.len() {
                    assert(t[p + 1] == s[p + 1]);
                } else if p + 1 < t.len() {
                    assert(is_ws_char(t[p + 1]));
                }
                let q = if p + 1 < s.len() && (s[p + 1] == '+' || s[p + 1] == '-') {
                    p + 2
                } else {
                    p + 1
                };
                lemma_digits_to_ext(s, t, q);
                lemma_digits_to_bounds(s, q);
            }
        },
        None => {
            assert(forall|k: int|
                0 <= k < "nan"@.len() ==> !is_ws_char(#[trigger] "nan"@[k]));
            assert(forall|k: int|
                0 <= k < "infinity"@.len() ==> !is_ws_char(#[trigger] "infinity"@[k]));
            assert(forall|k: int|
                0 <= k < "inf"@.len() ==> !is_ws_char(#[trigger] "inf"@[k]));
            lemma_prefix_ci_ext(s, t, i, "nan"@);
            lemma_prefix_ci_ext(s, t, i, "infinity"@);
            lemma_prefix_ci_ext(s, t, i, "inf"@);
        },
    }
}

proof fn lemma_digits_to_full(s: Seq<char>, j: int)
    requires
        0 <= j <= s.len(),
        forall|k: int| j <= k < s.len() ==> is_digit_char(#[trigger] s[k]),
    ensures
        digits_to(s, j) == s.len(),
    decreases s.len() - j,
{
    if j < s.len() {
        lemma_digits_to_full(s, j + 1);
    }
}

proof fn lemma_argument_ext(s: Seq<char>, t: Seq<char>, i: int)
    requires
        ws_extended(s, t),
        0 <= i <= s.len(),
        s.len() < t.len(),
    ensures
        match spec_argument(s, i) {
            ASt::AGot(v, e) => spec_argument(t, i) matches ASt::AGot(v2, e2) && e2 == e
                && (e < s.len() ==> v2 == v),
            ASt::AMiss => spec_argument(t, i) is AMiss,
            ASt::AHalt => spec_argument(t, i) is AHalt,
        },
{
    reveal_strlit("nan");
    reveal_strlit("infinity");
    reveal_strlit("inf");
    lemma_ws_to_ext(s, t, i);
    lemma_ws_to_bounds(s, i);
    let a = ws_to(s, i);
    if a == s.len() {
        // Only whitespace remains: every alternative misses in both.
        let at = ws_to(t, i);
        assert(at == t.len());
        lemma_float_to_ext(s, t, a);
        return ;
    }
    lemma_string_lit_ext(s, t, a);
    lemma_regexp_ext(s, t, a);
    if a < s.len() && s[a] == '"' {
        lemma_body_to_bounds(s, a + 1, '"');
    }
    lemma_not_to_ext(s, t, a);
    lemma_not_to_bounds(s, a);
    let ne = not_to(s, a);
    lemma_float_to_ext(s, t, a);
    lemma_float_to_bounds(s, a);
    if ne < s.len() {
        lemma_subrange_ext(s, t, a, ne);
        match spec_float_to(s, a) {
            FStep::FAt(e) => {
                lemma_subrange_ext(s, t, a, e);
            },
            _ => {},
        }
    } else {
        // The comma-free run reaches the input's end, so in the padded
        // text it swallows the whitespace pad and can no longer read
        // as an integer; the argument then reads as the same float
        // text or misses, ending at the pad in either case.
        let net = not_to(t, a);
        assert(net == t.len());
        let text_t = t.subrange(a, net);
        assert(text_t.len() > 0 && is_ws_char(text_t[text_t.len() - 1]));
        assert(spec_int_parse(text_t) is None) by {
            let d = if text_t.len() > 0 && (text_t[0] == '-' || text_t[0] == '+') {
                text_t.drop_first()
            } else {
                text_t
            };
            if d.len() > 0 {
                assert(d[d.len() - 1] == text_t[text_t.len() - 1]);
                assert(!is_digit_char(d[d.len() - 1]));
                assert(!all_digits(d));
            }
        }
        let text = s.subrange(a, ne);
        if ne > a && spec_int_parse(text) is Some {
            // The run was sign-and-digits up to the input's end; the
            // float grammar consumes exactly those digits and stops at
            // the pad, so the argument still ends at the same place.
            assert(text[0] == s[a]);
            let j = if a < s.len() && (s[a] == '+' || s[a] == '-') {
                a + 1
            } else {
                a
            };
            let d = if text.len() > 0 && (text[0] == '-' || text[0] == '+') {
                text.drop_first()
            } else {
                text
            };
            assert(d.len() > 0 && all_digits(d));
            assert forall|k: int| j <= k < s.len() implies is_digit_char(
                #[trigger] s[k],
            ) by {
                assert(d[k - j] == text[k - a]);
                assert(text[k - a] == s[k]);
                assert(is_digit_char(d[k - j]));
            }
            lemma_digits_to_full(s, j);
            assert(spec_float_to(s, a) == FStep::FAt(s.len() as int));
        }
        match spec_float_to(s, a) {
            FStep::FAt(e) => {
                lemma_subrange_ext(s, t, a, e);
            },
            _ => {},
        }
    }
}

proof fn lemma_args_rest_ext(s: Seq<char>, t: Seq<char>, i: int)
    requires
        ws_extended(s, t),
        0 <= i <= s.len(),
        s.len() < t.len(),
    ensures
        match spec_args_rest(s, i) {
            Lst::LGot(vs, q) => spec_args_rest(t, i) matches Lst::LGot(vs2, q2) && q2 == q
                && (q < s.len() ==> vs2 == vs),
            Lst::LMiss => spec_args_rest(t, i) is LMiss,
            Lst::LHalt => spec_args_rest(t, i) is LHalt,
        },
    decreases s.len() - i,
{
    lemma_ws_to_ext(s, t, i);
    lemma_ws_to_bounds(s, i);
    let w = ws_to(s, i);
    if w == s.len() {
        assert(ws_to(t, i) == t.len());
        return ;
    }
    assert(t[w] == s[w]);
    if s[w] == ',' {
        lemma_argument_ext(s, t, w + 1);
        lemma_argument_bounds(s, w + 1);
        match spec_argument(s, w + 1) {
            ASt::AGot(_, e) => {
                if i < e <= s.len() {
                    lemma_args_rest_ext(s, t, e);
                    lemma_args_rest_bounds(s, e);
                }
            },
            _ => {},
        }
    }
}

proof fn lemma_close_args_ext(s: Seq<char>, t: Seq<char>, p: int, vs: Seq<ArgSpec>)
    requires
        ws_extended(s, t),
        0 <= p <= s.len(),
    ensures
        spec_close_args(t, p, vs) == spec_close_args(s, p, vs),
{
    lemma_ws_to_ext(s, t, p);
    lemma_ws_to_bounds(s, p);
    let w = ws_to(s, p);
    if w == s.len() {
        lemma_ws_to_tail(s, t, s.len() as int);
    } else {
        assert(t[w] == s[w]);
    }
}

proof fn lemma_arguments_ext(s: Seq<char>, t: Seq<char>, i: int)
    requires
        ws_extended(s, t),
        0 <= i <= s.len(),
        s.len() < t.len(),
    ensures
        spec_arguments(t, i) == spec_arguments(s, i),
{
    if 0 <= i < s.len() && s[i] == '(' {
        assert(t[i] == s[i]);
        lemma_argument_ext(s, t, i + 1);
        lemma_argument_bounds(s, i + 1);
        match spec_argument(s, i + 1) {
            ASt::AHalt => {},
            ASt::AMiss => {
                lemma_close_args_ext(s, t, i + 1, Seq::empty());
            },
            ASt::AGot(v, e) => {
                if i < e <= s.len() {
                    lemma_args_rest_ext(s, t, e);
                    lemma_args_rest_bounds(s, e);
                    match spec_args_rest(s, e) {
                        Lst::LGot(vs, q) => {
                            lemma_close_args_ext(s, t, q, seq![v] + vs);
                            if q == s.len() {
                                // The diverged tail can only end at
                                // the pad, where no parenthesis closes
                                // the list in either text.
                                lemma_ws_to_tail(s, t, s.len() as int);
                                match spec_args_rest(t, e) {
                                    Lst::LGot(vs2, _) => {
                                        lemma_ws_to_ext(s, t, q);
                                    },
                                    _ => {},
                                }
                            }
                        },
                        _ => {},
                    }
                }
            },
        }
    } else if i == s.len() {
        assert(is_ws_char(t[i]));
    } else if 0 <= i < s.len() {
        assert(t[i] == s[i]);
    }
}

proof fn lemma_function_call_ext(s: Seq<char>, t: Seq<char>, i0: int)
    requires
        ws_extended(s, t),
        0 <= i0 <= s.len(),
        s.len() < t.len(),
    ensures
        spec_function_call(t, i0) == spec_function_call(s, i0),
{
    lemma_ws_to_ext(s, t, i0);
    lemma_ws_to_bounds(s, i0);
    let i = ws_to(s, i0);
    if i == s.len() {
        assert(ws_to(t, i0) == t.len());
        lemma_ident_to_bounds(t, t.len() as int);
        return ;
    }
    lemma_im_ext(s, t, i);
    lemma_im_bounds(s, i);
    match spec_im(s, i) {
        PStep::At(j) => {
            if i <= j <= s.len() {
                lemma_arguments_ext(s, t, j);
                lemma_arguments_bounds(s, j);
                lemma_subrange_ext(s, t, i, j);
                match spec_arguments(s, j) {
                    Lst::LGot(_, e) => {
                        lemma_ws_to_ext(s, t, e);
                        lemma_ws_to_bounds(s, e);
                    },
                    _ => {},
                }
            }
        },
        _ => {},
    }
}

proof fn lemma_value_access_ext(s: Seq<char>, t: Seq<char>, i0: int)
    requires
        ws_extended(s, t),
        0 <= i0 <= s.len(),
        s.len() < t.len(),
    ensures
        spec_value_access(t, i0) == spec_value_access(s, i0),
{
    lemma_ws_to_ext(s, t, i0);
    lemma_ws_to_bounds(s, i0);
    let i = ws_to(s, i0);
    if i == s.len() {
        assert(ws_to(t, i0) == t.len());
        lemma_ident_to_bounds(t, t.len() as int);
        return ;
    }
    lemma_im_ext(s, t, i);
    lemma_im_bounds(s, i);
    match spec_im(s, i) {
        PStep::At(j) => {
            if i <= j <= s.len() {
                lemma_ws_to_ext(s, t, j);
                lemma_ws_to_bounds(s, j);
                lemma_subrange_ext(s, t, i, j);
            }
        },
        _ => {},
    }
}

proof fn lemma_string_operation_ext(s: Seq<char>, t: Seq<char>, i: int)
    requires
        ws_extended(s, t),
        0 <= i <= s.len(),
        s.len() < t.len(),
    ensures
        spec_string_operation(t, i) == spec_string_operation(s, i),
{
    lemma_ws_to_ext(s, t, i);
    lemma_ws_to_bounds(s, i);
    let a = ws_to(s, i);
    if a == s.len() {
        assert(ws_to(t, i) == t.len());
        return ;
    }
    assert(t[a] == s[a]);
    let c = s[a];
    if c == '$' || c == '#' || c == '@' || c == '!' {
        lemma_ident_to_ext(s, t, a + 1);
        lemma_ident_to_bounds(s, a + 1);
        let j = ident_to(s, a + 1);
        if j != a + 1 {
            lemma_subrange_ext(s, t, a + 1, j);
            lemma_ws_to_ext(s, t, j);
            lemma_ws_to_bounds(s, j);
            assert(ident_to(t, a + 1) == j);
            assert(t.subrange(a + 1, j) == s.subrange(a + 1, j));
            if ws_to(s, j) == s.len() {
                assert(ws_to(t, j) == t.len());
            } else {
                assert(ws_to(t, j) == ws_to(s, j) && ws_to(s, j) < s.len());
                assert(ws_to(t, j) != t.len());
            }
            lemma_array_access_ext(s, t, j);
            lemma_array_access_bounds(s, j);
            match spec_array_access(s, j) {
                Some((_, e)) => {
                    lemma_ws_to_ext(s, t, e);
                    lemma_ws_to_bounds(s, e);
                    if ws_to(s, e) == s.len() {
                        assert(ws_to(t, e) == t.len());
                    } else {
                        assert(ws_to(t, e) != t.len());
                    }
                },
                None => {},
            }
        }
    }
}

proof fn lemma_rule_context_ext(s: Seq<char>, t: Seq<char>)
    requires
        ws_extended(s, t),
        s.len() < t.len(),
    ensures
        match spec_rule_context(s) {
            Some((n, e)) => spec_rule_context(t) matches Some(p2) && p2.0 == n && (e
                < s.len() ==> p2.1 == e) && (e == s.len() ==> p2.1 == t.len()),
            None => spec_rule_context(t) is None,
        },
{
    lemma_ws_to_ext(s, t, 0);
    lemma_ws_to_bounds(s, 0);
    let a = ws_to(s, 0);
    if a == s.len() {
        assert(ws_to(t, 0) == t.len());
        lemma_ident_to_bounds(t, t.len() as int);
        return ;
    }
    lemma_ident_to_ext(s, t, a);
    lemma_ident_to_bounds(s, a);
    let j = ident_to(s, a);
    if j > a {
        if j < s.len() {
            assert(t[j] == s[j]);
            if s[j] == '|' {
                lemma_subrange_ext(s, t, a, j);
                lemma_ws_to_ext(s, t, j + 1);
                lemma_ws_to_bounds(s, j + 1);
            }
        } else {
            assert(is_ws_char(t[j]));
        }
    }
}

/// Law: trailing whitespace never changes what a query parses to,
/// unless the query parses to a complex expression (whose raw text
/// keeps trailing whitespace verbatim).  Errors stay errors.
pub proof fn lemma_parse_ignores_trailing_whitespace(s: Seq<char>, p: Seq<char>)
    requires
        all_ws(p),
        !(spec_parse(s) matches Some((c, ExprSpec::EComplex(x)))),
    ensures
        spec_parse(s + p) == spec_parse(s),
{
    let t = s + p;
    if p.len() == 0 {
        assert(t =~= s);
        return ;
    }
    assert forall|j: int| 0 <= j < s.len() implies #[trigger] t[j] == s[j] by {
        assert((s + p)[j] == s[j]);
    }
    assert forall|j: int| s.len() <= j < t.len() implies is_ws_char(#[trigger] t[j]) by {
        assert(t[j] == p[j - s.len()]);
    }
    assert(ws_extended(s, t));
    lemma_rule_context_ext(s, t);
    lemma_rule_context_bounds(s);
    let ctx = spec_rule_context(s);
    let start = match ctx {
        Some((_, e)) => e,
        None => 0,
    };
    assert(0 <= start <= s.len());
    match ctx {
        Some((n, e)) => {
            if e < s.len() {
                lemma_string_operation_ext(s, t, e);
                lemma_function_call_ext(s, t, e);
                lemma_value_access_ext(s, t, e);
            } else {
                // Nothing follows the context but padding: on the
                // original every alternative misses at the very end
                // and the empty remainder is a parse error; on the
                // padded text the alternatives miss at its own end.
                assert(ws_to(s, s.len() as int) == s.len() as int);
                assert(ident_to(s, s.len() as int) == s.len() as int);
                assert(ws_to(t, t.len() as int) == t.len() as int);
                assert(ident_to(t, t.len() as int) == t.len() as int);
                assert(spec_parse(s) is None);
                assert(spec_parse(t) is None);
            }
        },
        None => {
            lemma_string_operation_ext(s, t, 0);
            lemma_function_call_ext(s, t, 0);
            lemma_value_access_ext(s, t, 0);
        },
    }
}

/// Law: surrounding a query with whitespace never changes what it
/// parses to, unless it parses to a complex expression; in particular
/// whitespace around a function call is immaterial.
pub proof fn lemma_parse_whitespace_padding(p1: Seq<char>, s: Seq<char>, p2: Seq<char>)
    requires
        all_ws(p1),
        all_ws(p2),
        !(spec_parse(s) matches Some((c, ExprSpec::EComplex(x)))),
    ensures
        spec_parse(p1 + s + p2) == spec_parse(s),
{
    lemma_parse_ignores_trailing_whitespace(s, p2);
    lemma_parse_ignores_leading_whitespace(p1, s + p2);
    assert(p1 + s + p2 =~= p1 + (s + p2));
}

} // verus!
