use vstd::prelude::*;
use crate::error::YariError;
use crate::text::chars_of;

verus! {

// ---------------------------------------------------------------------
// Character classes and searching.
// ---------------------------------------------------------------------
/// Word characters, as a rule or string name is made of.
pub open spec fn is_word_char(c: char) -> bool {
    ('a' <= c && c <= 'z') || ('A' <= c && c <= 'Z') || ('0' <= c && c <= '9') || c == '_'
}

/// The whitespace characters recognised around `strings:` sections.
pub open spec fn is_space_char(c: char) -> bool {
    c == ' ' || c == '\t' || c == '\n' || c == '\r' || c == '\u{b}' || c == '\u{c}'
}

fn word_char_test(c: char) -> (r: bool)
    ensures
        r == is_word_char(c),
{
    ('a' <= c && c <= 'z') || ('A' <= c && c <= 'Z') || ('0' <= c && c <= '9') || c == '_'
}

fn space_char_test(c: char) -> (r: bool)
    ensures
        r == is_space_char(c),
{
    c == ' ' || c == '\t' || c == '\n' || c == '\r' || c == '\u{b}' || c == '\u{c}'
}

/// The end of the word-character run starting at `i`.
pub open spec fn word_to(s: Seq<char>, i: int) -> int
    decreases s.len() - i,
{
    if 0 <= i < s.len() && is_word_char(s[i]) {
        word_to(s, i + 1)
    } else {
        i
    }
}

/// The end of the whitespace run starting at `i`.
pub open spec fn sp_to(s: Seq<char>, i: int) -> int
    decreases s.len() - i,
{
    if 0 <= i < s.len() && is_space_char(s[i]) {
        sp_to(s, i + 1)
    } else {
        i
    }
}

/// The position of the next newline at or after `i`, or the input end.
pub open spec fn nl_to(s: Seq<char>, i: int) -> int
    decreases s.len() - i,
{
    if 0 <= i < s.len() && s[i] != '\n' {
        nl_to(s, i + 1)
    } else {
        i
    }
}

proof fn lemma_word_to_bounds(s: Seq<char>, i: int)
    requires
        0 <= i <= s.len(),
    ensures
        i <= word_to(s, i) <= s.len(),
    decreases s.len() - i,
{
    if i < s.len() && is_word_char(s[i]) {
        lemma_word_to_bounds(s, i + 1);
    }
}

proof fn lemma_sp_to_bounds(s: Seq<char>, i: int)
    requires
        0 <= i <= s.len(),
    ensures
        i <= sp_to(s, i) <= s.len(),
    decreases s.len() - i,
{
    if i < s.len() && is_space_char(s[i]) {
        lemma_sp_to_bounds(s, i + 1);
    }
}

proof fn lemma_nl_to_bounds(s: Seq<char>, i: int)
    requires
        0 <= i <= s.len(),
    ensures
        i <= nl_to(s, i) <= s.len(),
    decreases s.len() - i,
{
    if i < s.len() && s[i] != '\n' {
        lemma_nl_to_bounds(s, i + 1);
    }
}

fn skip_word(v: &Vec<char>, i: usize) -> (j: usize)
    requires
        i <= v@.len(),
    ensures
        j as int == word_to(v@, i as int),
        i <= j <= v@.len(),
{
    let mut j: usize = i;
    while j < v.len() && word_char_test(v[j])
        invariant
            i <= j <= v@.len(),
            word_to(v@, i as int) == word_to(v@, j as int),
        decreases v@.len() - j,
    {
        j += 1;
    }
    j
}

fn skip_sp(v: &Vec<char>, i: usize) -> (j: usize)
    requires
        i <= v@.len(),
    ensures
        j as int == sp_to(v@, i as int),
        i <= j <= v@.len(),
{
    let mut j: usize = i;
    while j < v.len() && space_char_test(v[j])
        invariant
            i <= j <= v@.len(),
            sp_to(v@, i as int) == sp_to(v@, j as int),
        decreases v@.len() - j,
    {
        j += 1;
    }
    j
}

fn skip_to_nl(v: &Vec<char>, i: usize) -> (j: usize)
    requires
        i <= v@.len(),
    ensures
        j as int == nl_to(v@, i as int),
        i <= j <= v@.len(),
{
    let mut j: usize = i;
    while j < v.len() && v[j] != '\n'
        invariant
            i <= j <= v@.len(),
            nl_to(v@, i as int) == nl_to(v@, j as int),
        decreases v@.len() - j,
    {
        j += 1;
    }
    j
}

/// Does the literal `lit` occur at position `i` of `s`?
pub open spec fn match_at(s: Seq<char>, i: int, lit: Seq<char>) -> bool {
    0 <= i && i + lit.len() <= s.len() && s.subrange(i, i + lit.len()) == lit
}

fn match_at_ex(v: &Vec<char>, i: usize, lit: &Vec<char>) -> (r: bool)
    requires
        i <= v@.len(),
    ensures
        r == match_at(v@, i as int, lit@),
{
    if v.len() - i < lit.len() {
        return false;
    }
    let n = lit.len();
    let vn: usize = v.len();
    let mut k: usize = 0;
    while k < n
        invariant
            n == lit@.len(),
            v@.len() == vn,
            i + n <= v@.len(),
            k <= n,
            forall|m: int| 0 <= m < k ==> v@[i + m] == lit@[m],
        decreases n - k,
    {
        if v[i + k] != lit[k] {
            proof {
                assert(v@.subrange(i as int, i + n) != lit@) by {
                    assert(v@.subrange(i as int, i + n)[k as int] != lit@[k as int]);
                }
            }
            return false;
        }
        k += 1;
    }
    proof {
        assert(v@.subrange(i as int, i + n) =~= lit@);
    }
    true
}

/// The first position at or after `from` where `lit` occurs in `s`.
pub open spec fn find_sub(s: Seq<char>, from: int, lit: Seq<char>) -> Option<int>
    decreases s.len() - from,
{
    if !(0 <= from && from + lit.len() <= s.len()) {
        None
    } else if match_at(s, from, lit) {
        Some(from)
    } else if from < s.len() {
        find_sub(s, from + 1, lit)
    } else {
        None
    }
}

proof fn lemma_find_sub_bounds(s: Seq<char>, from: int, lit: Seq<char>)
    ensures
        find_sub(s, from, lit) matches Some(p) ==> from <= p && p + lit.len() <= s.len(),
    decreases s.len() - from,
{
    if 0 <= from && from + lit.len() <= s.len() && !match_at(s, from, lit) && from
        < s.len() {
        lemma_find_sub_bounds(s, from + 1, lit);
    }
}

fn find_sub_ex(v: &Vec<char>, from: usize, lit: &Vec<char>) -> (r: Option<usize>)
    requires
        from <= v@.len(),
    ensures
        match find_sub(v@, from as int, lit@) {
            Some(p) => r matches Some(q) && q as int == p && from <= p && p + lit@.len()
                <= v@.len(),
            None => r is None,
        },
{
    proof {
        lemma_find_sub_bounds(v@, from as int, lit@);
    }
    if lit.len() == 0 {
        proof {
            assert(v@.subrange(from as int, from as int) =~= lit@);
        }
        return Some(from);
    }
    let mut j: usize = from;
    loop
        invariant
            from <= j <= v@.len(),
            lit@.len() >= 1,
            find_sub(v@, from as int, lit@) == find_sub(v@, j as int, lit@),
        decreases v@.len() - j,
    {
        if v.len() - j < lit.len() {
            proof {
                assert(find_sub(v@, j as int, lit@) is None);
            }
            return None;
        }
        if match_at_ex(v, j, lit) {
            return Some(j);
        }
        j += 1;
    }
}

// ---------------------------------------------------------------------
// Rule spans.
// ---------------------------------------------------------------------
/// Is `p` at the start of a line?
pub open spec fn line_start(s: Seq<char>, p: int) -> bool {
    p == 0 || (0 < p <= s.len() && s[p - 1] == '\n')
}

/// The first `}` at or after `q0` that ends a line.
pub open spec fn find_close(s: Seq<char>, q0: int) -> Option<int>
    decreases s.len() - q0,
{
    if !(0 <= q0 < s.len()) {
        None
    } else if s[q0] == '}' && (q0 + 1 == s.len() || s[q0 + 1] == '\n') {
        Some(q0)
    } else {
        find_close(s, q0 + 1)
    }
}

proof fn lemma_find_close_bounds(s: Seq<char>, q0: int)
    ensures
        find_close(s, q0) matches Some(q) ==> q0 <= q < s.len(),
    decreases s.len() - q0,
{
    if 0 <= q0 < s.len() && !(s[q0] == '}' && (q0 + 1 == s.len() || s[q0 + 1] == '\n')) {
        lemma_find_close_bounds(s, q0 + 1);
    }
}

fn find_close_ex(v: &Vec<char>, q0: usize) -> (r: Option<usize>)
    requires
        q0 <= v@.len(),
    ensures
        match find_close(v@, q0 as int) {
            Some(q) => r matches Some(p) && p as int == q && q0 <= q < v@.len(),
            None => r is None,
        },
{
    proof {
        lemma_find_close_bounds(v@, q0 as int);
    }
    let mut j: usize = q0;
    loop
        invariant
            q0 <= j <= v@.len(),
            find_close(v@, q0 as int) == find_close(v@, j as int),
        decreases v@.len() - j,
    {
        if j >= v.len() {
            return None;
        }
        if v[j] == '}' && (j + 1 == v.len() || v[j + 1] == '\n') {
            return Some(j);
        }
        j += 1;
    }
}

/// A rule span whose header stands at `p`: the name's range and the
/// position just after the closing `}`.  The header is `rule ` or
/// `private rule `, the name a nonempty word run, and the body runs to
/// the first line-ending `}` after the first `condition:` past the
/// name.
pub open spec fn rule_at(s: Seq<char>, p: int) -> Option<(int, int, int)> {
    let ns = if match_at(s, p, "private rule "@) {
        p + "private rule "@.len()
    } else if match_at(s, p, "rule "@) {
        p + "rule "@.len()
    } else {
        -1
    };
    if ns >= 0 {
        let ne = word_to(s, ns);
        if ne > ns {
            match find_sub(s, ne + 1, "condition:"@) {
                Some(c) => match find_close(s, c + "condition:"@.len() + 1) {
                    Some(q) => Some((ns, ne, q + 1)),
                    None => None,
                },
                None => None,
            }
        } else {
            None
        }
    } else {
        None
    }
}

proof fn lemma_rule_at_bounds(s: Seq<char>, p: int)
    ensures
        rule_at(s, p) matches Some(t) ==> p < t.0 && t.0 <= t.1 && t.1 < t.2
            && t.2 <= s.len(),
{
    reveal_strlit("private rule ");
    reveal_strlit("rule ");
    reveal_strlit("condition:");
    let ns = if match_at(s, p, "private rule "@) {
        p + "private rule "@.len()
    } else if match_at(s, p, "rule "@) {
        p + "rule "@.len()
    } else {
        -1
    };
    if ns >= 0 {
        if 0 <= ns <= s.len() {
            lemma_word_to_bounds(s, ns);
        }
        let ne = word_to(s, ns);
        lemma_find_sub_bounds(s, ne + 1, "condition:"@);
        match find_sub(s, ne + 1, "condition:"@) {
            Some(c) => {
                lemma_find_close_bounds(s, c + "condition:"@.len() + 1);
            },
            None => {},
        }
    }
}

fn rule_at_ex(v: &Vec<char>, p: usize) -> (r: Option<(usize, usize, usize)>)
    requires
        p <= v@.len(),
    ensures
        match rule_at(v@, p as int) {
            Some(t) => r matches Some(u) && u.0 as int == t.0 && u.1 as int == t.1 && u.2
                as int == t.2 && p < t.0 && t.0 <= t.1 && t.1 < t.2 && t.2 <= v@.len(),
            None => r is None,
        },
{
    proof {
        lemma_rule_at_bounds(v@, p as int);
    }
    let vn: usize = v.len();
    let lit_private = chars_of("private rule ");
    let lit_rule = chars_of("rule ");
    let lit_cond = chars_of("condition:");
    let ns: usize = if match_at_ex(v, p, &lit_private) {
        p + lit_private.len()
    } else if match_at_ex(v, p, &lit_rule) {
        p + lit_rule.len()
    } else {
        return None;
    };
    let ne = skip_word(v, ns);
    if ne > ns {
        if ne >= v.len() {
            return None;
        }
        match find_sub_ex(v, ne + 1, &lit_cond) {
            Some(c) => {
                let base = c + lit_cond.len();
                if base >= v.len() {
                    return None;
                }
                match find_close_ex(v, base + 1) {
                    Some(q) => Some((ns, ne, q + 1)),
                    None => None,
                }
            },
            None => None,
        }
    } else {
        None
    }
}

/// The first rule span at or after `from`, anchored at a line start:
/// its start, the name's range, and its end.
pub open spec fn find_rule(s: Seq<char>, from: int) -> Option<(int, int, int, int)>
    decreases s.len() - from,
{
    if !(0 <= from < s.len()) {
        None
    } else if line_start(s, from) {
        match rule_at(s, from) {
            Some(t) => Some((from, t.0, t.1, t.2)),
            None => find_rule(s, from + 1),
        }
    } else {
        find_rule(s, from + 1)
    }
}

proof fn lemma_find_rule_bounds(s: Seq<char>, from: int)
    ensures
        find_rule(s, from) matches Some(t) ==> from <= t.0 && t.0 < t.1 && t.1 <= t.2
            && t.2 < t.3 && t.3 <= s.len(),
    decreases s.len() - from,
{
    if 0 <= from < s.len() {
        lemma_rule_at_bounds(s, from);
        if line_start(s, from) {
            match rule_at(s, from) {
                Some(_) => {},
                None => {
                    lemma_find_rule_bounds(s, from + 1);
                },
            }
        } else {
            lemma_find_rule_bounds(s, from + 1);
        }
    }
}

fn find_rule_ex(v: &Vec<char>, from: usize) -> (r: Option<(usize, usize, usize, usize)>)
    requires
        from <= v@.len(),
    ensures
        match find_rule(v@, from as int) {
            Some(t) => r matches Some(u) && u.0 as int == t.0 && u.1 as int == t.1 && u.2
                as int == t.2 && u.3 as int == t.3 && from <= t.0 && t.0 < t.1 && t.1
                <= t.2 && t.2 < t.3 && t.3 <= v@.len(),
            None => r is None,
        },
{
    proof {
        lemma_find_rule_bounds(v@, from as int);
    }
    let mut p: usize = from;
    loop
        invariant
            from <= p <= v@.len(),
            find_rule(v@, from as int) == find_rule(v@, p as int),
        decreases v@.len() - p,
    {
        if p >= v.len() {
            return None;
        }
        if p == 0 || v[p - 1] == '\n' {
            match rule_at_ex(v, p) {
                Some(t) => {
                    return Some((p, t.0, t.1, t.2));
                },
                None => {},
            }
        }
        p += 1;
    }
}

// ---------------------------------------------------------------------
// Declared strings, import lines, and the rewritten output.
// ---------------------------------------------------------------------
/// Does the rule text declare strings?  True when whitespace, then
/// `strings:`, then whitespace, then a `$` occur in order.
pub open spec fn has_strings(t: Seq<char>) -> bool {
    exists|k: int|
        1 <= k && #[trigger] match_at(t, k, "strings:"@) && is_space_char(t[k - 1])
            && sp_to(t, k + "strings:"@.len()) > k + "strings:"@.len() && sp_to(
            t,
            k + "strings:"@.len(),
        ) < t.len() && t[sp_to(t, k + "strings:"@.len())] == '$'
}

fn has_strings_ex(v: &Vec<char>) -> (r: bool)
    ensures
        r == has_strings(v@),
{
    let lit = chars_of("strings:");
    let mut k: usize = 1;
    while k < v.len()
        invariant
            1 <= k,
            lit@ == "strings:"@,
            forall|m: int|
                1 <= m < k ==> !(#[trigger] match_at(v@, m, "strings:"@) && is_space_char(
                    v@[m - 1],
                ) && sp_to(v@, m + "strings:"@.len()) > m + "strings:"@.len() && sp_to(
                    v@,
                    m + "strings:"@.len(),
                ) < v@.len() && v@[sp_to(v@, m + "strings:"@.len())] == '$'),
        decreases v@.len() - k,
    {
        if match_at_ex(v, k, &lit) && space_char_test(v[k - 1]) {
            let m = skip_sp(v, k + lit.len());
            if m > k + lit.len() && m < v.len() && v[m] == '$' {
                return true;
            }
        }
        k += 1;
    }
    proof {
        assert(forall|m: int| m >= v@.len() ==> !match_at(v@, m, "strings:"@)) by {
            reveal_strlit("strings:");
        }
    }
    false
}

/// The rule text with its condition replaced: everything before the
/// first `condition:` is kept, then `condition: `, the tautological
/// disjunct when the rule declares strings, and the new expression in
/// parentheses.
pub open spec fn rewrite_one(t: Seq<char>, expr: Seq<char>) -> Seq<char> {
    match find_sub(t, 0, "condition:"@) {
        Some(c0) => t.subrange(0, c0) + "condition: "@ + (if has_strings(t) {
            "(all of them and not all of them) or "@
        } else {
            Seq::empty()
        }) + "("@ + expr + ") }\n"@,
        None => t,
    }
}

fn rewrite_one_ex(t: &String, expr: &str) -> (r: String)
    ensures
        r@ == rewrite_one(t@, expr@),
{
    let v = chars_of(t.as_str());
    let lit_cond = chars_of("condition:");
    match find_sub_ex(&v, 0, &lit_cond) {
        Some(c0) => {
            let mut out = String::from_str(t.as_str().substring_char(0, c0));
            out.append("condition: ");
            if has_strings_ex(&v) {
                out.append("(all of them and not all of them) or ");
            } else {
                proof {
                    assert(out@ + Seq::<char>::empty() =~= out@);
                }
            }
            out.append("(");
            out.append(expr);
            out.append(") }\n");
            proof {
                assert(out@ =~= rewrite_one(t@, expr@));
            }
            out
        },
        None => t.clone(),
    }
}

/// Every rule span of `s` from `from` on, in order, each followed by a
/// newline; the rule named `target` has its condition replaced.
pub open spec fn rules_out(s: Seq<char>, from: int, target: Seq<char>, expr: Seq<char>) -> Seq<
    char,
>
    decreases s.len() - from,
{
    match find_rule(s, from) {
        Some(t) => if from <= t.0 && t.0 < t.3 && t.3 <= s.len() {
            let text = s.subrange(t.0, t.3) + "\n"@;
            let piece = if s.subrange(t.1, t.2) == target {
                rewrite_one(text, expr)
            } else {
                text
            };
            piece + rules_out(s, t.3, target, expr)
        } else {
            Seq::empty()
        },
        None => Seq::empty(),
    }
}

fn rules_out_ex(s: &str, v: &Vec<char>, from: usize, target: &str, expr: &str) -> (r:
    String)
    requires
        v@ == s@,
        from <= v@.len(),
    ensures
        r@ == rules_out(s@, from as int, target@, expr@),
    decreases v@.len() - from,
{
    match find_rule_ex(v, from) {
        Some(t) => {
            let mut text = String::from_str(s.substring_char(t.0, t.3));
            text.append("\n");
            let name = s.substring_char(t.1, t.2);
            let piece = if crate::text::str_eq(name, target) {
                rewrite_one_ex(&text, expr)
            } else {
                text
            };
            let rest = rules_out_ex(s, v, t.3, target, expr);
            let out = piece.concat(rest.as_str());
            out
        },
        None => {
            proof {
                assert(rules_out(s@, from as int, target@, expr@) =~= Seq::<
                    char,
                >::empty());
            }
            String::new()
        },
    }
}

/// Is `t` exactly an import line, `import "<module>"`?
pub open spec fn import_line(t: Seq<char>) -> bool {
    match_at(t, 0, "import \""@) && word_to(t, "import \""@.len() as int) == t.len() - 1
        && word_to(t, "import \""@.len() as int) > "import \""@.len() && t.len() >= 1 && t[
        t.len() - 1
    ] == '"'
}

fn import_line_ex(v: &Vec<char>) -> (r: bool)
    ensures
        r == import_line(v@),
{
    let lit = chars_of("import \"");
    if !match_at_ex(v, 0, &lit) {
        return false;
    }
    let w = skip_word(v, lit.len());
    v.len() >= 1 && w == v.len() - 1 && w > lit.len() && v[v.len() - 1] == '"'
}

/// Every line of `s` from `p` on that is exactly an import
/// declaration, each followed by a newline.
pub open spec fn imports_out(s: Seq<char>, p: int) -> Seq<char>
    decreases s.len() - p,
{
    if !(0 <= p < s.len()) {
        Seq::empty()
    } else {
        let e = nl_to(s, p);
        if p <= e <= s.len() {
            let line = s.subrange(p, e);
            let piece = if import_line(line) {
                line + "\n"@
            } else {
                Seq::empty()
            };
            if e < s.len() {
                piece + imports_out(s, e + 1)
            } else {
                piece
            }
        } else {
            Seq::empty()
        }
    }
}

fn imports_out_ex(s: &str, v: &Vec<char>, p: usize) -> (r: String)
    requires
        v@ == s@,
        p <= v@.len(),
    ensures
        r@ == imports_out(s@, p as int),
    decreases v@.len() - p,
{
    if p >= v.len() {
        return String::new();
    }
    let e = skip_to_nl(v, p);
    let line = chars_of(s.substring_char(p, e));
    let mut piece: String = if import_line_ex(&line) {
        let mut x = String::from_str(s.substring_char(p, e));
        x.append("\n");
        x
    } else {
        String::new()
    };
    if e < v.len() {
        let rest = imports_out_ex(s, v, e + 1);
        let out = piece.concat(rest.as_str());
        out
    } else {
        piece
    }
}

/// What the rewritten rule source is: the import lines of `rules` in
/// order, then every rule span in order, the one named `target_rule`
/// with its condition replaced by `expression` (in parentheses, and
/// behind the tautological disjunct when the rule declares strings).
pub open spec fn spec_rewrite(
    rules: Seq<char>,
    target: Seq<char>,
    expr: Seq<char>,
) -> Seq<char> {
    imports_out(rules, 0) + rules_out(rules, 0, target, expr)
}

/// Produce new rule source text from `rules` in which the condition of
/// `target_rule` is replaced by `expression`.  Imports are kept first,
/// every other rule is kept verbatim, and a target rule that declares
/// strings keeps its string bookkeeping alive through a tautological
/// disjunct.  When no rule is named `target_rule`, no rule is modified.
pub fn expression_to_rules_with_condition(
    rules: &str,
    target_rule: &str,
    expression: &str,
) -> (r: Result<String, YariError>)
    ensures
        r matches Ok(out) && out@ == spec_rewrite(rules@, target_rule@, expression@),
{
    let v = chars_of(rules);
    let imports = imports_out_ex(rules, &v, 0);
    let body = rules_out_ex(rules, &v, 0, target_rule, expression);
    let out = imports.concat(body.as_str());
    Ok(out)
}

} // verus!
