//! The expression holder and its lexer: variable substitution followed by a
//! single left-to-right scan of the text into a flat token sequence.

use vstd::prelude::*;
use vstd::string::StrSliceExecFns;
use vstd::string::StringExecFns;

use crate::token::Error;
use crate::token::ErrorView;
use crate::token::Operand;
use crate::token::OperandView;
use crate::token::Operator;
use crate::token::Token;
use crate::token::TokenView;
use crate::token::views_of;

verus! {

/// Whether `c` is a decimal digit.
pub open spec fn is_digit(c: char) -> bool {
    48 <= c as u32 <= 57
}

/// Whether `c` is an alphabetic letter (variable names are made of these).
pub open spec fn is_alpha(c: char) -> bool {
    (65 <= c as u32 <= 90) || (97 <= c as u32 <= 122)
}

/// Whether `c` is whitespace: space, tab, or a line break.
pub open spec fn is_ws(c: char) -> bool {
    c == ' ' || c == '\t' || c == '\n' || c == '\r'
}

pub(crate) fn digit_char(c: char) -> (b: bool)
    ensures
        b == is_digit(c),
{
    let u = c as u32;
    48 <= u && u <= 57
}

fn alpha_char(c: char) -> (b: bool)
    ensures
        b == is_alpha(c),
{
    let u = c as u32;
    (65 <= u && u <= 90) || (97 <= u && u <= 122)
}

fn ws_char(c: char) -> (b: bool)
    ensures
        b == is_ws(c),
{
    c == ' ' || c == '\t' || c == '\n' || c == '\r'
}

/// Whether some character of `s` is a digit.
pub open spec fn has_digit(s: Seq<char>) -> bool {
    exists|i: int| 0 <= i < s.len() && is_digit(s[i])
}

/// The position just past the numeric literal that starts at `pos`: the
/// scan accumulates digits and at most one decimal point, maximally.
pub open spec fn lit_end(text: Seq<char>, pos: int, dot_seen: bool) -> int
    decreases text.len() - pos,
{
    if pos < text.len() && (is_digit(text[pos]) || (text[pos] == '.' && !dot_seen)) {
        lit_end(text, pos + 1, dot_seen || text[pos] == '.')
    } else {
        pos
    }
}

pub proof fn lemma_lit_end_bounds(text: Seq<char>, pos: int, dot_seen: bool)
    requires
        0 <= pos <= text.len(),
    ensures
        pos <= lit_end(text, pos, dot_seen) <= text.len(),
    decreases text.len() - pos,
{
    if pos < text.len() && (is_digit(text[pos]) || (text[pos] == '.' && !dot_seen)) {
        lemma_lit_end_bounds(text, pos + 1, dot_seen || text[pos] == '.');
    }
}

/// One left-to-right scan of `text` from `pos` onward. `bal` is the running
/// parenthesis balance; `prev` says whether the token scanned last was an
/// operand or a right parenthesis (which makes a following `+`/`-` binary).
///
/// This is the reference meaning of the lexer: which tokens come out of a
/// well-formed text, and which typed error ends the scan of any other.
pub open spec fn scan_rest(text: Seq<char>, pos: int, bal: int, prev: bool) -> Result<
    Seq<TokenView>,
    ErrorView,
>
    decreases text.len() - pos, 0int,
    when 0 <= pos <= text.len()
    via scan_rest_decreases
{
    if pos >= text.len() {
        if bal != 0 {
            Err(ErrorView::InvalidParenthesis(0))
        } else {
            Ok(Seq::empty())
        }
    } else {
        let c = text[pos];
        if is_digit(c) || c == '.' {
            let end = lit_end(text, pos, false);
            let lit = text.subrange(pos, end);
            if has_digit(lit) {
                match scan_rest(text, end, bal, true) {
                    Ok(rest) => Ok(seq![TokenView::Operand(OperandView::Number(lit))] + rest),
                    Err(e) => Err(e),
                }
            } else {
                Err(ErrorView::InvalidOperand((end, lit)))
            }
        } else if c == '+' || c == '-' {
            let op = if c == '+' {
                if prev {
                    Operator::Plus
                } else {
                    Operator::Uplus
                }
            } else {
                if prev {
                    Operator::Minus
                } else {
                    Operator::Uminus
                }
            };
            match scan_rest(text, pos + 1, bal, false) {
                Ok(rest) => Ok(seq![TokenView::Operator(op)] + rest),
                Err(e) => Err(e),
            }
        } else if c == '*' || c == '/' || c == '^' || c == '%' {
            if !prev {
                Err(ErrorView::InvalidOperator(pos))
            } else {
                let op = if c == '*' {
                    Operator::Multiply
                } else if c == '/' {
                    Operator::Divide
                } else if c == '^' {
                    Operator::Power
                } else {
                    Operator::Modulus
                };
                match scan_rest(text, pos + 1, bal, false) {
                    Ok(rest) => Ok(seq![TokenView::Operator(op)] + rest),
                    Err(e) => Err(e),
                }
            }
        } else if c == '(' {
            match scan_rest(text, pos + 1, bal + 1, false) {
                Ok(rest) => Ok(seq![TokenView::ParenL] + rest),
                Err(e) => Err(e),
            }
        } else if c == ')' {
            if bal <= 0 {
                Err(ErrorView::InvalidParenthesis(pos))
            } else {
                match scan_rest(text, pos + 1, bal - 1, true) {
                    Ok(rest) => Ok(seq![TokenView::ParenR] + rest),
                    Err(e) => Err(e),
                }
            }
        } else if is_ws(c) {
            scan_rest(text, pos + 1, bal, prev)
        } else {
            Err(ErrorView::InvalidToken((pos, c)))
        }
    }
}

#[via_fn]
proof fn scan_rest_decreases(text: Seq<char>, pos: int, bal: int, prev: bool) {
    if 0 <= pos && pos < text.len() && (is_digit(text[pos]) || text[pos] == '.') {
        lemma_lit_end_bounds(text, pos + 1, text[pos] == '.');
        assert(lit_end(text, pos, false) == lit_end(text, pos + 1, text[pos] == '.'));
    }
}

/// The full scan of a text, from a fresh state.
pub open spec fn scan(text: Seq<char>) -> Result<Seq<TokenView>, ErrorView> {
    scan_rest(text, 0, 0, false)
}

/// The views of a sequence of owned strings, in order.
pub open spec fn str_views(v: Seq<String>) -> Seq<Seq<char>> {
    v.map_values(|s: String| s@)
}

/// The position just past the alphabetic run that starts at `pos`.
pub open spec fn alpha_run_end(s: Seq<char>, pos: int) -> int
    decreases s.len() - pos,
{
    if 0 <= pos && pos < s.len() && is_alpha(s[pos]) {
        alpha_run_end(s, pos + 1)
    } else {
        pos
    }
}

pub proof fn lemma_alpha_run_end_bounds(s: Seq<char>, pos: int)
    requires
        0 <= pos <= s.len(),
    ensures
        pos <= alpha_run_end(s, pos) <= s.len(),
    decreases s.len() - pos,
{
    if pos < s.len() && is_alpha(s[pos]) {
        lemma_alpha_run_end_bounds(s, pos + 1);
    }
}

/// The maximal alphabetic runs of `s` from `i` on, in order of appearance,
/// duplicates kept.
pub open spec fn names_from(s: Seq<char>, i: int) -> Seq<Seq<char>>
    decreases s.len() - i,
    when 0 <= i <= s.len()
    via names_from_decreases
{
    if i >= s.len() {
        Seq::empty()
    } else if is_alpha(s[i]) {
        seq![s.subrange(i, alpha_run_end(s, i))] + names_from(s, alpha_run_end(s, i))
    } else {
        names_from(s, i + 1)
    }
}

#[via_fn]
proof fn names_from_decreases(s: Seq<char>, i: int) {
    if 0 <= i && i < s.len() && is_alpha(s[i]) {
        lemma_alpha_run_end_bounds(s, i + 1);
        assert(alpha_run_end(s, i) == alpha_run_end(s, i + 1));
    }
}

/// The index of the first element of `ns` equal to `v`, or the length of
/// `ns` where none is.
pub open spec fn first_index_of(ns: Seq<Seq<char>>, v: Seq<char>) -> int
    decreases ns.len(),
{
    if ns.len() == 0 {
        0
    } else if ns[0] == v {
        0
    } else {
        1 + first_index_of(ns.drop_first(), v)
    }
}

/// Whether some element of `ns` equals `v`.
pub open spec fn contains_text(ns: Seq<Seq<char>>, v: Seq<char>) -> bool {
    exists|k: int| 0 <= k < ns.len() && ns[k] == v
}

pub proof fn lemma_first_index_of(ns: Seq<Seq<char>>, v: Seq<char>)
    ensures
        0 <= first_index_of(ns, v) <= ns.len(),
        first_index_of(ns, v) < ns.len() ==> ns[first_index_of(ns, v)] == v,
        forall|k: int| 0 <= k < first_index_of(ns, v) ==> ns[k] != v,
        first_index_of(ns, v) == ns.len() ==> !contains_text(ns, v),
    decreases ns.len(),
{
    if ns.len() > 0 && ns[0] != v {
        lemma_first_index_of(ns.drop_first(), v);
        let fi = first_index_of(ns, v);
        assert(forall|k: int| 1 <= k < fi ==> ns[k] == ns.drop_first()[k - 1]);
        if fi == ns.len() {
            assert forall|k: int| 0 <= k < ns.len() implies ns[k] != v by {
                if k >= 1 {
                    assert(ns[k] == ns.drop_first()[k - 1]);
                }
            }
        }
    }
}

/// `ns` with every repeated element removed, keeping first appearances in
/// order.
pub open spec fn dedup_names(ns: Seq<Seq<char>>) -> Seq<Seq<char>>
    decreases ns.len(),
{
    if ns.len() == 0 {
        Seq::empty()
    } else if contains_text(ns.drop_last(), ns.last()) {
        dedup_names(ns.drop_last())
    } else {
        dedup_names(ns.drop_last()).push(ns.last())
    }
}

pub proof fn lemma_dedup_contains(ns: Seq<Seq<char>>, v: Seq<char>)
    ensures
        contains_text(dedup_names(ns), v) <==> contains_text(ns, v),
    decreases ns.len(),
{
    if ns.len() > 0 {
        let front = ns.drop_last();
        lemma_dedup_contains(front, v);
        assert(forall|k: int| 0 <= k < front.len() ==> front[k] == ns[k]);
        if contains_text(ns, v) {
            let k = choose|k: int| 0 <= k < ns.len() && ns[k] == v;
            if k < ns.len() - 1 {
                assert(front[k] == v);
                let j = choose|j: int| 0 <= j < dedup_names(front).len() && dedup_names(front)[j]
                    == v;
                if !contains_text(front, ns.last()) {
                    assert(dedup_names(ns)[j] == v);
                }
            } else {
                if contains_text(front, ns.last()) {
                    let j = choose|j: int|
                        0 <= j < dedup_names(front).len() && dedup_names(front)[j] == v;
                    assert(dedup_names(ns)[j] == v);
                } else {
                    assert(dedup_names(ns).last() == v);
                }
            }
        }
        if contains_text(dedup_names(ns), v) {
            let j = choose|j: int| 0 <= j < dedup_names(ns).len() && dedup_names(ns)[j] == v;
            if contains_text(front, ns.last()) {
                assert(dedup_names(front)[j] == v);
                let k = choose|k: int| 0 <= k < front.len() && front[k] == v;
                assert(ns[k] == v);
            } else {
                if j < dedup_names(front).len() {
                    assert(dedup_names(front)[j] == v);
                    let k = choose|k: int| 0 <= k < front.len() && front[k] == v;
                    assert(ns[k] == v);
                } else {
                    assert(ns.last() == v);
                    assert(ns[ns.len() - 1] == v);
                }
            }
        }
    }
}

/// The position just past the whitespace-free run that starts at `pos`.
pub open spec fn tok_end(s: Seq<char>, pos: int) -> int
    decreases s.len() - pos,
{
    if 0 <= pos && pos < s.len() && !is_ws(s[pos]) {
        tok_end(s, pos + 1)
    } else {
        pos
    }
}

pub proof fn lemma_tok_end_bounds(s: Seq<char>, pos: int)
    requires
        0 <= pos <= s.len(),
    ensures
        pos <= tok_end(s, pos) <= s.len(),
    decreases s.len() - pos,
{
    if pos < s.len() && !is_ws(s[pos]) {
        lemma_tok_end_bounds(s, pos + 1);
    }
}

/// The whitespace-separated value texts of `s` from `i` on, in order.
pub open spec fn ws_tokens_from(s: Seq<char>, i: int) -> Seq<Seq<char>>
    decreases s.len() - i,
    when 0 <= i <= s.len()
    via ws_tokens_from_decreases
{
    if i >= s.len() {
        Seq::empty()
    } else if is_ws(s[i]) {
        ws_tokens_from(s, i + 1)
    } else {
        seq![s.subrange(i, tok_end(s, i))] + ws_tokens_from(s, tok_end(s, i))
    }
}

#[via_fn]
proof fn ws_tokens_from_decreases(s: Seq<char>, i: int) {
    if 0 <= i && i < s.len() && !is_ws(s[i]) {
        lemma_tok_end_bounds(s, i + 1);
        assert(tok_end(s, i) == tok_end(s, i + 1));
    }
}

/// The first index at or after `pos` holding a non-whitespace character.
pub open spec fn trim_start(s: Seq<char>, pos: int) -> int
    decreases s.len() - pos,
{
    if 0 <= pos && pos < s.len() && is_ws(s[pos]) {
        trim_start(s, pos + 1)
    } else {
        pos
    }
}

/// One past the last index before `e` holding a non-whitespace character.
pub open spec fn trim_end(s: Seq<char>, e: int) -> int
    decreases e,
{
    if 0 < e && e <= s.len() && is_ws(s[e - 1]) {
        trim_end(s, e - 1)
    } else {
        e
    }
}

/// `s` without leading and trailing whitespace.
pub open spec fn trimmed(s: Seq<char>) -> Seq<char> {
    let a = trim_start(s, 0);
    let b = trim_end(s, s.len() as int);
    if a <= b {
        s.subrange(a, b)
    } else {
        Seq::empty()
    }
}

/// `s` from `i` on with every maximal alphabetic run that equals one of
/// the leading `vals.len()` elements of `names` replaced by the value text
/// at the same index; everything else is kept as it stands.
pub open spec fn subst_from(
    s: Seq<char>,
    i: int,
    names: Seq<Seq<char>>,
    vals: Seq<Seq<char>>,
) -> Seq<char>
    decreases s.len() - i,
    when 0 <= i <= s.len()
    via subst_from_decreases
{
    if i >= s.len() {
        Seq::empty()
    } else if is_alpha(s[i]) {
        let e = alpha_run_end(s, i);
        let run = s.subrange(i, e);
        let j = first_index_of(names, run);
        (if j < names.len() && j < vals.len() {
            vals[j]
        } else {
            run
        }) + subst_from(s, e, names, vals)
    } else {
        seq![s[i]] + subst_from(s, i + 1, names, vals)
    }
}

#[via_fn]
proof fn subst_from_decreases(s: Seq<char>, i: int, names: Seq<Seq<char>>, vals: Seq<Seq<char>>) {
    if 0 <= i && i < s.len() && is_alpha(s[i]) {
        lemma_alpha_run_end_bounds(s, i + 1);
        assert(alpha_run_end(s, i) == alpha_run_end(s, i + 1));
    }
}

/// Whether some value text fails to canonicalize.
pub open spec fn some_value_invalid(toks: Seq<Seq<char>>) -> bool {
    exists|k: int| 0 <= k < toks.len() && crate::num::canon_value(toks[k]) is None
}

/// The canonical texts of all value texts, position by position.
pub open spec fn canon_all(toks: Seq<Seq<char>>) -> Seq<Seq<char>> {
    Seq::new(
        toks.len(),
        |k: int|
            match crate::num::canon_value(toks[k]) {
                Some(t) => t,
                None => Seq::empty(),
            },
    )
}

/// What variable substitution does to the raw text: without a `|`
/// separator the text is kept; otherwise the part before the separator is
/// trimmed, its maximal alphabetic runs (first appearances, in order) are
/// bound positionally to the whitespace-separated values after the
/// separator, every value must be a plain decimal literal, and each bound
/// run is replaced by its value's canonical decimal text.
pub open spec fn subst_result(raw: Seq<char>) -> Result<Seq<char>, ErrorView> {
    let b = crate::num::find_char_from(raw, '|', 0);
    if b >= raw.len() {
        Ok(raw)
    } else {
        let ep = trimmed(raw.subrange(0, b));
        let vp = raw.subrange(b + 1, raw.len() as int);
        let names = dedup_names(names_from(ep, 0));
        let toks = ws_tokens_from(vp, 0);
        if some_value_invalid(toks) {
            Err(ErrorView::InvalidVariable(0))
        } else {
            Ok(subst_from(ep, 0, names, canon_all(toks)))
        }
    }
}

/// The executable scanner; its result is exactly what `scan` says.
fn scan_text(text: &str) -> (r: Result<Vec<Token>, Error>)
    ensures
        match r {
            Ok(ts) => scan(text@) == Ok::<Seq<TokenView>, ErrorView>(views_of(ts@)),
            Err(e) => scan(text@) == Err::<Seq<TokenView>, ErrorView>(e@),
        },
{
    let len = text.unicode_len();
    let mut tokens: Vec<Token> = Vec::new();
    let mut i: usize = 0;
    let mut bal: usize = 0;
    let mut prev: bool = false;
    while i < len
        invariant
            len == text@.len(),
            i <= len,
            bal <= i,
            scan(text@) == (match scan_rest(text@, i as int, bal as int, prev) {
                Ok(rest) => Ok::<Seq<TokenView>, ErrorView>(views_of(tokens@) + rest),
                Err(e) => Err::<Seq<TokenView>, ErrorView>(e),
            }),
        decreases len - i,
    {
        let ghost pre_tokens = tokens@;
        let c = text.get_char(i);
        if digit_char(c) || c == '.' {
            let mut lit = String::new();
            let mut j = i;
            let mut dot = false;
            let mut dig = false;
            let mut stop = false;
            while !stop && j < len
                invariant
                    len == text@.len(),
                    i <= j <= len,
                    lit@ == text@.subrange(i as int, j as int),
                    !stop ==> lit_end(text@, i as int, false) == lit_end(text@, j as int, dot),
                    stop ==> lit_end(text@, i as int, false) == j as int,
                    dig == has_digit(text@.subrange(i as int, j as int)),
                decreases len - j, if stop {
                    0int
                } else {
                    1int
                },
            {
                let c2 = text.get_char(j);
                let ghost sub_old = text@.subrange(i as int, j as int);
                let ghost sub_new = text@.subrange(i as int, j + 1);
                if digit_char(c2) {
                    push_char(&mut lit, c2);
                    dig = true;
                    proof {
                        assert(sub_new =~= sub_old + seq![text@[j as int]]);
                        assert(is_digit(sub_new[j - i]));
                    }
                    j = j + 1;
                } else if c2 == '.' && !dot {
                    push_char(&mut lit, '.');
                    dot = true;
                    proof {
                        assert(sub_new =~= sub_old + seq![text@[j as int]]);
                        if has_digit(sub_old) {
                            let k = choose|k: int|
                                0 <= k < sub_old.len() && is_digit(sub_old[k]);
                            assert(is_digit(sub_new[k]));
                        }
                        if has_digit(sub_new) {
                            let k = choose|k: int|
                                0 <= k < sub_new.len() && is_digit(sub_new[k]);
                            if k < sub_old.len() {
                                assert(is_digit(sub_old[k]));
                            } else {
                                assert(sub_new[k] == '.');
                            }
                        }
                    }
                    j = j + 1;
                } else {
                    proof {
                        assert(lit_end(text@, j as int, dot) == j as int);
                    }
                    stop = true;
                }
            }
            proof {
                if !stop {
                    assert(lit_end(text@, j as int, dot) == j as int);
                }
                assert(lit@ == text@.subrange(i as int, lit_end(text@, i as int, false)));
            }
            if !dig {
                return Err(Error::InvalidOperand((j, lit)));
            }
            let tok = Token::Operand(Operand::Number(lit));
            proof {
                lemma_lit_end_bounds(text@, i as int + 1, text@[i as int] == '.');
                assert(lit_end(text@, i as int, false) == lit_end(
                    text@,
                    i as int + 1,
                    text@[i as int] == '.',
                ));
                assert(j > i);
            }
            tokens.push(tok);
            proof {
                let step = scan_rest(text@, i as int, bal as int, prev);
                if let Ok(rest) = scan_rest(text@, j as int, bal as int, true) {
                    assert(views_of(tokens@) =~= views_of(pre_tokens) + seq![tok@]);
                    assert(views_of(pre_tokens) + (seq![tok@] + rest) =~= views_of(tokens@)
                        + rest);
                }
            }
            i = j;
            prev = true;
        } else if c == '+' || c == '-' {
            let op = if c == '+' {
                if prev {
                    Operator::Plus
                } else {
                    Operator::Uplus
                }
            } else {
                if prev {
                    Operator::Minus
                } else {
                    Operator::Uminus
                }
            };
            let tok = Token::Operator(op);
            tokens.push(tok);
            proof {
                if let Ok(rest) = scan_rest(text@, i + 1, bal as int, false) {
                    assert(views_of(tokens@) =~= views_of(pre_tokens) + seq![tok@]);
                    assert(views_of(pre_tokens) + (seq![tok@] + rest) =~= views_of(tokens@)
                        + rest);
                }
            }
            i = i + 1;
            prev = false;
        } else if c == '*' || c == '/' || c == '^' || c == '%' {
            if !prev {
                return Err(Error::InvalidOperator(i));
            }
            let op = if c == '*' {
                Operator::Multiply
            } else if c == '/' {
                Operator::Divide
            } else if c == '^' {
                Operator::Power
            } else {
                Operator::Modulus
            };
            let tok = Token::Operator(op);
            tokens.push(tok);
            proof {
                if let Ok(rest) = scan_rest(text@, i + 1, bal as int, false) {
                    assert(views_of(tokens@) =~= views_of(pre_tokens) + seq![tok@]);
                    assert(views_of(pre_tokens) + (seq![tok@] + rest) =~= views_of(tokens@)
                        + rest);
                }
            }
            i = i + 1;
            prev = false;
        } else if c == '(' {
            let tok = Token::ParenL;
            tokens.push(tok);
            proof {
                if let Ok(rest) = scan_rest(text@, i + 1, bal + 1, false) {
                    assert(views_of(tokens@) =~= views_of(pre_tokens) + seq![tok@]);
                    assert(views_of(pre_tokens) + (seq![tok@] + rest) =~= views_of(tokens@)
                        + rest);
                }
            }
            bal = bal + 1;
            i = i + 1;
            prev = false;
        } else if c == ')' {
            if bal == 0 {
                return Err(Error::InvalidParenthesis(i));
            }
            let tok = Token::ParenR;
            tokens.push(tok);
            proof {
                if let Ok(rest) = scan_rest(text@, i + 1, bal - 1, true) {
                    assert(views_of(tokens@) =~= views_of(pre_tokens) + seq![tok@]);
                    assert(views_of(pre_tokens) + (seq![tok@] + rest) =~= views_of(tokens@)
                        + rest);
                }
            }
            bal = bal - 1;
            i = i + 1;
            prev = true;
        } else if ws_char(c) {
            i = i + 1;
        } else {
            return Err(Error::InvalidToken((i, c)));
        }
    }
    if bal != 0 {
        return Err(Error::InvalidParenthesis(0));
    }
    proof {
        assert(views_of(tokens@) + Seq::<TokenView>::empty() =~= views_of(tokens@));
    }
    Ok(tokens)
}

/// Relies on `String::push`: appends exactly the one character.
#[verifier::external_body]
pub(crate) fn push_char(s: &mut String, c: char)
    ensures
        final(s)@ == old(s)@.push(c),
{
    s.push(c);
}

/// A well-formed numeric literal, as the scanner alone can produce one:
/// nonempty, nothing but digits and decimal points, at most one decimal
/// point, at least one digit.
pub open spec fn wf_lit(lit: Seq<char>) -> bool {
    lit.len() > 0 && crate::num::all_digit_or_dot(lit) && crate::num::num_dots_from(lit, 0) <= 1
        && has_digit(lit)
}

/// Whether an operator variant agrees with the preceding-token state the
/// scanner classifies by: binary variants demand a preceding operand or
/// right parenthesis, unary variants demand its absence.
pub open spec fn op_fits(op: Operator, prev: bool) -> bool {
    match op {
        Operator::Uplus | Operator::Uminus => !prev,
        _ => prev,
    }
}

/// A token sequence as a successful scan can produce it from running
/// balance `bal` and preceding-token state `prev`: only well-formed number
/// operands, operator classification in agreement with what precedes, the
/// running balance never negative and zero at the end.
pub open spec fn valid_from(ts: Seq<TokenView>, bal: int, prev: bool) -> bool
    decreases ts.len(),
{
    if ts.len() == 0 {
        bal == 0
    } else {
        match ts[0] {
            TokenView::Operand(OperandView::Number(lit)) => wf_lit(lit) && valid_from(
                ts.drop_first(),
                bal,
                true,
            ),
            TokenView::Operand(_) => false,
            TokenView::Operator(op) => op_fits(op, prev) && valid_from(
                ts.drop_first(),
                bal,
                false,
            ),
            TokenView::ParenL => valid_from(ts.drop_first(), bal + 1, false),
            TokenView::ParenR => bal >= 1 && valid_from(ts.drop_first(), bal - 1, true),
        }
    }
}

/// How many decimal points stand in `text` at positions `a` up to `b`.
pub open spec fn dots_between(text: Seq<char>, a: int, b: int) -> int
    decreases b - a,
{
    if a >= b {
        0
    } else {
        (if text[a] == '.' {
            1int
        } else {
            0int
        }) + dots_between(text, a + 1, b)
    }
}

proof fn lemma_dots_nonneg(text: Seq<char>, a: int, b: int)
    ensures
        dots_between(text, a, b) >= 0,
    decreases b - a,
{
    if a < b {
        lemma_dots_nonneg(text, a + 1, b);
    }
}

proof fn lemma_dots_correspond(text: Seq<char>, a: int, b: int, k: int)
    requires
        0 <= a <= b <= text.len(),
        0 <= k <= b - a,
    ensures
        crate::num::num_dots_from(text.subrange(a, b), k) == dots_between(text, a + k, b),
    decreases b - a - k,
{
    let lit = text.subrange(a, b);
    if k < b - a {
        lemma_dots_correspond(text, a, b, k + 1);
        assert(lit[k] == text[a + k]);
    }
}

proof fn lemma_lit_end_props(text: Seq<char>, pos: int, dot_seen: bool)
    requires
        0 <= pos <= text.len(),
    ensures
        forall|k: int|
            pos <= k < lit_end(text, pos, dot_seen) ==> is_digit(text[k]) || text[k] == '.',
        dots_between(text, pos, lit_end(text, pos, dot_seen)) <= (if dot_seen {
            0int
        } else {
            1int
        }),
    decreases text.len() - pos,
{
    lemma_lit_end_bounds(text, pos, dot_seen);
    if pos < text.len() && (is_digit(text[pos]) || (text[pos] == '.' && !dot_seen)) {
        lemma_lit_end_props(text, pos + 1, dot_seen || text[pos] == '.');
        lemma_lit_end_bounds(text, pos + 1, dot_seen || text[pos] == '.');
    }
}

proof fn lemma_lit_end_run(text: Seq<char>, pos: int, end: int, dot_seen: bool)
    requires
        0 <= pos <= end <= text.len(),
        forall|k: int| pos <= k < end ==> is_digit(text[k]) || text[k] == '.',
        dots_between(text, pos, end) <= (if dot_seen {
            0int
        } else {
            1int
        }),
        end == text.len() || (!is_digit(text[end]) && text[end] != '.'),
    ensures
        lit_end(text, pos, dot_seen) == end,
    decreases end - pos,
{
    if pos < end {
        lemma_dots_nonneg(text, pos + 1, end);
        if text[pos] == '.' && dot_seen {
            assert(dots_between(text, pos, end) >= 1);
            assert(false);
        }
        lemma_lit_end_run(text, pos + 1, end, dot_seen || text[pos] == '.');
    }
}

/// A successful scan only ever produces a token sequence that is valid for
/// its starting state.
pub proof fn lemma_scan_valid(text: Seq<char>, pos: int, bal: int, prev: bool, ts: Seq<TokenView>)
    requires
        0 <= pos <= text.len(),
        0 <= bal,
        scan_rest(text, pos, bal, prev) == Ok::<Seq<TokenView>, ErrorView>(ts),
    ensures
        valid_from(ts, bal, prev),
    decreases text.len() - pos,
{
    if pos >= text.len() {
        assert(ts == Seq::<TokenView>::empty());
    } else {
        let c = text[pos];
        if is_digit(c) || c == '.' {
            let end = lit_end(text, pos, false);
            let lit = text.subrange(pos, end);
            lemma_lit_end_bounds(text, pos, false);
            match scan_rest(text, end, bal, true) {
                Ok(r) => {
                    lemma_scan_valid(text, end, bal, true, r);
                    lemma_lit_end_props(text, pos, false);
                    lemma_dots_correspond(text, pos, end, 0);
                    assert forall|k: int| 0 <= k < lit.len() implies is_digit(lit[k]) || lit[k]
                        == '.' by {
                        assert(lit[k] == text[pos + k]);
                    }
                    let tv = TokenView::Operand(OperandView::Number(lit));
                    assert(ts == seq![tv] + r);
                    assert(ts.drop_first() =~= r);
                    assert(wf_lit(lit));
                },
                Err(_) => {
                    assert(false);
                },
            }
        } else if c == '+' || c == '-' {
            match scan_rest(text, pos + 1, bal, false) {
                Ok(r) => {
                    lemma_scan_valid(text, pos + 1, bal, false, r);
                    assert(ts.drop_first() =~= r);
                },
                Err(_) => {
                    assert(false);
                },
            }
        } else if c == '*' || c == '/' || c == '^' || c == '%' {
            match scan_rest(text, pos + 1, bal, false) {
                Ok(r) => {
                    lemma_scan_valid(text, pos + 1, bal, false, r);
                    assert(ts.drop_first() =~= r);
                },
                Err(_) => {
                    assert(false);
                },
            }
        } else if c == '(' {
            match scan_rest(text, pos + 1, bal + 1, false) {
                Ok(r) => {
                    lemma_scan_valid(text, pos + 1, bal + 1, false, r);
                    assert(ts.drop_first() =~= r);
                },
                Err(_) => {
                    assert(false);
                },
            }
        } else if c == ')' {
            match scan_rest(text, pos + 1, bal - 1, true) {
                Ok(r) => {
                    lemma_scan_valid(text, pos + 1, bal - 1, true, r);
                    assert(ts.drop_first() =~= r);
                },
                Err(_) => {
                    assert(false);
                },
            }
        } else if is_ws(c) {
            lemma_scan_valid(text, pos + 1, bal, prev, ts);
        } else {
            assert(false);
        }
    }
}

fn find_bar(s: &str) -> (p: usize)
    ensures
        p == crate::num::find_char_from(s@, '|', 0),
{
    let len = s.unicode_len();
    let mut p: usize = 0;
    while p < len && s.get_char(p) != '|'
        invariant
            len == s@.len(),
            p <= len,
            crate::num::find_char_from(s@, '|', 0) == crate::num::find_char_from(s@, '|', p as int),
        decreases len - p,
    {
        p = p + 1;
    }
    proof {
        assert(crate::num::find_char_from(s@, '|', p as int) == p as int);
    }
    p
}

fn trim_str(s: &str) -> (t: String)
    ensures
        t@ == trimmed(s@),
{
    let len = s.unicode_len();
    let mut a: usize = 0;
    while a < len && ws_char(s.get_char(a))
        invariant
            len == s@.len(),
            a <= len,
            trim_start(s@, 0) == trim_start(s@, a as int),
        decreases len - a,
    {
        a = a + 1;
    }
    proof {
        assert(trim_start(s@, a as int) == a as int);
    }
    let mut b: usize = len;
    while b > 0 && ws_char(s.get_char(b - 1))
        invariant
            len == s@.len(),
            b <= len,
            trim_end(s@, len as int) == trim_end(s@, b as int),
        decreases b,
    {
        b = b - 1;
    }
    proof {
        assert(trim_end(s@, b as int) == b as int);
    }
    if a <= b {
        String::from_str(s.substring_char(a, b))
    } else {
        String::new()
    }
}

fn collect_names(s: &str) -> (v: Vec<String>)
    ensures
        str_views(v@) == names_from(s@, 0),
{
    let len = s.unicode_len();
    let mut v: Vec<String> = Vec::new();
    let mut i: usize = 0;
    while i < len
        invariant
            len == s@.len(),
            i <= len,
            names_from(s@, 0) == str_views(v@) + names_from(s@, i as int),
        decreases len - i,
    {
        let ghost pre = v@;
        let c = s.get_char(i);
        if alpha_char(c) {
            let mut e = i + 1;
            proof {
                assert(alpha_run_end(s@, i as int) == alpha_run_end(s@, i as int + 1));
            }
            while e < len && alpha_char(s.get_char(e))
                invariant
                    len == s@.len(),
                    i < e <= len,
                    alpha_run_end(s@, i as int) == alpha_run_end(s@, e as int),
                decreases len - e,
            {
                e = e + 1;
            }
            proof {
                assert(alpha_run_end(s@, e as int) == e as int);
            }
            let run = String::from_str(s.substring_char(i, e));
            v.push(run);
            proof {
                assert(str_views(v@) =~= str_views(pre) + seq![s@.subrange(i as int, e as int)]);
                assert(str_views(pre) + (seq![s@.subrange(i as int, e as int)] + names_from(
                    s@,
                    e as int,
                )) =~= str_views(v@) + names_from(s@, e as int));
            }
            i = e;
        } else {
            i = i + 1;
        }
    }
    proof {
        assert(str_views(v@) + Seq::<Seq<char>>::empty() =~= str_views(v@));
    }
    v
}

fn contains_str(w: &Vec<String>, x: &String) -> (b: bool)
    ensures
        b == contains_text(str_views(w@), x@),
{
    let mut i: usize = 0;
    while i < w.len()
        invariant
            i <= w@.len(),
            forall|k: int| 0 <= k < i ==> str_views(w@)[k] != x@,
        decreases w@.len() - i,
    {
        if w[i].eq(x) {
            proof {
                assert(str_views(w@)[i as int] == x@);
            }
            return true;
        }
        i = i + 1;
    }
    proof {
        assert(forall|k: int| 0 <= k < str_views(w@).len() ==> str_views(w@)[k] != x@);
    }
    false
}

fn dedup_strs(v: &Vec<String>) -> (w: Vec<String>)
    ensures
        str_views(w@) == dedup_names(str_views(v@)),
{
    let mut w: Vec<String> = Vec::new();
    let mut k: usize = 0;
    while k < v.len()
        invariant
            k <= v@.len(),
            str_views(w@) == dedup_names(str_views(v@).take(k as int)),
        decreases v@.len() - k,
    {
        let ghost pre = str_views(w@);
        let ghost tk = str_views(v@).take(k as int);
        let ghost tk1 = str_views(v@).take(k as int + 1);
        proof {
            assert(tk1.drop_last() =~= tk);
            assert(tk1.last() == v@[k as int]@);
            lemma_dedup_contains(tk, v@[k as int]@);
        }
        let hit = contains_str(&w, &v[k]);
        if !hit {
            w.push(v[k].clone());
            proof {
                assert(str_views(w@) =~= pre.push(v@[k as int]@));
            }
        }
        k = k + 1;
    }
    proof {
        assert(str_views(v@).take(v@.len() as int) =~= str_views(v@));
    }
    w
}

fn split_ws_str(s: &str) -> (v: Vec<String>)
    ensures
        str_views(v@) == ws_tokens_from(s@, 0),
{
    let len = s.unicode_len();
    let mut v: Vec<String> = Vec::new();
    let mut i: usize = 0;
    while i < len
        invariant
            len == s@.len(),
            i <= len,
            ws_tokens_from(s@, 0) == str_views(v@) + ws_tokens_from(s@, i as int),
        decreases len - i,
    {
        let ghost pre = v@;
        let c = s.get_char(i);
        if !ws_char(c) {
            let mut e = i + 1;
            proof {
                assert(tok_end(s@, i as int) == tok_end(s@, i as int + 1));
            }
            while e < len && !ws_char(s.get_char(e))
                invariant
                    len == s@.len(),
                    i < e <= len,
                    tok_end(s@, i as int) == tok_end(s@, e as int),
                decreases len - e,
            {
                e = e + 1;
            }
            proof {
                assert(tok_end(s@, e as int) == e as int);
            }
            let run = String::from_str(s.substring_char(i, e));
            v.push(run);
            proof {
                assert(str_views(v@) =~= str_views(pre) + seq![s@.subrange(i as int, e as int)]);
                assert(str_views(pre) + (seq![s@.subrange(i as int, e as int)] + ws_tokens_from(
                    s@,
                    e as int,
                )) =~= str_views(v@) + ws_tokens_from(s@, e as int));
            }
            i = e;
        } else {
            i = i + 1;
        }
    }
    proof {
        assert(str_views(v@) + Seq::<Seq<char>>::empty() =~= str_views(v@));
    }
    v
}

fn canon_values(toks: &Vec<String>) -> (r: Result<Vec<String>, Error>)
    ensures
        match r {
            Ok(vs) => !some_value_invalid(str_views(toks@)) && str_views(vs@) == canon_all(
                str_views(toks@),
            ),
            Err(e) => e@ == ErrorView::InvalidVariable(0) && some_value_invalid(str_views(toks@)),
        },
{
    let mut vs: Vec<String> = Vec::new();
    let mut k: usize = 0;
    while k < toks.len()
        invariant
            k <= toks@.len(),
            vs@.len() == k,
            forall|j: int|
                0 <= j < k ==> crate::num::canon_value(#[trigger] str_views(toks@)[j]) is Some,
            forall|j: int|
                0 <= j < k ==> #[trigger] str_views(vs@)[j] == canon_all(str_views(toks@))[j],
        decreases toks@.len() - k,
    {
        match crate::num::canon_value_text(toks[k].as_str()) {
            Some(t) => {
                let ghost tv = t@;
                let ghost pre = vs@;
                vs.push(t);
                proof {
                    assert(str_views(vs@) =~= str_views(pre).push(tv));
                    assert(str_views(toks@)[k as int] == toks@[k as int]@);
                    assert(str_views(vs@)[k as int] == tv);
                    assert(canon_all(str_views(toks@))[k as int] == tv);
                }
            },
            None => {
                proof {
                    assert(crate::num::canon_value(str_views(toks@)[k as int]) is None);
                }
                return Err(Error::InvalidVariable(0));
            },
        }
        k = k + 1;
    }
    proof {
        assert forall|j: int| 0 <= j < str_views(toks@).len() implies !(crate::num::canon_value(
            str_views(toks@)[j],
        ) is None) by {}
        assert(str_views(vs@) =~= canon_all(str_views(toks@)));
    }
    Ok(vs)
}

fn first_index_str(names: &Vec<String>, x: &String) -> (p: usize)
    ensures
        p == first_index_of(str_views(names@), x@),
{
    let ghost ns = str_views(names@);
    let mut i: usize = 0;
    while i < names.len()
        invariant
            ns == str_views(names@),
            i <= names@.len(),
            forall|k: int| 0 <= k < i ==> ns[k] != x@,
        decreases names@.len() - i,
    {
        if names[i].eq(x) {
            proof {
                lemma_first_index_of(ns, x@);
                assert(ns[i as int] == x@);
                if first_index_of(ns, x@) < i as int {
                    assert(ns[first_index_of(ns, x@)] == x@);
                }
                if first_index_of(ns, x@) > i as int {
                    assert(ns[i as int] != x@);
                }
            }
            return i;
        }
        i = i + 1;
    }
    proof {
        lemma_first_index_of(ns, x@);
        if first_index_of(ns, x@) < ns.len() {
            assert(ns[first_index_of(ns, x@)] == x@);
        }
    }
    names.len()
}

#[verifier::rlimit(30)]
fn build_subst(s: &str, names: &Vec<String>, vals: &Vec<String>) -> (t: String)
    ensures
        t@ == subst_from(s@, 0, str_views(names@), str_views(vals@)),
{
    let ghost ns = str_views(names@);
    let ghost vl = str_views(vals@);
    let len = s.unicode_len();
    let mut out = String::new();
    let mut i: usize = 0;
    while i < len
        invariant
            ns == str_views(names@),
            vl == str_views(vals@),
            len == s@.len(),
            i <= len,
            subst_from(s@, 0, ns, vl) == out@ + subst_from(s@, i as int, ns, vl),
        decreases len - i,
    {
        let ghost pre = out@;
        let c = s.get_char(i);
        if alpha_char(c) {
            let mut e = i + 1;
            proof {
                assert(alpha_run_end(s@, i as int) == alpha_run_end(s@, i as int + 1));
            }
            while e < len && alpha_char(s.get_char(e))
                invariant
                    len == s@.len(),
                    i < e <= len,
                    alpha_run_end(s@, i as int) == alpha_run_end(s@, e as int),
                decreases len - e,
            {
                e = e + 1;
            }
            proof {
                assert(alpha_run_end(s@, e as int) == e as int);
            }
            let run = String::from_str(s.substring_char(i, e));
            let j = first_index_str(names, &run);
            if j < names.len() && j < vals.len() {
                out.append(vals[j].as_str());
            } else {
                out.append(run.as_str());
            }
            proof {
                let piece = if first_index_of(ns, run@) < ns.len() && first_index_of(ns, run@)
                    < vl.len() {
                    vl[first_index_of(ns, run@)]
                } else {
                    run@
                };
                assert(out@ == pre + piece);
                assert(pre + (piece + subst_from(s@, e as int, ns, vl)) =~= out@ + subst_from(
                    s@,
                    e as int,
                    ns,
                    vl,
                ));
            }
            i = e;
        } else {
            push_char(&mut out, c);
            proof {
                assert(out@ =~= pre + seq![s@[i as int]]);
                assert(pre + (seq![s@[i as int]] + subst_from(s@, i + 1, ns, vl)) =~= out@
                    + subst_from(s@, i + 1, ns, vl));
            }
            i = i + 1;
        }
    }
    proof {
        assert(out@ + Seq::<char>::empty() =~= out@);
    }
    out
}

/// Holds the raw (or, after substitution, the substituted) expression text
/// and, once `tokenize` has run successfully, its flat token sequence.
#[derive(Debug)]
pub struct Expression {
    pub raw: String,
    pub structurized: Option<Vec<crate::token::Token>>,
}

/// The stored text after `tokenize` has run on it, whatever the outcome:
/// substitution rewrites the text only when it succeeds.
pub open spec fn raw_after(raw: Seq<char>) -> Seq<char> {
    match subst_result(raw) {
        Ok(t) => t,
        Err(_) => raw,
    }
}

/// What `tokenize` returns: the substitution error if substitution fails;
/// `InvalidEOF(0)` if the expression was already tokenized; otherwise the
/// outcome of scanning the substituted text.
pub open spec fn tokenize_result(raw: Seq<char>, already: bool) -> Result<
    Seq<TokenView>,
    ErrorView,
> {
    match subst_result(raw) {
        Err(e) => Err(e),
        Ok(t) => if already {
            Err(ErrorView::InvalidEOF(0))
        } else {
            scan(t)
        },
    }
}

/// The symbol character of an operator.
pub open spec fn op_char(op: Operator) -> char {
    match op {
        Operator::Plus | Operator::Uplus => '+',
        Operator::Minus | Operator::Uminus => '-',
        Operator::Multiply => '*',
        Operator::Divide => '/',
        Operator::Power => '^',
        Operator::Modulus => '%',
    }
}

/// The rendered text of one token.
pub open spec fn token_text(t: TokenView) -> Seq<char> {
    match t {
        TokenView::Operand(OperandView::Number(s)) => s,
        TokenView::Operand(OperandView::Variable(s)) => s,
        TokenView::Operand(OperandView::Function(_)) => seq!['f', 'u', 'n', 'c'],
        TokenView::Operator(op) => seq![op_char(op)],
        TokenView::ParenL => seq!['('],
        TokenView::ParenR => seq![')'],
    }
}

/// The rendered text of the tokens from `i` on, each preceded by a space
/// except right parentheses.
pub open spec fn render_tail(ts: Seq<TokenView>, i: int) -> Seq<char>
    decreases ts.len() - i,
{
    if i < 0 || i >= ts.len() {
        Seq::empty()
    } else {
        (if ts[i] is ParenR {
            Seq::empty()
        } else {
            seq![' ']
        }) + token_text(ts[i]) + render_tail(ts, i + 1)
    }
}

/// The rendered text of a token sequence: tokens separated by one space,
/// except that no space precedes a right parenthesis.
pub open spec fn render(ts: Seq<TokenView>) -> Seq<char> {
    if ts.len() == 0 {
        Seq::empty()
    } else {
        token_text(ts[0]) + render_tail(ts, 1)
    }
}

/// A right parenthesis reached with running balance zero — one unmatched
/// by any earlier left parenthesis — ends the scan at once with
/// `InvalidParenthesis` at exactly its offset.
pub proof fn lemma_unmatched_paren_fails(text: Seq<char>, pos: int, prev: bool)
    requires
        0 <= pos < text.len(),
        text[pos] == ')',
    ensures
        scan_rest(text, pos, 0, prev) == Err::<Seq<TokenView>, ErrorView>(
            ErrorView::InvalidParenthesis(pos),
        ),
{
}

/// A scan that exhausts its input with nonzero running balance fails with
/// `InvalidParenthesis(0)`.
pub proof fn lemma_unbalanced_end_fails(text: Seq<char>, bal: int, prev: bool)
    requires
        bal != 0,
    ensures
        scan_rest(text, text.len() as int, bal, prev) == Err::<Seq<TokenView>, ErrorView>(
            ErrorView::InvalidParenthesis(0),
        ),
{
}

/// A character outside the recognized set — digits, the decimal point, the
/// six operator characters, the parentheses and whitespace — ends the scan
/// with `InvalidToken` at exactly its offset, whatever the scan state.
pub proof fn lemma_bad_char_fails(text: Seq<char>, pos: int, bal: int, prev: bool)
    requires
        0 <= pos < text.len(),
        !is_digit(text[pos]),
        text[pos] != '.',
        text[pos] != '+',
        text[pos] != '-',
        text[pos] != '*',
        text[pos] != '/',
        text[pos] != '^',
        text[pos] != '%',
        text[pos] != '(',
        text[pos] != ')',
        !is_ws(text[pos]),
    ensures
        scan_rest(text, pos, bal, prev) == Err::<Seq<TokenView>, ErrorView>(
            ErrorView::InvalidToken((pos, text[pos])),
        ),
{
}

/// A binary-only operator (`*`, `/`, `^`, `%`) reached where no operand or
/// right parenthesis immediately precedes — at the start of input, after
/// another operator, or after a left parenthesis — ends the scan with
/// `InvalidOperator` at exactly its offset.
pub proof fn lemma_binary_op_misplaced_fails(text: Seq<char>, pos: int, bal: int)
    requires
        0 <= pos < text.len(),
        text[pos] == '*' || text[pos] == '/' || text[pos] == '^' || text[pos] == '%',
    ensures
        scan_rest(text, pos, bal, false) == Err::<Seq<TokenView>, ErrorView>(
            ErrorView::InvalidOperator(pos),
        ),
{
}

/// A `+` or `-` is classified binary exactly where an operand or a right
/// parenthesis immediately precedes it, and unary otherwise; the scan then
/// goes on behind it with that operator emitted.
pub proof fn lemma_sign_classification(text: Seq<char>, pos: int, bal: int, prev: bool)
    requires
        0 <= pos < text.len(),
        text[pos] == '+' || text[pos] == '-',
    ensures
        scan_rest(text, pos, bal, prev) == (match scan_rest(text, pos + 1, bal, false) {
            Ok(rest) => Ok::<Seq<TokenView>, ErrorView>(
                seq![
                    TokenView::Operator(
                        if text[pos] == '+' {
                            if prev {
                                Operator::Plus
                            } else {
                                Operator::Uplus
                            }
                        } else {
                            if prev {
                                Operator::Minus
                            } else {
                                Operator::Uminus
                            }
                        },
                    ),
                ] + rest,
            ),
            Err(e) => Err(e),
        }),
{
}

/// Tokenizing an expression that already holds a token sequence fails with
/// `InvalidEOF(0)` whenever its stored text holds no `|` separator — which
/// holds in particular of every text that a successful `tokenize` leaves
/// behind.
pub proof fn lemma_second_tokenize_fails(raw: Seq<char>)
    requires
        forall|i: int| 0 <= i < raw.len() ==> raw[i] != '|',
    ensures
        tokenize_result(raw, true) == Err::<Seq<TokenView>, ErrorView>(ErrorView::InvalidEOF(0)),
{
    crate::num::lemma_find_char_from(raw, '|', 0);
    if crate::num::find_char_from(raw, '|', 0) < raw.len() {
        assert(raw[crate::num::find_char_from(raw, '|', 0)] == '|');
    }
}

proof fn lemma_render_tail_shift(ts: Seq<TokenView>, i: int)
    requires
        1 <= i,
        1 <= ts.len(),
    ensures
        render_tail(ts, i) == render_tail(ts.drop_first(), i - 1),
    decreases ts.len() - i,
{
    if i < ts.len() {
        lemma_render_tail_shift(ts, i + 1);
        assert(ts.drop_first()[i - 1] == ts[i]);
    }
}

proof fn lemma_suffix_subrange(text: Seq<char>, pos: int, a: Seq<char>, b: Seq<char>)
    requires
        0 <= pos <= text.len(),
        text.subrange(pos, text.len() as int) == a + b,
    ensures
        pos + a.len() + b.len() == text.len(),
        text.subrange(pos + a.len(), text.len() as int) == b,
        forall|k: int| 0 <= k < a.len() ==> text[pos + k] == a[k],
{
    let tail = text.subrange(pos, text.len() as int);
    assert(tail.len() == a.len() + b.len());
    assert forall|i: int|
        0 <= i < b.len() implies text.subrange(pos + a.len(), text.len() as int)[i] == b[i] by {
        assert(tail[a.len() + i] == b[i]);
        assert(text.subrange(pos + a.len(), text.len() as int)[i] == text[pos + a.len() + i]);
        assert(text[pos + a.len() + i] == tail[a.len() + i]);
    }
    assert(text.subrange(pos + a.len(), text.len() as int) =~= b);
    assert forall|k: int| 0 <= k < a.len() implies text[pos + k] == a[k] by {
        assert(tail[k] == a[k]);
        assert(text[pos + k] == tail[k]);
    }
}

/// Scanning a text whose remainder from `pos` on is the rendering of a
/// valid token sequence recovers exactly that sequence.
pub proof fn lemma_rescan(text: Seq<char>, pos: int, ts: Seq<TokenView>, bal: int, prev: bool)
    requires
        0 <= pos <= text.len(),
        0 <= bal,
        valid_from(ts, bal, prev),
        text.subrange(pos, text.len() as int) == render(ts),
    ensures
        scan_rest(text, pos, bal, prev) == Ok::<Seq<TokenView>, ErrorView>(ts),
    decreases ts.len(), 0int,
{
    let tail = text.subrange(pos, text.len() as int);
    if ts.len() == 0 {
        assert(pos == text.len());
        assert(ts == Seq::<TokenView>::empty());
    } else {
        let t0 = ts[0];
        let txt = token_text(t0);
        let rest_render = render_tail(ts, 1);
        assert(tail == txt + rest_render);
        assert(txt.len() >= 1) by {
            match t0 {
                TokenView::Operand(OperandView::Number(lit)) => {
                    assert(wf_lit(lit));
                },
                _ => {},
            }
        }
        lemma_suffix_subrange(text, pos, txt, rest_render);
        let pos2 = pos + txt.len();
        assert(pos2 <= text.len());
        assert(text.subrange(pos2, text.len() as int) == rest_render);
        assert(text[pos] == txt[0]);
        lemma_render_tail_shift(ts, 1);
        let ts1 = ts.drop_first();
        assert(seq![t0] + ts1 =~= ts);
        match t0 {
            TokenView::Operand(OperandView::Number(lit)) => {
                assert(txt == lit);
                assert forall|k: int| pos <= k < pos2 implies is_digit(text[k]) || text[k]
                    == '.' by {
                    assert(text[pos + (k - pos)] == txt[k - pos]);
                }
                assert(text.subrange(pos, pos2) =~= lit);
                lemma_dots_correspond(text, pos, pos2, 0);
                if pos2 < text.len() {
                    // the next character is a space or a right parenthesis
                    assert(text[pos2] == text.subrange(pos2, text.len() as int)[0]);
                    assert(text[pos2] == rest_render[0]);
                    assert(ts1.len() > 0) by {
                        if ts1.len() == 0 {
                            assert(rest_render == render_tail(ts1, 0));
                        }
                    }
                    if ts1[0] is ParenR {
                        assert(rest_render == render_tail(ts1, 0));
                        assert(render_tail(ts1, 0) == token_text(ts1[0]) + render_tail(ts1, 1));
                        assert(rest_render[0] == token_text(ts1[0])[0]);
                        assert(rest_render[0] == ')');
                    } else {
                        assert(rest_render == render_tail(ts1, 0));
                        assert(render_tail(ts1, 0) == seq![' '] + (token_text(ts1[0])
                            + render_tail(ts1, 1)));
                        assert(rest_render[0] == ' ');
                    }
                }
                lemma_lit_end_run(text, pos, pos2, false);
                assert(is_digit(text[pos]) || text[pos] == '.');
                lemma_rescan_tail(text, pos2, ts1, bal, true);
                assert(scan_rest(text, pos, bal, prev) == Ok::<Seq<TokenView>, ErrorView>(
                    seq![t0] + ts1,
                ));
            },
            TokenView::Operand(_) => {
                assert(false);
            },
            TokenView::Operator(op) => {
                assert(text[pos] == op_char(op));
                assert(op_fits(op, prev));
                lemma_rescan_tail(text, pos + 1, ts1, bal, false);
                assert(scan_rest(text, pos, bal, prev) == Ok::<Seq<TokenView>, ErrorView>(
                    seq![t0] + ts1,
                ));
            },
            TokenView::ParenL => {
                assert(text[pos] == '(');
                lemma_rescan_tail(text, pos + 1, ts1, bal + 1, false);
                assert(scan_rest(text, pos, bal, prev) == Ok::<Seq<TokenView>, ErrorView>(
                    seq![t0] + ts1,
                ));
            },
            TokenView::ParenR => {
                assert(text[pos] == ')');
                assert(bal >= 1);
                lemma_rescan_tail(text, pos + 1, ts1, bal - 1, true);
                assert(scan_rest(text, pos, bal, prev) == Ok::<Seq<TokenView>, ErrorView>(
                    seq![t0] + ts1,
                ));
            },
        }
    }
}

/// As `lemma_rescan`, for a resumption point: the remaining text is the
/// rendering of the remaining tokens each with its leading separator.
proof fn lemma_rescan_tail(text: Seq<char>, pos: int, ts: Seq<TokenView>, bal: int, prev: bool)
    requires
        0 <= pos <= text.len(),
        0 <= bal,
        valid_from(ts, bal, prev),
        text.subrange(pos, text.len() as int) == render_tail(ts, 0),
    ensures
        scan_rest(text, pos, bal, prev) == Ok::<Seq<TokenView>, ErrorView>(ts),
    decreases ts.len(), 1int,
{
    let tail = text.subrange(pos, text.len() as int);
    if ts.len() == 0 {
        assert(pos == text.len());
        assert(ts == Seq::<TokenView>::empty());
    } else if ts[0] is ParenR {
        assert(render_tail(ts, 0) == token_text(ts[0]) + render_tail(ts, 1));
        assert(tail =~= render(ts));
        lemma_rescan(text, pos, ts, bal, prev);
    } else {
        assert(render_tail(ts, 0) == seq![' '] + (token_text(ts[0]) + render_tail(ts, 1)));
        assert(tail == seq![' '] + render(ts));
        lemma_suffix_subrange(text, pos, seq![' '], render(ts));
        assert(text[pos + 0] == seq![' '][0]);
        assert(text[pos] == ' ');
        assert(scan_rest(text, pos, bal, prev) == scan_rest(text, pos + 1, bal, prev));
        lemma_rescan(text, pos + 1, ts, bal, prev);
    }
}

/// For every text that scans successfully, rendering the scanned token
/// sequence and scanning that rendered text yields exactly the same token
/// sequence: a successful `tokenize` followed by `lookup` round-trips.
pub proof fn lemma_render_roundtrip(text: Seq<char>, ts: Seq<TokenView>)
    requires
        scan(text) == Ok::<Seq<TokenView>, ErrorView>(ts),
    ensures
        scan(render(ts)) == Ok::<Seq<TokenView>, ErrorView>(ts),
{
    lemma_scan_valid(text, 0, 0, false, ts);
    let r = render(ts);
    assert(r.subrange(0, r.len() as int) =~= r);
    lemma_rescan(r, 0, ts, 0, false);
}

proof fn lemma_subst_from_no_bar(s: Seq<char>, i: int, names: Seq<Seq<char>>, vals: Seq<Seq<char>>)
    requires
        0 <= i <= s.len(),
        forall|k: int| 0 <= k < s.len() ==> s[k] != '|',
        forall|j: int, k: int| 0 <= j < vals.len() && 0 <= k < vals[j].len() ==> vals[j][k] != '|',
    ensures
        forall|k: int|
            0 <= k < subst_from(s, i, names, vals).len() ==> subst_from(s, i, names, vals)[k]
                != '|',
    decreases s.len() - i,
{
    if i >= s.len() {
    } else if is_alpha(s[i]) {
        let e = alpha_run_end(s, i);
        lemma_alpha_run_end_bounds(s, i + 1);
        assert(alpha_run_end(s, i) == alpha_run_end(s, i + 1));
        lemma_subst_from_no_bar(s, e, names, vals);
        let run = s.subrange(i, e);
        let j = first_index_of(names, run);
        lemma_first_index_of(names, run);
        let piece = if j < names.len() && j < vals.len() {
            vals[j]
        } else {
            run
        };
        let rest = subst_from(s, e, names, vals);
        assert(subst_from(s, i, names, vals) == piece + rest);
        assert forall|k: int| 0 <= k < (piece + rest).len() implies (piece + rest)[k] != '|' by {
            if k < piece.len() {
                if j < names.len() && j < vals.len() {
                    assert(piece[k] == vals[j][k]);
                    assert(vals[j][k] != '|');
                } else {
                    assert(piece[k] == run[k]);
                    assert(run[k] == s[i + k]);
                    assert(s[i + k] != '|');
                }
            } else {
                assert((piece + rest)[k] == rest[k - piece.len()]);
                assert(subst_from(s, e, names, vals)[k - piece.len()] != '|');
            }
        }
    } else {
        lemma_subst_from_no_bar(s, i + 1, names, vals);
        let rest = subst_from(s, i + 1, names, vals);
        assert(subst_from(s, i, names, vals) == seq![s[i]] + rest);
        assert forall|k: int| 0 <= k < (seq![s[i]] + rest).len() implies (seq![s[i]] + rest)[k]
            != '|' by {
            if k >= 1 {
                assert((seq![s[i]] + rest)[k] == rest[k - 1]);
            }
        }
    }
}

/// What substitution leaves behind never holds a `|` separator: the
/// expression part stops at the first separator, and every substituted
/// value text is a plain decimal. So, together with
/// `lemma_second_tokenize_fails`: after any `tokenize` call that
/// succeeded, a second call on the same expression fails with
/// `InvalidEOF(0)`.
pub proof fn lemma_tokenize_twice(raw: Seq<char>)
    requires
        tokenize_result(raw, false) is Ok,
    ensures
        tokenize_result(raw_after(raw), true) == Err::<Seq<TokenView>, ErrorView>(
            ErrorView::InvalidEOF(0),
        ),
{
    let b = crate::num::find_char_from(raw, '|', 0);
    crate::num::lemma_find_char_from(raw, '|', 0);
    match subst_result(raw) {
        Err(_) => {
            assert(false);
        },
        Ok(t) => {
            assert(raw_after(raw) == t);
            if b >= raw.len() {
                assert(t == raw);
                assert forall|i: int| 0 <= i < t.len() implies t[i] != '|' by {
                    if t[i] == '|' {
                        assert(raw[i] == '|');
                    }
                }
            } else {
                let ep = trimmed(raw.subrange(0, b));
                let vp = raw.subrange(b + 1, raw.len() as int);
                let names = dedup_names(names_from(ep, 0));
                let toks = ws_tokens_from(vp, 0);
                let vals = canon_all(toks);
                assert forall|k: int| 0 <= k < ep.len() implies ep[k] != '|' by {
                    let pre = raw.subrange(0, b);
                    let a0 = trim_start(pre, 0);
                    let b0 = trim_end(pre, pre.len() as int);
                    lemma_trim_start_bounds(pre, 0);
                    lemma_trim_end_bounds(pre, pre.len() as int);
                    if a0 <= b0 {
                        assert(ep == pre.subrange(a0, b0));
                        assert(ep[k] == pre[a0 + k]);
                        assert(pre[a0 + k] == raw[a0 + k]);
                        assert(raw[a0 + k] != '|');
                    } else {
                        assert(ep.len() == 0);
                    }
                }
                assert forall|j: int, k: int|
                    0 <= j < vals.len() && 0 <= k < vals[j].len() implies vals[j][k] != '|' by {
                    assert(!(crate::num::canon_value(toks[j]) is None));
                    match crate::num::canon_value(toks[j]) {
                        Some(tj) => {
                            crate::num::lemma_canon_no_bar(toks[j], tj);
                            assert(vals[j] == tj);
                        },
                        None => {
                            assert(false);
                        },
                    }
                }
                lemma_subst_from_no_bar(ep, 0, names, vals);
            }
            lemma_second_tokenize_fails(t);
        },
    }
}

proof fn lemma_trim_start_bounds(s: Seq<char>, pos: int)
    requires
        0 <= pos <= s.len(),
    ensures
        pos <= trim_start(s, pos) <= s.len(),
    decreases s.len() - pos,
{
    if pos < s.len() && is_ws(s[pos]) {
        lemma_trim_start_bounds(s, pos + 1);
    }
}

proof fn lemma_trim_end_bounds(s: Seq<char>, e: int)
    requires
        0 <= e <= s.len(),
    ensures
        0 <= trim_end(s, e) <= e,
    decreases e,
{
    if 0 < e && is_ws(s[e - 1]) {
        lemma_trim_end_bounds(s, e - 1);
    }
}

/// A token the scanner can have produced: a well-formed number literal, an
/// operator, or a parenthesis.
pub open spec fn token_ok(t: TokenView) -> bool {
    match t {
        TokenView::Operand(OperandView::Number(lit)) => wf_lit(lit),
        TokenView::Operand(_) => false,
        _ => true,
    }
}

proof fn lemma_valid_elements(ts: Seq<TokenView>, bal: int, prev: bool)
    requires
        valid_from(ts, bal, prev),
    ensures
        forall|i: int| 0 <= i < ts.len() ==> token_ok(#[trigger] ts[i]),
    decreases ts.len(),
{
    if ts.len() > 0 {
        match ts[0] {
            TokenView::Operand(OperandView::Number(_)) => {
                lemma_valid_elements(ts.drop_first(), bal, true);
            },
            TokenView::Operand(_) => {
                assert(false);
            },
            TokenView::Operator(_) => {
                lemma_valid_elements(ts.drop_first(), bal, false);
            },
            TokenView::ParenL => {
                lemma_valid_elements(ts.drop_first(), bal + 1, false);
            },
            TokenView::ParenR => {
                lemma_valid_elements(ts.drop_first(), bal - 1, true);
            },
        }
        assert forall|i: int| 0 <= i < ts.len() implies token_ok(#[trigger] ts[i]) by {
            if i >= 1 {
                assert(ts[i] == ts.drop_first()[i - 1]);
                assert(token_ok(ts.drop_first()[i - 1]));
            }
        }
    }
}

proof fn lemma_token_text_no_bar(t: TokenView)
    requires
        token_ok(t),
    ensures
        forall|k: int| 0 <= k < token_text(t).len() ==> token_text(t)[k] != '|',
{
    match t {
        TokenView::Operand(OperandView::Number(lit)) => {
            assert forall|k: int| 0 <= k < lit.len() implies lit[k] != '|' by {
                assert(is_digit(lit[k]) || lit[k] == '.');
            }
        },
        _ => {},
    }
}

proof fn lemma_render_tail_no_bar(ts: Seq<TokenView>, i: int)
    requires
        0 <= i,
        forall|j: int| 0 <= j < ts.len() ==> token_ok(#[trigger] ts[j]),
    ensures
        forall|k: int|
            0 <= k < render_tail(ts, i).len() ==> #[trigger] render_tail(ts, i)[k] != '|',
    decreases ts.len() - i,
{
    if i < ts.len() {
        lemma_render_tail_no_bar(ts, i + 1);
        lemma_token_text_no_bar(ts[i]);
        let sep: Seq<char> = if ts[i] is ParenR {
            Seq::empty()
        } else {
            seq![' ']
        };
        let txt = token_text(ts[i]);
        let rest = render_tail(ts, i + 1);
        assert(render_tail(ts, i) == sep + txt + rest);
        assert forall|k: int|
            0 <= k < render_tail(ts, i).len() implies #[trigger] render_tail(ts, i)[k] != '|' by {
            if k < sep.len() {
                assert(render_tail(ts, i)[k] == ' ');
            } else if k < sep.len() + txt.len() {
                assert(render_tail(ts, i)[k] == txt[k - sep.len()]);
            } else {
                assert(render_tail(ts, i)[k] == rest[k - sep.len() - txt.len()]);
            }
        }
    }
}

/// The rendered text of a scanner-produced token sequence holds no `|`
/// separator.
pub proof fn lemma_render_no_bar(ts: Seq<TokenView>, bal: int, prev: bool)
    requires
        valid_from(ts, bal, prev),
    ensures
        forall|k: int| 0 <= k < render(ts).len() ==> render(ts)[k] != '|',
{
    lemma_valid_elements(ts, bal, prev);
    if ts.len() > 0 {
        lemma_token_text_no_bar(ts[0]);
        lemma_render_tail_no_bar(ts, 1);
        let txt = token_text(ts[0]);
        let rest = render_tail(ts, 1);
        assert(render(ts) == txt + rest);
        assert forall|k: int| 0 <= k < render(ts).len() implies render(ts)[k] != '|' by {
            if k < txt.len() {
                assert(render(ts)[k] == txt[k]);
            } else {
                assert(render(ts)[k] == rest[k - txt.len()]);
            }
        }
    }
}

/// The round trip at the level of whole `tokenize` calls: whenever a first
/// `tokenize` succeeds with some token sequence, tokenizing that
/// sequence's rendered text (the `lookup` output) on a fresh expression
/// succeeds and yields exactly the same token sequence.
pub proof fn lemma_tokenize_roundtrip(raw: Seq<char>, ts: Seq<TokenView>)
    requires
        tokenize_result(raw, false) == Ok::<Seq<TokenView>, ErrorView>(ts),
    ensures
        tokenize_result(render(ts), false) == Ok::<Seq<TokenView>, ErrorView>(ts),
{
    match subst_result(raw) {
        Err(_) => {
            assert(false);
        },
        Ok(t) => {
            lemma_scan_valid(t, 0, 0, false, ts);
            lemma_render_no_bar(ts, 0, false);
            let r = render(ts);
            crate::num::lemma_find_char_from(r, '|', 0);
            if crate::num::find_char_from(r, '|', 0) < r.len() {
                assert(r[crate::num::find_char_from(r, '|', 0)] == '|');
                assert(false);
            }
            assert(subst_result(r) == Ok::<Seq<char>, ErrorView>(r));
            lemma_render_roundtrip(t, ts);
        },
    }
}

fn op_symbol(op: &Operator) -> (c: char)
    ensures
        c == op_char(*op),
{
    match op {
        Operator::Plus | Operator::Uplus => '+',
        Operator::Minus | Operator::Uminus => '-',
        Operator::Multiply => '*',
        Operator::Divide => '/',
        Operator::Power => '^',
        Operator::Modulus => '%',
    }
}

fn append_token(out: &mut String, t: &Token)
    ensures
        final(out)@ == old(out)@ + token_text(t@),
{
    let ghost pre = out@;
    match t {
        Token::Operand(Operand::Number(s)) => out.append(s.as_str()),
        Token::Operand(Operand::Variable(s)) => out.append(s.as_str()),
        Token::Operand(Operand::Function(_)) => {
            push_char(out, 'f');
            push_char(out, 'u');
            push_char(out, 'n');
            push_char(out, 'c');
            proof {
                assert(out@ =~= pre + seq!['f', 'u', 'n', 'c']);
            }
        },
        Token::Operator(op) => {
            push_char(out, op_symbol(op));
            proof {
                assert(out@ =~= pre + seq![op_char(*op)]);
            }
        },
        Token::ParenL => {
            push_char(out, '(');
            proof {
                assert(out@ =~= pre + seq!['(']);
            }
        },
        Token::ParenR => {
            push_char(out, ')');
            proof {
                assert(out@ =~= pre + seq![')']);
            }
        },
    }
}

impl Expression {
    /// A fresh expression holding a copy of the text, not yet tokenized.
    pub fn new(raw: &str) -> (e: Expression)
        ensures
            e.raw@ == raw@,
            e.structurized is None,
    {
        Expression { raw: raw.to_owned(), structurized: None }
    }

    /// The substitution step: where the text holds a `|` separator, bind
    /// the variable names before it to the values after it and replace
    /// them in the text, as `subst_result` says.
    fn replace_variables(&mut self) -> (r: Result<(), Error>)
        ensures
            final(self).structurized == old(self).structurized,
            match subst_result(old(self).raw@) {
                Ok(t) => r is Ok && final(self).raw@ == t,
                Err(ev) => (r matches Err(e) && e@ == ev) && final(self).raw@ == old(self).raw@,
            },
    {
        let len = self.raw.as_str().unicode_len();
        let b = find_bar(self.raw.as_str());
        proof {
            crate::num::lemma_find_char_from(self.raw@, '|', 0);
        }
        if b >= len {
            return Ok(());
        }
        let ep = trim_str(self.raw.as_str().substring_char(0, b));
        let vp = String::from_str(self.raw.as_str().substring_char(b + 1, len));
        let names_all = collect_names(ep.as_str());
        let names = dedup_strs(&names_all);
        let toks = split_ws_str(vp.as_str());
        let vals = match canon_values(&toks) {
            Ok(vs) => vs,
            Err(e) => {
                return Err(e);
            },
        };
        let out = build_subst(ep.as_str(), &names, &vals);
        self.raw = out;
        Ok(())
    }

    /// Run substitution, then scan the substituted text into the token
    /// sequence, exactly as `tokenize_result` says of the prior state.
    /// Tokenizing an already tokenized expression fails with
    /// `InvalidEOF(0)`; every scanning error is reported as it stands and
    /// leaves the token sequence unset.
    pub fn tokenize(&mut self) -> (r: Result<(), Error>)
        ensures
            final(self).raw@ == raw_after(old(self).raw@),
            match tokenize_result(old(self).raw@, old(self).structurized is Some) {
                Ok(tvs) => r is Ok && (final(self).structurized matches Some(ts) && views_of(ts@)
                    == tvs),
                Err(ev) => (r matches Err(e) && e@ == ev) && final(self).structurized == old(
                    self,
                ).structurized,
            },
    {
        match self.replace_variables() {
            Ok(()) => {},
            Err(e) => {
                return Err(e);
            },
        }
        if self.structurized.is_some() {
            return Err(Error::InvalidEOF(0));
        }
        match scan_text(self.raw.as_str()) {
            Ok(ts) => {
                self.structurized = Some(ts);
                Ok(())
            },
            Err(e) => Err(e),
        }
    }

    /// The rendered text of the token sequence: tokens separated by one
    /// space, except that no space precedes a right parenthesis.
    pub fn lookup(&self) -> (r: String)
        requires
            self.structurized is Some,
        ensures
            self.structurized matches Some(ts) ==> r@ == render(views_of(ts@)),
    {
        let ts = self.structurized.as_ref().unwrap();
        let ghost tsv = views_of(ts@);
        let mut out = String::new();
        let mut i: usize = 0;
        while i < ts.len()
            invariant
                tsv == views_of(ts@),
                i <= ts@.len(),
                i == 0 ==> out@ == Seq::<char>::empty(),
                i > 0 ==> render(tsv) == out@ + render_tail(tsv, i as int),
            decreases ts@.len() - i,
        {
            let ghost pre = out@;
            if i > 0 {
                let sep = match &ts[i] {
                    Token::ParenR => false,
                    _ => true,
                };
                if sep {
                    push_char(&mut out, ' ');
                }
            }
            append_token(&mut out, &ts[i]);
            proof {
                assert(tsv[i as int] == ts@[i as int]@);
                if i == 0 {
                    assert(out@ =~= token_text(tsv[0]));
                } else {
                    let sep_seq: Seq<char> = if tsv[i as int] is ParenR {
                        Seq::empty()
                    } else {
                        seq![' ']
                    };
                    assert(out@ =~= pre + sep_seq + token_text(tsv[i as int]));
                    assert(pre + (sep_seq + token_text(tsv[i as int]) + render_tail(
                        tsv,
                        i as int + 1,
                    )) =~= out@ + render_tail(tsv, i as int + 1));
                }
            }
            i = i + 1;
        }
        proof {
            if tsv.len() > 0 {
                assert(out@ + Seq::<char>::empty() =~= out@);
            }
        }
        out
    }
}

} // verus!
