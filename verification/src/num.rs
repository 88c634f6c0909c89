//! Numeric value texts for variable substitution: a value given after the
//! `|` separator must be a plain signed decimal literal, and is rewritten
//! into its canonical decimal text (no `+` sign, no superfluous zeros, no
//! trailing decimal point) before it is substituted into the expression.

use vstd::prelude::*;
use vstd::string::StrSliceExecFns;

use crate::expr::has_digit;
use crate::expr::is_digit;
use crate::expr::push_char;

verus! {

/// The first index at or after `i` holding `c`, or the length of `s`.
pub open spec fn find_char_from(s: Seq<char>, c: char, i: int) -> int
    decreases s.len() - i,
{
    if i < 0 || i >= s.len() {
        s.len() as int
    } else if s[i] == c {
        i
    } else {
        find_char_from(s, c, i + 1)
    }
}

pub proof fn lemma_find_char_from(s: Seq<char>, c: char, i: int)
    requires
        0 <= i <= s.len(),
    ensures
        i <= find_char_from(s, c, i) <= s.len(),
        find_char_from(s, c, i) < s.len() ==> s[find_char_from(s, c, i)] == c,
        forall|k: int| i <= k < find_char_from(s, c, i) ==> s[k] != c,
    decreases s.len() - i,
{
    if i < s.len() && s[i] != c {
        lemma_find_char_from(s, c, i + 1);
    }
}

/// The value text without its optional leading sign.
pub open spec fn strip_sign(s: Seq<char>) -> Seq<char> {
    if s.len() > 0 && (s[0] == '+' || s[0] == '-') {
        s.drop_first()
    } else {
        s
    }
}

/// How many characters of `s` from `i` on are decimal points.
pub open spec fn num_dots_from(s: Seq<char>, i: int) -> int
    decreases s.len() - i,
{
    if i < 0 || i >= s.len() {
        0
    } else {
        (if s[i] == '.' {
            1int
        } else {
            0int
        }) + num_dots_from(s, i + 1)
    }
}

/// Whether some character of `s` from `i` on is a digit.
pub open spec fn has_digit_from(s: Seq<char>, i: int) -> bool
    decreases s.len() - i,
{
    if i < 0 || i >= s.len() {
        false
    } else {
        is_digit(s[i]) || has_digit_from(s, i + 1)
    }
}

pub proof fn lemma_has_digit_from(s: Seq<char>, i: int)
    requires
        0 <= i <= s.len(),
    ensures
        has_digit_from(s, i) <==> exists|k: int| i <= k < s.len() && is_digit(s[k]),
    decreases s.len() - i,
{
    if i < s.len() {
        lemma_has_digit_from(s, i + 1);
        if is_digit(s[i]) {
            assert(i <= i < s.len() && is_digit(s[i]));
        }
    }
}

/// Whether every character of `s` is a digit or a decimal point.
pub open spec fn all_digit_or_dot(s: Seq<char>) -> bool {
    forall|i: int| 0 <= i < s.len() ==> is_digit(s[i]) || s[i] == '.'
}

/// A valid value text: an optional sign, then digits and at most one
/// decimal point, with at least one digit.
pub open spec fn valid_value_text(s: Seq<char>) -> bool {
    let b = strip_sign(s);
    b.len() > 0 && all_digit_or_dot(b) && num_dots_from(b, 0) <= 1 && has_digit(b)
}

/// The first index at or after `i` in `s` holding something other than `'0'`.
pub open spec fn nz_start(s: Seq<char>, i: int) -> int
    decreases s.len() - i,
{
    if i < 0 || i >= s.len() {
        s.len() as int
    } else if s[i] == '0' {
        nz_start(s, i + 1)
    } else {
        i
    }
}

/// One past the last index before `e` in `s` holding something other than
/// `'0'`, or zero.
pub open spec fn nz_end(s: Seq<char>, e: int) -> int
    decreases e,
{
    if e <= 0 || e > s.len() {
        0
    } else if s[e - 1] == '0' {
        nz_end(s, e - 1)
    } else {
        e
    }
}

/// The canonical decimal text of a value text: `None` where the text is
/// not a plain signed decimal literal; otherwise the sign (kept only when
/// negative), the integer part without leading zeros (at least one digit),
/// and the fraction part without trailing zeros (dropped entirely when
/// empty).
pub open spec fn canon_value(s: Seq<char>) -> Option<Seq<char>> {
    if !valid_value_text(s) {
        None
    } else {
        let neg = s.len() > 0 && s[0] == '-';
        let b = strip_sign(s);
        let d = find_char_from(b, '.', 0);
        let ip = b.subrange(0, d);
        let fp = if d < b.len() {
            b.subrange(d + 1, b.len() as int)
        } else {
            Seq::empty()
        };
        let a = nz_start(ip, 0);
        let ipc = if a >= ip.len() {
            seq!['0']
        } else {
            ip.subrange(a, ip.len() as int)
        };
        let e = nz_end(fp, fp.len() as int);
        let fpc = fp.subrange(0, e);
        Some(
            (if neg {
                seq!['-']
            } else {
                Seq::empty()
            }) + ipc + (if fpc.len() > 0 {
                seq!['.'] + fpc
            } else {
                Seq::empty()
            }),
        )
    }
}

/// A canonical value text is made of a sign, digits and a decimal point
/// alone; in particular it never holds a `|` separator.
pub proof fn lemma_canon_no_bar(v: Seq<char>, t: Seq<char>)
    requires
        canon_value(v) == Some(t),
    ensures
        forall|i: int| 0 <= i < t.len() ==> t[i] != '|',
{
    let neg = v.len() > 0 && v[0] == '-';
    let b = strip_sign(v);
    let d = find_char_from(b, '.', 0);
    let ip = b.subrange(0, d);
    let fp = if d < b.len() {
        b.subrange(d + 1, b.len() as int)
    } else {
        Seq::<char>::empty()
    };
    let a = nz_start(ip, 0);
    let ipc = if a >= ip.len() {
        seq!['0']
    } else {
        ip.subrange(a, ip.len() as int)
    };
    let e = nz_end(fp, fp.len() as int);
    let fpc = fp.subrange(0, e);
    let sgn: Seq<char> = if neg {
        seq!['-']
    } else {
        Seq::empty()
    };
    let frac: Seq<char> = if fpc.len() > 0 {
        seq!['.'] + fpc
    } else {
        Seq::empty()
    };
    lemma_find_char_from(b, '.', 0);
    lemma_nz_start_bounds(ip, 0);
    lemma_nz_end_bounds(fp, fp.len() as int);
    assert(t == sgn + ipc + frac);
    assert forall|i: int| 0 <= i < t.len() implies t[i] != '|' by {
        if i < sgn.len() {
            assert(t[i] == '-');
        } else if i < sgn.len() + ipc.len() {
            assert(t[i] == ipc[i - sgn.len()]);
            if a >= ip.len() {
                assert(t[i] == '0');
            } else {
                assert(ipc[i - sgn.len()] == ip[a + (i - sgn.len())]);
                assert(ip[a + (i - sgn.len())] == b[a + (i - sgn.len())]);
            }
        } else {
            let j = i - sgn.len() - ipc.len();
            assert(t[i] == frac[j]);
            if j == 0 {
                assert(frac[0] == '.');
            } else {
                assert(frac[j] == fpc[j - 1]);
                assert(fpc[j - 1] == fp[j - 1]);
                assert(fp[j - 1] == b[d + 1 + (j - 1)]);
            }
        }
    }
}

proof fn lemma_nz_start_bounds(s: Seq<char>, i: int)
    requires
        0 <= i <= s.len(),
    ensures
        i <= nz_start(s, i) <= s.len(),
    decreases s.len() - i,
{
    if i < s.len() && s[i] == '0' {
        lemma_nz_start_bounds(s, i + 1);
    }
}

proof fn lemma_nz_end_bounds(s: Seq<char>, e: int)
    requires
        0 <= e <= s.len(),
    ensures
        0 <= nz_end(s, e) <= e,
    decreases e,
{
    if 0 < e && s[e - 1] == '0' {
        lemma_nz_end_bounds(s, e - 1);
    }
}

/// The executable canonicalizer; its result is exactly what `canon_value`
/// says.
#[verifier::rlimit(60)]
pub(crate) fn canon_value_text(v: &str) -> (r: Option<String>)
    ensures
        match r {
            Some(t) => canon_value(v@) == Some(t@),
            None => canon_value(v@) is None,
        },
{
    let vlen = v.unicode_len();
    let neg = vlen > 0 && v.get_char(0) == '-';
    let so: usize = if vlen > 0 && (v.get_char(0) == '+' || v.get_char(0) == '-') {
        1
    } else {
        0
    };
    let b = v.substring_char(so, vlen);
    let blen = vlen - so;
    proof {
        assert(b@ =~= strip_sign(v@));
        assert(b@.len() == blen);
    }
    if blen == 0 {
        return None;
    }
    // One pass over the body: everything must be a digit or a dot, with at
    // most one dot and at least one digit.
    let mut j: usize = 0;
    let mut dots: usize = 0;
    let mut dig = false;
    while j < blen
        invariant
            blen == b@.len(),
            b@ == strip_sign(v@),
            j <= blen,
            dots <= j,
            forall|k: int| 0 <= k < j ==> is_digit(b@[k]) || b@[k] == '.',
            num_dots_from(b@, 0) == dots + num_dots_from(b@, j as int),
            has_digit_from(b@, 0) == (dig || has_digit_from(b@, j as int)),
        decreases blen - j,
    {
        let c = b.get_char(j);
        if c == '.' {
            dots = dots + 1;
        } else if crate::expr::digit_char(c) {
            dig = true;
        } else {
            proof {
                assert(!(is_digit(b@[j as int]) || b@[j as int] == '.'));
                assert(!all_digit_or_dot(b@));
                assert(!valid_value_text(v@));
            }
            return None;
        }
        j = j + 1;
    }
    proof {
        lemma_has_digit_from(b@, 0);
    }
    if dots > 1 {
        return None;
    }
    if !dig {
        return None;
    }
    proof {
        assert(valid_value_text(v@));
    }
    // Find the dot, then strip leading zeros of the integer part and
    // trailing zeros of the fraction part.
    let mut d: usize = 0;
    while d < blen && b.get_char(d) != '.'
        invariant
            blen == b@.len(),
            d <= blen,
            find_char_from(b@, '.', 0) == find_char_from(b@, '.', d as int),
        decreases blen - d,
    {
        d = d + 1;
    }
    proof {
        assert(find_char_from(b@, '.', d as int) == d as int);
    }
    let ghost ip = b@.subrange(0, d as int);
    let mut a: usize = 0;
    while a < d && b.get_char(a) == '0'
        invariant
            blen == b@.len(),
            a <= d <= blen,
            ip == b@.subrange(0, d as int),
            nz_start(ip, 0) == nz_start(ip, a as int),
        decreases d - a,
    {
        a = a + 1;
    }
    proof {
        assert(nz_start(ip, a as int) == a as int);
    }
    let ghost fp = if (d as int) < b@.len() {
        b@.subrange(d as int + 1, b@.len() as int)
    } else {
        Seq::<char>::empty()
    };
    let mut e: usize = blen;
    if d < blen {
        while e > d + 1 && b.get_char(e - 1) == '0'
            invariant
                blen == b@.len(),
                d < blen,
                d + 1 <= e <= blen,
                fp == b@.subrange(d as int + 1, b@.len() as int),
                nz_end(fp, fp.len() as int) == nz_end(fp, e - d - 1),
            decreases e,
        {
            e = e - 1;
        }
        proof {
            assert(nz_end(fp, e - d - 1) == e - d - 1);
        }
    }
    let mut out = String::new();
    if neg {
        push_char(&mut out, '-');
    }
    if a >= d {
        push_char(&mut out, '0');
    } else {
        out.append(b.substring_char(a, d));
    }
    if d < blen && e > d + 1 {
        push_char(&mut out, '.');
        out.append(b.substring_char(d + 1, e));
    }
    proof {
        let ipc = if nz_start(ip, 0) >= ip.len() {
            seq!['0']
        } else {
            ip.subrange(nz_start(ip, 0), ip.len() as int)
        };
        let fpc = fp.subrange(0, nz_end(fp, fp.len() as int));
        if a < d {
            assert(b@.subrange(a as int, d as int) =~= ip.subrange(a as int, ip.len() as int));
        }
        if d < blen && e > d + 1 {
            assert(b@.subrange(d as int + 1, e as int) =~= fp.subrange(0, e - d - 1));
        }
        assert(out@ =~= (if neg {
            seq!['-']
        } else {
            Seq::<char>::empty()
        }) + ipc + (if fpc.len() > 0 {
            seq!['.'] + fpc
        } else {
            Seq::<char>::empty()
        }));
    }
    Some(out)
}

} // verus!
