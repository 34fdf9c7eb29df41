//! Structural recognizers for the three phone-number shapes.
//!
//! A phone number text is made of groups of decimal digits, optionally
//! separated by a space, a hyphen or a dot, with the first group optionally
//! wrapped in parentheses.  Three shapes are recognized:
//!
//! * *bare*: two to three digit groups of 2-4 digits each, no country code;
//! * *with country code*: an optional `+`, a 1-3 digit country code whose
//!   first digit is not `0`, then the same grouped body as *bare*;
//! * *strict E.164*: `+` followed by 1 to 15 digits and nothing else.
//!
//! Recognition is purely structural: no country-code table is consulted.

use vstd::prelude::*;

verus! {

/// A decimal digit character.
pub open spec fn is_digit_char(c: char) -> bool {
    '0' <= c && c <= '9'
}

/// A group separator: space, hyphen or dot.
pub open spec fn is_sep_char(c: char) -> bool {
    c == ' ' || c == '-' || c == '.'
}

/// Every character of `s` is a decimal digit.
pub open spec fn all_digits(s: Seq<char>) -> bool {
    forall|i: int| 0 <= i < s.len() ==> is_digit_char(#[trigger] s[i])
}

/// The subsequence of decimal digit characters of `s`, in order.
pub open spec fn digits_of(s: Seq<char>) -> Seq<char>
    decreases s.len(),
{
    if s.len() == 0 {
        Seq::empty()
    } else if is_digit_char(s.last()) {
        digits_of(s.drop_last()).push(s.last())
    } else {
        digits_of(s.drop_last())
    }
}

/// `s` with one leading `+` removed, if present.
pub open spec fn strip_plus(s: Seq<char>) -> Seq<char> {
    if s.len() > 0 && s[0] == '+' {
        s.skip(1)
    } else {
        s
    }
}

/// `s` consists of exactly `n` further digit groups of 2-4 digits each,
/// each group preceded by an optional single separator.
pub open spec fn tail_groups(s: Seq<char>, n: int) -> bool
    decreases n,
{
    if n <= 0 {
        s.len() == 0
    } else {
        exists|d: int, g: int|
            (d == 0 || d == 1) && 2 <= g <= 4 && d + g <= s.len() && (d == 1 ==> is_sep_char(
                s[0],
            )) && all_digits(#[trigger] s.subrange(d, d + g)) && tail_groups(s.skip(d + g), n - 1)
    }
}

/// `s` starts with a plain (unparenthesized) first group of `g` digits,
/// followed by one or two further groups: 2-3 groups in all.
pub open spec fn bare_from_plain(s: Seq<char>, g: int) -> bool {
    g <= s.len() && all_digits(s.take(g)) && exists|n: int| 1 <= n <= 2 && #[trigger] tail_groups(s.skip(g), n)
}

/// `s` starts with a parenthesized first group of `g` digits, followed by
/// one or two further groups: 2-3 groups in all.
pub open spec fn bare_from_paren(s: Seq<char>, g: int) -> bool {
    g + 2 <= s.len() && s[0] == '(' && all_digits(s.subrange(1, 1 + g)) && s[g + 1] == ')'
        && exists|n: int| 1 <= n <= 2 && #[trigger] tail_groups(s.skip(g + 2), n)
}

/// `s` is a bare national number: 2-3 digit groups of 2-4 digits each,
/// optional single separators between groups, the first group optionally
/// wrapped in parentheses, and no leading `+`.
pub open spec fn matches_bare(s: Seq<char>) -> bool {
    exists|g: int| 2 <= g <= 4 && (bare_from_plain(s, g) || bare_from_paren(s, g))
}

/// After the country-code digits: an optional single separator, then a
/// bare grouped body.
pub open spec fn body_after_cc(u: Seq<char>) -> bool {
    matches_bare(u) || (u.len() > 0 && is_sep_char(u[0]) && matches_bare(u.skip(1)))
}

/// With the optional `+` already stripped, `t` starts with a `k`-digit
/// country code (first digit not `0`) followed by a bare grouped body.
pub open spec fn cc_candidate(t: Seq<char>, k: int) -> bool {
    1 <= k <= 3 && k <= t.len() && t[0] != '0' && all_digits(t.take(k)) && body_after_cc(t.skip(k))
}

/// `s` is a number with an inline country code: an optional `+`, a 1-3
/// digit country code whose first digit is not `0`, then a bare body.
pub open spec fn matches_with_cc(s: Seq<char>) -> bool {
    exists|k: int| cc_candidate(strip_plus(s), k)
}

/// The country-code length the recognizer commits to: the longest
/// workable one, as a greedy match would pick.  Meaningful only when
/// `matches_with_cc` holds of the unstripped input.
pub open spec fn cc_length(t: Seq<char>) -> int {
    if cc_candidate(t, 3) {
        3
    } else if cc_candidate(t, 2) {
        2
    } else {
        1
    }
}

/// `s` is a strict E.164 string: `+` then 1-15 digits and nothing else.
pub open spec fn matches_e164(s: Seq<char>) -> bool {
    2 <= s.len() <= 16 && s[0] == '+' && all_digits(s.skip(1))
}

/// Checks that the characters of `s` at positions `[from, to)` are all
/// decimal digits.
pub(crate) fn digits_in_range(s: &str, from: usize, to: usize) -> (b: bool)
    requires
        from <= to <= s@.len(),
    ensures
        b == all_digits(s@.subrange(from as int, to as int)),
{
    let mut i: usize = from;
    while i < to
        invariant
            from <= i <= to <= s@.len(),
            forall|j: int| from <= j < i ==> is_digit_char(#[trigger] s@[j]),
        decreases to - i,
    {
        let c = s.get_char(i);
        if !('0' <= c && c <= '9') {
            assert(!all_digits(s@.subrange(from as int, to as int))) by {
                assert(s@.subrange(from as int, to as int)[i - from] == s@[i as int]);
            }
            return false;
        }
        i = i + 1;
    }
    assert forall|k: int| 0 <= k < to - from implies is_digit_char(
        #[trigger] s@.subrange(from as int, to as int)[k],
    ) by {
        assert(s@.subrange(from as int, to as int)[k] == s@[from + k]);
    }
    true
}

/// Checks whether the character at position `i` is a separator.
fn sep_at(s: &str, i: usize) -> (b: bool)
    requires
        i < s@.len(),
    ensures
        b == is_sep_char(s@[i as int]),
{
    let c = s.get_char(i);
    c == ' ' || c == '-' || c == '.'
}

/// Decides one `(d, g)` branch of `tail_groups` on the suffix of `s` that
/// starts at `i`: an optional separator (`d == 1`), a `g`-digit group, and
/// `n - 1` further groups.
fn seg_ok(s: &str, len: usize, i: usize, d: usize, g: usize, n: u8) -> (b: bool)
    requires
        len == s@.len(),
        i <= len,
        d <= 1,
        2 <= g <= 4,
        1 <= n <= 3,
    ensures
        b == ({
            let sfx = s@.skip(i as int);
            d + g <= sfx.len() && (d == 1 ==> is_sep_char(sfx[0])) && all_digits(
                sfx.subrange(d as int, d + g),
            ) && tail_groups(sfx.skip(d + g), n - 1)
        }),
    decreases n, 0int,
{
    let ghost sfx = s@.skip(i as int);
    if len - i < d + g {
        return false;
    }
    if d == 1 && !sep_at(s, i) {
        assert(sfx[0] == s@[i as int]);
        return false;
    }
    assert(d == 1 ==> is_sep_char(sfx[0])) by {
        if d == 1 {
            assert(sfx[0] == s@[i as int]);
        }
    }
    let lo = i + d;
    let hi = i + d + g;
    assert(sfx.subrange(d as int, d + g) =~= s@.subrange(lo as int, hi as int));
    if !digits_in_range(s, lo, hi) {
        return false;
    }
    assert(sfx.skip(d + g) =~= s@.skip(hi as int));
    check_tail_groups(s, len, hi, n - 1)
}

/// Decides `tail_groups` on the suffix of `s` that starts at `i`.
pub(crate) fn check_tail_groups(s: &str, len: usize, i: usize, n: u8) -> (b: bool)
    requires
        len == s@.len(),
        i <= len,
        n <= 2,
    ensures
        b == tail_groups(s@.skip(i as int), n as int),
    decreases n, 1int,
{
    let ghost sfx = s@.skip(i as int);
    if n == 0 {
        return i == len;
    }
    let b02 = seg_ok(s, len, i, 0, 2, n);
    let b03 = seg_ok(s, len, i, 0, 3, n);
    let b04 = seg_ok(s, len, i, 0, 4, n);
    let b12 = seg_ok(s, len, i, 1, 2, n);
    let b13 = seg_ok(s, len, i, 1, 3, n);
    let b14 = seg_ok(s, len, i, 1, 4, n);
    let r = b02 || b03 || b04 || b12 || b13 || b14;
    proof {
        if r {
            assert(tail_groups(sfx, n as int));
        } else {
            if tail_groups(sfx, n as int) {
                let (d, g): (int, int) = choose|d: int, g: int|
                    (d == 0 || d == 1) && 2 <= g <= 4 && d + g <= sfx.len() && (d == 1
                        ==> is_sep_char(sfx[0])) && all_digits(
                        #[trigger] sfx.subrange(d, d + g),
                    ) && tail_groups(sfx.skip(d + g), n - 1);
                assert(false);
            }
        }
    }
    r
}

/// Decides `matches_bare` on the suffix of `s` that starts at `i`.
pub(crate) fn check_bare_from(s: &str, len: usize, i: usize) -> (b: bool)
    requires
        len == s@.len(),
        i <= len,
    ensures
        b == matches_bare(s@.skip(i as int)),
{
    let ghost sfx = s@.skip(i as int);
    let mut r = false;
    let mut g: usize = 2;
    while g <= 4
        invariant
            2 <= g <= 5,
            len == s@.len(),
            i <= len,
            sfx == s@.skip(i as int),
            r == exists|g2: int|
                2 <= g2 < g && (bare_from_plain(sfx, g2) || bare_from_paren(sfx, g2)),
        decreases 5 - g,
    {
        let mut plain = false;
        // plain first group of g digits
        if len - i >= g && digits_in_range(s, i, i + g) {
            assert(sfx.take(g as int) =~= s@.subrange(i as int, (i + g) as int));
            assert(sfx.skip(g as int) =~= s@.skip((i + g) as int));
            if check_tail_groups(s, len, i + g, 1) || check_tail_groups(s, len, i + g, 2) {
                plain = true;
            }
        }
        assert(plain == bare_from_plain(sfx, g as int)) by {
            if plain {
                assert(bare_from_plain(sfx, g as int));
            } else if bare_from_plain(sfx, g as int) {
                assert(sfx.take(g as int) =~= s@.subrange(i as int, (i + g) as int));
                assert(sfx.skip(g as int) =~= s@.skip((i + g) as int));
                let n = choose|n: int| 1 <= n <= 2 && #[trigger] tail_groups(sfx.skip(g as int), n);
                assert(false);
            }
        }
        let mut paren = false;
        // parenthesized first group of g digits
        if len - i >= g + 2 && s.get_char(i) == '(' && s.get_char(i + g + 1) == ')'
            && digits_in_range(s, i + 1, i + 1 + g) {
            assert(sfx.subrange(1, 1 + g as int) =~= s@.subrange((i + 1) as int, (i + 1 + g) as int));
            assert(sfx.skip(g as int + 2) =~= s@.skip((i + g + 2) as int));
            assert(sfx[0] == s@[i as int] && sfx[g as int + 1] == s@[(i + g + 1) as int]);
            if check_tail_groups(s, len, i + g + 2, 1) || check_tail_groups(s, len, i + g + 2, 2) {
                paren = true;
            }
        }
        assert(paren == bare_from_paren(sfx, g as int)) by {
            if paren {
                assert(bare_from_paren(sfx, g as int));
            } else if bare_from_paren(sfx, g as int) {
                assert(sfx[0] == s@[i as int] && sfx[g as int + 1] == s@[(i + g + 1) as int]);
                assert(sfx.subrange(1, 1 + g as int) =~= s@.subrange(
                    (i + 1) as int,
                    (i + 1 + g) as int,
                ));
                assert(sfx.skip(g as int + 2) =~= s@.skip((i + g + 2) as int));
                let n = choose|n: int| 1 <= n <= 2 && #[trigger] tail_groups(sfx.skip(g as int + 2), n);
                assert(false);
            }
        }
        r = r || plain || paren;
        g = g + 1;
    }
    r
}


/// A character a bare national number may contain.
pub open spec fn is_bare_char(c: char) -> bool {
    is_digit_char(c) || is_sep_char(c) || c == '(' || c == ')'
}

/// A character any recognized shape may contain.
pub open spec fn is_allowed_char(c: char) -> bool {
    is_bare_char(c) || c == '+'
}

/// Splitting a concatenation: the digits of `a + b` are the digits of `a`
/// followed by the digits of `b`.
pub proof fn lemma_digits_of_concat(a: Seq<char>, b: Seq<char>)
    ensures
        digits_of(a + b) == digits_of(a) + digits_of(b),
    decreases b.len(),
{
    if b.len() == 0 {
        assert(a + b =~= a);
        assert(digits_of(a) + digits_of(b) =~= digits_of(a));
    } else {
        lemma_digits_of_concat(a, b.drop_last());
        assert((a + b).drop_last() =~= a + b.drop_last());
        assert((a + b).last() == b.last());
        if is_digit_char(b.last()) {
            assert(digits_of(a) + digits_of(b) =~= (digits_of(a) + digits_of(
                b.drop_last(),
            )).push(b.last()));
        }
    }
}

/// A string of digits is its own digit subsequence.
pub proof fn lemma_digits_of_all_digits(s: Seq<char>)
    requires
        all_digits(s),
    ensures
        digits_of(s) == s,
    decreases s.len(),
{
    if s.len() > 0 {
        assert(all_digits(s.drop_last())) by {
            assert(forall|i: int|
                0 <= i < s.len() - 1 ==> #[trigger] s.drop_last()[i] == s[i]);
        }
        lemma_digits_of_all_digits(s.drop_last());
        assert(digits_of(s) =~= s);
    }
}

/// The digit subsequence consists of digits and is no longer than the
/// string itself.
pub proof fn lemma_digits_of_digits(s: Seq<char>)
    ensures
        all_digits(digits_of(s)),
        digits_of(s).len() <= s.len(),
    decreases s.len(),
{
    if s.len() > 0 {
        lemma_digits_of_digits(s.drop_last());
    }
}

/// A tail of `n` groups contributes at least `2 * n` digits, and all its
/// characters are digits or separators.
pub proof fn lemma_tail_groups_digits(s: Seq<char>, n: int)
    requires
        tail_groups(s, n),
        n >= 0,
    ensures
        digits_of(s).len() >= 2 * n,
        forall|i: int| 0 <= i < s.len() ==> is_digit_char(#[trigger] s[i]) || is_sep_char(s[i]),
    decreases n,
{
    if n <= 0 {
    } else {
        let (d, g): (int, int) = choose|d: int, g: int|
            (d == 0 || d == 1) && 2 <= g <= 4 && d + g <= s.len() && (d == 1 ==> is_sep_char(
                s[0],
            )) && all_digits(#[trigger] s.subrange(d, d + g)) && tail_groups(s.skip(d + g), n - 1);
        lemma_tail_groups_digits(s.skip(d + g), n - 1);
        let head = s.subrange(0, d + g);
        assert(s =~= head + s.skip(d + g));
        lemma_digits_of_concat(head, s.skip(d + g));
        let sep_part = s.subrange(0, d);
        let dig_part = s.subrange(d, d + g);
        assert(head =~= sep_part + dig_part);
        lemma_digits_of_concat(sep_part, dig_part);
        lemma_digits_of_all_digits(dig_part);
        lemma_digits_of_digits(sep_part);
        assert(digits_of(head).len() >= g);
        assert forall|i: int| 0 <= i < s.len() implies is_digit_char(#[trigger] s[i])
            || is_sep_char(s[i]) by {
            if i < d {
                assert(s[i] == s[0]);
            } else if i < d + g {
                assert(dig_part[i - d] == s[i]);
            } else {
                assert(s.skip(d + g)[i - (d + g)] == s[i]);
            }
        }
    }
}


/// A bare match yields at least four digits, and every character of a
/// bare match is a digit, a separator or a parenthesis.
pub proof fn lemma_bare_digits(s: Seq<char>)
    requires
        matches_bare(s),
    ensures
        digits_of(s).len() >= 4,
        forall|i: int| 0 <= i < s.len() ==> is_bare_char(#[trigger] s[i]),
    decreases s.len(),
{
    let g = choose|g: int| 2 <= g <= 4 && (bare_from_plain(s, g) || bare_from_paren(s, g));
    if bare_from_plain(s, g) {
        let n = choose|n: int| 1 <= n <= 2 && #[trigger] tail_groups(s.skip(g), n);
        lemma_tail_groups_digits(s.skip(g), n);
        assert(s =~= s.take(g) + s.skip(g));
        lemma_digits_of_concat(s.take(g), s.skip(g));
        lemma_digits_of_all_digits(s.take(g));
        assert forall|i: int| 0 <= i < s.len() implies is_bare_char(#[trigger] s[i]) by {
            if i < g {
                assert(s.take(g)[i] == s[i]);
            } else {
                assert(s.skip(g)[i - g] == s[i]);
            }
        }
    } else {
        let n = choose|n: int| 1 <= n <= 2 && #[trigger] tail_groups(s.skip(g + 2), n);
        lemma_tail_groups_digits(s.skip(g + 2), n);
        let dig_part = s.subrange(1, 1 + g);
        assert(s =~= s.subrange(0, 1) + dig_part + s.subrange(1 + g, 2 + g) + s.skip(g + 2));
        lemma_digits_of_concat(s.subrange(0, 1) + dig_part + s.subrange(1 + g, 2 + g), s.skip(g + 2));
        lemma_digits_of_concat(s.subrange(0, 1) + dig_part, s.subrange(1 + g, 2 + g));
        lemma_digits_of_concat(s.subrange(0, 1), dig_part);
        lemma_digits_of_all_digits(dig_part);
        lemma_digits_of_digits(s.subrange(0, 1));
        lemma_digits_of_digits(s.subrange(1 + g, 2 + g));
        assert(digits_of(s.subrange(0, 1)).len() == 0) by {
            assert(digits_of(Seq::<char>::empty()) == Seq::<char>::empty());
            assert(s.subrange(0, 1).drop_last() =~= Seq::<char>::empty());
            assert(s.subrange(0, 1).last() == s[0]);
        }
        assert(digits_of(s.subrange(1 + g, 2 + g)).len() == 0) by {
            assert(digits_of(Seq::<char>::empty()) == Seq::<char>::empty());
            assert(s.subrange(1 + g, 2 + g).drop_last() =~= Seq::<char>::empty());
            assert(s.subrange(1 + g, 2 + g).last() == s[g + 1]);
        }
        assert forall|i: int| 0 <= i < s.len() implies is_bare_char(#[trigger] s[i]) by {
            if i == 0 {
            } else if i < 1 + g {
                assert(dig_part[i - 1] == s[i]);
            } else if i == 1 + g {
            } else {
                assert(s.skip(g + 2)[i - (g + 2)] == s[i]);
            }
        }
    }
}







/// A match with an inline country code yields at least four digits after
/// the code, and every character of such a match is allowed.
pub proof fn lemma_inline_code_digits(s: Seq<char>, k: int)
    requires
        cc_candidate(strip_plus(s), k),
    ensures
        digits_of(strip_plus(s).skip(k)).len() >= 4,
        (forall|i: int| 0 <= i < s.len() ==> is_allowed_char(#[trigger] s[i])),
{
    let t = strip_plus(s);
    let u = t.skip(k);
    if matches_bare(u) {
        lemma_bare_digits(u);
    } else {
        assert(u.len() > 0 && is_sep_char(u[0]) && matches_bare(u.skip(1)));
        lemma_bare_digits(u.skip(1));
        assert(u =~= u.subrange(0, 1) + u.skip(1));
        lemma_digits_of_concat(u.subrange(0, 1), u.skip(1));
        assert(digits_of(u.subrange(0, 1)).len() == 0) by {
            assert(digits_of(Seq::<char>::empty()) == Seq::<char>::empty());
            assert(u.subrange(0, 1).drop_last() =~= Seq::<char>::empty());
            assert(u.subrange(0, 1).last() == u[0]);
        }
    }
    assert forall|j: int| 0 <= j < u.len() implies is_allowed_char(#[trigger] u[j]) by {
        if !matches_bare(u) && j >= 1 {
            assert(u.skip(1)[j - 1] == u[j]);
        }
    }
    assert forall|j: int| 0 <= j < t.len() implies is_allowed_char(#[trigger] t[j]) by {
        if j < k {
            assert(t.take(k)[j] == t[j]);
        } else {
            assert(u[j - k] == t[j]);
        }
    }
    assert forall|i: int| 0 <= i < s.len() implies is_allowed_char(#[trigger] s[i]) by {
        if s.len() > 0 && s[0] == '+' {
            if i >= 1 {
                assert(s.skip(1)[i - 1] == s[i]);
            }
        } else {
            assert(t[i] == s[i]);
        }
    }
}

} // verus!
