//! The general laws of the library, each stated over the same spec
//! functions that the public contracts use.

use vstd::prelude::*;
use crate::grammar::{
    all_digits, bare_from_plain, cc_candidate, cc_length, digits_of, is_allowed_char,
    is_digit_char, is_sep_char, lemma_bare_digits, lemma_digits_of_all_digits,
    lemma_digits_of_concat, lemma_inline_code_digits, matches_bare, matches_e164, matches_with_cc,
    strip_plus, tail_groups,
};
use crate::table::{
    distinct_dials, entries_sorted, match_from, prefix_match, spec_longest_prefix, EntryModel,
};
use crate::text::is_prefix_of;
use crate::{spec_every3, spec_format};

verus! {

/// `s` with every occurrence of `sep` removed.
pub open spec fn remove_seps(s: Seq<char>, sep: char) -> Seq<char>
    decreases s.len(),
{
    if s.len() == 0 {
        Seq::empty()
    } else if s.last() == sep {
        remove_seps(s.drop_last(), sep)
    } else {
        remove_seps(s.drop_last(), sep).push(s.last())
    }
}

/// Removal distributes over concatenation.
pub proof fn lemma_remove_seps_concat(a: Seq<char>, b: Seq<char>, sep: char)
    ensures
        remove_seps(a + b, sep) == remove_seps(a, sep) + remove_seps(b, sep),
    decreases b.len(),
{
    if b.len() == 0 {
        assert(a + b =~= a);
        assert(remove_seps(a, sep) + remove_seps(b, sep) =~= remove_seps(a, sep));
    } else {
        lemma_remove_seps_concat(a, b.drop_last(), sep);
        assert((a + b).drop_last() =~= a + b.drop_last());
        assert((a + b).last() == b.last());
        if b.last() != sep {
            assert(remove_seps(a, sep) + remove_seps(b, sep) =~= (remove_seps(a, sep)
                + remove_seps(b.drop_last(), sep)).push(b.last()));
        }
    }
}

/// A string without the separator is left unchanged by removal.
pub proof fn lemma_remove_seps_absent(s: Seq<char>, sep: char)
    requires
        forall|i: int| 0 <= i < s.len() ==> #[trigger] s[i] != sep,
    ensures
        remove_seps(s, sep) == s,
    decreases s.len(),
{
    if s.len() > 0 {
        assert(forall|i: int|
            0 <= i < s.len() - 1 ==> #[trigger] s.drop_last()[i] == s[i]);
        lemma_remove_seps_absent(s.drop_last(), sep);
        assert(remove_seps(s, sep) =~= s);
    }
}

/// Stripping the separator from an every-third-digit rendering of the
/// first `i` characters gives those characters back.
proof fn lemma_every3_strip(s: Seq<char>, sep: char, i: int)
    requires
        all_digits(s),
        !is_digit_char(sep),
        0 <= i <= s.len(),
    ensures
        remove_seps(spec_every3(s, sep, i), sep) == s.take(i),
    decreases i,
{
    if i <= 0 {
        assert(spec_every3(s, sep, i) == Seq::<char>::empty());
        assert(remove_seps(spec_every3(s, sep, i), sep) =~= s.take(i));
    } else {
        lemma_every3_strip(s, sep, i - 1);
        let prior = spec_every3(s, sep, i - 1);
        if (i - 1) % 3 == 0 && i - 1 > 0 {
            lemma_remove_seps_concat(prior, seq![sep, s[i - 1]], sep);
            assert(remove_seps(seq![sep, s[i - 1]], sep) =~= seq![s[i - 1]]) by {
                assert(remove_seps(Seq::<char>::empty(), sep) == Seq::<char>::empty());
                assert(seq![sep].drop_last() =~= Seq::<char>::empty());
                assert(seq![sep].last() == sep);
                assert(remove_seps(seq![sep], sep) == Seq::<char>::empty());
                assert(seq![sep, s[i - 1]].drop_last() =~= seq![sep]);
                assert(seq![sep, s[i - 1]].last() == s[i - 1]);
                assert(s[i - 1] != sep);
            }
        } else {
            lemma_remove_seps_concat(prior, seq![s[i - 1]], sep);
            assert(remove_seps(seq![s[i - 1]], sep) =~= seq![s[i - 1]]) by {
                assert(remove_seps(Seq::<char>::empty(), sep) == Seq::<char>::empty());
                assert(seq![s[i - 1]].drop_last() =~= Seq::<char>::empty());
                assert(seq![s[i - 1]].last() == s[i - 1]);
                assert(s[i - 1] != sep);
            }
        }
        assert(remove_seps(spec_every3(s, sep, i), sep) =~= s.take(i));
    }
}

/// Formatting a digit string and stripping the separator again yields
/// exactly the original digits, whatever the length.
pub proof fn lemma_format_round_trip(s: Seq<char>, sep: char)
    requires
        all_digits(s),
        !is_digit_char(sep),
    ensures
        remove_seps(spec_format(s, sep), sep) == s,
{
    assert(forall|i: int| 0 <= i < s.len() ==> #[trigger] s[i] != sep);
    if s.len() < 4 {
        lemma_remove_seps_absent(s, sep);
    } else if s.len() == 10 {
        let a = s.subrange(0, 3);
        let b = s.subrange(3, 6);
        let c = s.subrange(6, 10);
        lemma_remove_seps_concat(a + seq![sep] + b + seq![sep], c, sep);
        lemma_remove_seps_concat(a + seq![sep] + b, seq![sep], sep);
        lemma_remove_seps_concat(a + seq![sep], b, sep);
        lemma_remove_seps_concat(a, seq![sep], sep);
        lemma_remove_seps_absent(a, sep);
        lemma_remove_seps_absent(b, sep);
        lemma_remove_seps_absent(c, sep);
        assert(remove_seps(seq![sep], sep) =~= Seq::<char>::empty()) by {
            assert(remove_seps(Seq::<char>::empty(), sep) == Seq::<char>::empty());
            assert(seq![sep].drop_last() =~= Seq::<char>::empty());
            assert(seq![sep].last() == sep);
        }
        assert(remove_seps(spec_format(s, sep), sep) =~= s);
    } else if s.len() == 11 {
        let a = s.subrange(0, 1);
        let b = s.subrange(1, 4);
        let c = s.subrange(4, 7);
        let d = s.subrange(7, 11);
        lemma_remove_seps_concat(a + seq![sep] + b + seq![sep] + c + seq![sep], d, sep);
        lemma_remove_seps_concat(a + seq![sep] + b + seq![sep] + c, seq![sep], sep);
        lemma_remove_seps_concat(a + seq![sep] + b + seq![sep], c, sep);
        lemma_remove_seps_concat(a + seq![sep] + b, seq![sep], sep);
        lemma_remove_seps_concat(a + seq![sep], b, sep);
        lemma_remove_seps_concat(a, seq![sep], sep);
        lemma_remove_seps_absent(a, sep);
        lemma_remove_seps_absent(b, sep);
        lemma_remove_seps_absent(c, sep);
        lemma_remove_seps_absent(d, sep);
        assert(remove_seps(seq![sep], sep) =~= Seq::<char>::empty()) by {
            assert(remove_seps(Seq::<char>::empty(), sep) == Seq::<char>::empty());
            assert(seq![sep].drop_last() =~= Seq::<char>::empty());
            assert(seq![sep].last() == sep);
        }
        assert(remove_seps(spec_format(s, sep), sep) =~= s);
    } else {
        lemma_every3_strip(s, sep, s.len() as int);
        assert(s.take(s.len() as int) =~= s);
    }
}

/// Dial codes never grow longer as the table order advances.
proof fn lemma_sorted_len_mono(ms: Seq<EntryModel>, i: int, j: int)
    requires
        entries_sorted(ms),
        0 <= i <= j < ms.len(),
    ensures
        ms[i].dial.len() >= ms[j].dial.len(),
    decreases j - i,
{
    if i < j {
        lemma_sorted_len_mono(ms, i + 1, j);
    }
}

/// A scan that passes only non-matching entries stops at the first
/// matching one.
proof fn lemma_match_first(ms: Seq<EntryModel>, digits: Seq<char>, i: int, j: int)
    requires
        0 <= i <= j < ms.len(),
        (forall|x: int| i <= x < j ==> !prefix_match(ms, x, digits)),
        prefix_match(ms, j, digits),
    ensures
        match_from(ms, digits, i) == Some(j),
    decreases j - i,
{
    if i < j {
        lemma_match_first(ms, digits, i + 1, j);
    }
}

/// Two prefixes of the same length are the same sequence.
proof fn lemma_prefix_unique(p: Seq<char>, q: Seq<char>, s: Seq<char>)
    requires
        is_prefix_of(p, s),
        is_prefix_of(q, s),
        p.len() == q.len(),
    ensures
        p == q,
{
    assert(p =~= q) by {
        assert(forall|x: int| 0 <= x < p.len() ==> #[trigger] p[x] == s[x]);
        assert(forall|x: int| 0 <= x < q.len() ==> #[trigger] q[x] == s[x]);
    }
}

/// The greedy longest-prefix law: for a dial code `d` at position `j` of
/// a well-formed table and any national number `n` of at least four
/// characters, the scan of `d + n` picks exactly entry `j`, provided no
/// longer dial code of the table also matches `d + n` with a remainder of
/// at least four characters.
pub proof fn lemma_longest_code_wins(ms: Seq<EntryModel>, j: int, n: Seq<char>)
    requires
        entries_sorted(ms),
        distinct_dials(ms),
        0 <= j < ms.len(),
        n.len() >= 4,
        (forall|i: int|
            0 <= i < ms.len() && (#[trigger] ms[i].dial).len() > ms[j].dial.len()
                ==> !prefix_match(ms, i, ms[j].dial + n)),
    ensures
        spec_longest_prefix(ms, ms[j].dial + n) == Some(j),
{
    let d = ms[j].dial;
    let digits = d + n;
    assert(prefix_match(ms, j, digits)) by {
        assert(digits.subrange(0, d.len() as int) =~= d);
    }
    assert forall|x: int| 0 <= x < j implies !prefix_match(ms, x, digits) by {
        lemma_sorted_len_mono(ms, x, j);
        if prefix_match(ms, x, digits) {
            if ms[x].dial.len() == d.len() {
                lemma_prefix_unique(ms[x].dial, d, digits);
            }
        }
    }
    lemma_match_first(ms, digits, 0, j);
}

/// A strict E.164 failure: any string that lacks the leading `+` or
/// carries a non-digit after it is rejected by the E.164 grammar (and so
/// resolved to the E.164 format error).
pub proof fn lemma_not_e164_rejected(s: Seq<char>)
    requires
        s.len() == 0 || s[0] != '+' || (exists|i: int|
            1 <= i < s.len() && !is_digit_char(#[trigger] s[i])),
    ensures
        !matches_e164(s),
{
    if s.len() > 0 && s[0] == '+' && matches_e164(s) {
        let i = choose|i: int| 1 <= i < s.len() && !is_digit_char(#[trigger] s[i]);
        assert(s.skip(1)[i - 1] == s[i]);
    }
}

/// Any string holding a letter or unsupported punctuation matches
/// neither the bare shape nor the inline-country-code shape, so both
/// resolvers reject it.
pub proof fn lemma_foreign_char_rejected(s: Seq<char>, i: int)
    requires
        0 <= i < s.len(),
        !is_allowed_char(s[i]),
    ensures
        !matches_bare(s),
        !matches_with_cc(s),
{
    if matches_bare(s) {
        lemma_bare_digits(s);
    }
    if matches_with_cc(s) {
        let k = choose|k: int| cc_candidate(strip_plus(s), k);
        lemma_inline_code_digits(s, k);
    }
}

/// A scan that stops at `j` passed no matching entry before `j`.
proof fn lemma_match_none_before(ms: Seq<EntryModel>, digits: Seq<char>, i: int, j: int, x: int)
    requires
        0 <= i <= x < j,
        match_from(ms, digits, i) == Some(j),
    ensures
        !prefix_match(ms, x, digits),
    decreases x - i,
{
    if i < ms.len() && !prefix_match(ms, i, digits) {
        if i < x {
            lemma_match_none_before(ms, digits, i + 1, j, x);
        }
    }
}

/// The other half of the greedy law: whatever entry the scan of a
/// well-formed table picks, no matching dial code in the table is longer
/// than the picked one — a longer matching code always wins.
pub proof fn lemma_match_is_longest(ms: Seq<EntryModel>, digits: Seq<char>, j: int)
    requires
        entries_sorted(ms),
        spec_longest_prefix(ms, digits) == Some(j),
    ensures
        0 <= j < ms.len(),
        prefix_match(ms, j, digits),
        (forall|i: int|
            0 <= i < ms.len() && prefix_match(ms, i, digits) ==> (#[trigger] ms[i].dial).len()
                <= ms[j].dial.len()),
{
    crate::table::lemma_match_found(ms, digits, 0, j);
    assert forall|i: int|
        0 <= i < ms.len() && prefix_match(ms, i, digits) implies (#[trigger] ms[i].dial).len()
        <= ms[j].dial.len() by {
        if i < j {
            lemma_match_none_before(ms, digits, 0, j, i);
        } else {
            lemma_sorted_len_mono(ms, j, i);
        }
    }
}

/// An all-digit string of length `2 * n` to `4 * n` splits into `n`
/// groups of two to four digits.
proof fn lemma_digit_groups(u: Seq<char>, n: int)
    requires
        all_digits(u),
        1 <= n <= 3,
        2 * n <= u.len() <= 4 * n,
    ensures
        tail_groups(u, n),
    decreases n,
{
    if n == 1 {
        assert(tail_groups(u, 1)) by {
            assert(u.subrange(0, u.len() as int) =~= u);
            assert(u.skip(0 + u.len() as int).len() == 0);
            assert(tail_groups(u.skip(0 + u.len() as int), 0));
        }
    } else {
        let g: int = if u.len() - 2 * (n - 1) <= 4 {
            u.len() - 2 * (n - 1)
        } else {
            4
        };
        assert(2 <= g <= 4);
        assert(forall|x: int|
            0 <= x < u.skip(g).len() ==> #[trigger] u.skip(g)[x] == u[g + x]);
        lemma_digit_groups(u.skip(g), n - 1);
        assert(tail_groups(u, n)) by {
            assert(all_digits(u.subrange(0, 0 + g)));
            assert(u.skip(0 + g) == u.skip(g));
            assert(tail_groups(u.skip(0 + g), n - 1));
        }
    }
}

/// Round trip of a bare number: an all-digit string of four to twelve
/// characters (the canonical display string of a phone without a country
/// code) is itself recognized as a bare national number and resolves to
/// exactly the same digits.
pub proof fn lemma_digits_match_bare(u: Seq<char>)
    requires
        all_digits(u),
        4 <= u.len() <= 12,
    ensures
        matches_bare(u),
        digits_of(u) == u,
{
    lemma_digits_of_all_digits(u);
    let n: int = if u.len() <= 8 {
        2
    } else {
        3
    };
    let g: int = if u.len() - 2 * (n - 1) <= 4 {
        u.len() - 2 * (n - 1)
    } else {
        4
    };
    assert(2 <= g <= 4);
    assert(forall|x: int| 0 <= x < u.skip(g).len() ==> #[trigger] u.skip(g)[x] == u[g + x]);
    lemma_digit_groups(u.skip(g), n - 1);
    assert(bare_from_plain(u, g)) by {
        assert(all_digits(u.take(g)));
        assert(1 <= n - 1 <= 2 && tail_groups(u.skip(g), n - 1));
    }
}

/// Round trip through the canonical display string `+<code>-<number>`:
/// the inline-country-code recognizer accepts it, commits to exactly the
/// original code, and recovers exactly the original national number.
pub proof fn lemma_display_round_trip_with_code(c: Seq<char>, nn: Seq<char>)
    requires
        all_digits(c),
        1 <= c.len() <= 3,
        c[0] != '0',
        all_digits(nn),
        4 <= nn.len() <= 12,
    ensures
        ({
            let s = seq!['+'] + c + seq!['-'] + nn;
            let t = strip_plus(s);
            &&& matches_with_cc(s)
            &&& cc_length(t) == c.len()
            &&& t.take(cc_length(t)) == c
            &&& digits_of(t.skip(cc_length(t))) == nn
        }),
{
    let s = seq!['+'] + c + seq!['-'] + nn;
    let t = strip_plus(s);
    let clen = c.len() as int;
    assert(t =~= c + seq!['-'] + nn);
    assert(forall|x: int| 0 <= x < clen ==> #[trigger] t[x] == c[x]);
    assert(t[clen] == '-');
    assert(forall|x: int| 0 <= x < nn.len() ==> #[trigger] t[clen + 1 + x] == nn[x]);
    let u = t.skip(clen);
    assert(u[0] == '-');
    assert(u.skip(1) =~= nn);
    lemma_digits_match_bare(nn);
    assert(cc_candidate(t, clen)) by {
        assert(all_digits(t.take(clen))) by {
            assert(forall|x: int| 0 <= x < clen ==> #[trigger] t.take(clen)[x] == c[x]);
        }
        assert(is_sep_char(u[0]));
        assert(matches_bare(u.skip(1)));
    }
    assert forall|k: int| clen < k <= 3 implies !cc_candidate(t, k) by {
        if k <= t.len() && all_digits(t.take(k)) {
            assert(t.take(k)[clen] == '-');
        }
    }
    assert(cc_length(t) == clen);
    assert(t.take(clen) =~= c);
    lemma_digits_of_concat(u.subrange(0, 1), u.skip(1));
    assert(u =~= u.subrange(0, 1) + u.skip(1));
    assert(digits_of(u.subrange(0, 1)).len() == 0) by {
        assert(digits_of(Seq::<char>::empty()) == Seq::<char>::empty());
        assert(u.subrange(0, 1).drop_last() =~= Seq::<char>::empty());
        assert(u.subrange(0, 1).last() == u[0]);
    }
    assert(digits_of(u) =~= nn);
}

} // verus!
