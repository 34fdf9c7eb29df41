//! Phone number parsing, validation and formatting.
//!
//! A phone number is recognized in one of three textual shapes (a bare
//! national number, a number with an inline country code, or a strict
//! E.164 string), decomposed into an optional country calling code and a
//! national subscriber number, and re-serialized with a caller-chosen
//! separator.

use vstd::prelude::*;

pub mod data;
pub mod grammar;
pub mod laws;
pub mod table;
pub mod text;

use crate::data::spec_standard_table;
use crate::grammar::{
    all_digits, cc_candidate, cc_length, digits_of, lemma_bare_digits,
    lemma_digits_of_digits, lemma_inline_code_digits, matches_bare, matches_e164, matches_with_cc,
    strip_plus,
};
use crate::table::{
    lemma_match_found, spec_longest_prefix, spec_lookup, CountryCodeTable, CountryInfo,
};
use crate::text::{collect_digits, copy_range, push_char};

verus! {

/// Why a string was rejected.
#[derive(Debug, Copy, Clone, PartialEq, Eq, Structural)]
pub enum Error {
    /// The string is not a phone number with a country code.
    InvalidPhoneNumberWithCountryCode,
    /// The string matches no recognized phone number shape, or an E.164
    /// string carries no known dial code.
    InvalidPhoneNumber,
    /// The string is not in strict E.164 format.
    NotE164Format,
}

impl Error {
    /// A short human-readable description of the error.
    pub fn message(&self) -> (m: &'static str)
        ensures
            self is InvalidPhoneNumberWithCountryCode ==> m@ == "Invalid phone with country code"@,
            self is InvalidPhoneNumber ==> m@ == "Invalid phone number"@,
            self is NotE164Format ==> m@ == "Not E.164 format"@,
    {
        match self {
            Error::InvalidPhoneNumberWithCountryCode => "Invalid phone with country code",
            Error::InvalidPhoneNumber => "Invalid phone number",
            Error::NotE164Format => "Not E.164 format",
        }
    }
}

/// A parsed phone number: an optional country calling code and a national
/// subscriber number of at least four decimal digits.
#[derive(Debug, Clone, PartialEq, Eq)]
pub struct Phone {
    country_code: Option<String>,
    number: String,
}

/// The canonical display form: `+<code>-<number>` when a country code is
/// present, the bare number otherwise.
pub open spec fn spec_display(cc: Option<Seq<char>>, number: Seq<char>) -> Seq<char> {
    match cc {
        Some(c) => seq!['+'] + c + seq!['-'] + number,
        None => number,
    }
}

/// `number` rendered with `sep` inserted after every third digit from the
/// left, looking only at the first `i` characters.
pub open spec fn spec_every3(s: Seq<char>, sep: char, i: int) -> Seq<char>
    decreases i,
{
    if i <= 0 {
        Seq::empty()
    } else if (i - 1) % 3 == 0 && i - 1 > 0 {
        spec_every3(s, sep, i - 1) + seq![sep, s[i - 1]]
    } else {
        spec_every3(s, sep, i - 1) + seq![s[i - 1]]
    }
}

/// The formatted rendering of a national number: `3-3-4` groups for ten
/// digits, `1-3-3-4` for eleven, a separator after every third digit for
/// other lengths of at least four, and the number unchanged below four.
pub open spec fn spec_format(s: Seq<char>, sep: char) -> Seq<char> {
    if s.len() < 4 {
        s
    } else if s.len() == 10 {
        s.subrange(0, 3) + seq![sep] + s.subrange(3, 6) + seq![sep] + s.subrange(6, 10)
    } else if s.len() == 11 {
        s.subrange(0, 1) + seq![sep] + s.subrange(1, 4) + seq![sep] + s.subrange(4, 7)
            + seq![sep] + s.subrange(7, 11)
    } else {
        spec_every3(s, sep, s.len() as int)
    }
}

impl Phone {
    /// The country calling code as a mathematical value.
    pub closed spec fn spec_country_code(self) -> Option<Seq<char>> {
        match self.country_code {
            Some(c) => Some(c@),
            None => None,
        }
    }

    /// The national number as a mathematical value.
    pub closed spec fn spec_number(self) -> Seq<char> {
        self.number@
    }

    /// The structural invariant: the national number is all digits, at
    /// least four of them, and a country code, when present, is all
    /// digits.
    pub open spec fn wf(self) -> bool {
        &&& all_digits(self.spec_number())
        &&& self.spec_number().len() >= 4
        &&& match self.spec_country_code() {
            Some(c) => all_digits(c),
            None => true,
        }
    }

    /// The country calling code, if one was recognized.
    pub fn country_code(&self) -> (r: Option<&str>)
        ensures
            (r matches Some(c) ==> self.spec_country_code() == Some(c@)),
            (r is None <==> self.spec_country_code() is None),
    {
        match &self.country_code {
            Some(c) => Some(c.as_str()),
            None => None,
        }
    }

    /// The national subscriber number.
    pub fn number(&self) -> (r: &str)
        ensures
            r@ == self.spec_number(),
    {
        self.number.as_str()
    }

    /// Parses a bare national number: 2-3 digit groups of 2-4 digits
    /// each, optionally separated by a space, hyphen or dot, the first
    /// group optionally parenthesized.
    pub fn build_without_country_code(input: &str) -> (r: Result<Phone, Error>)
        ensures
            matches_bare(input@) ==> (r matches Ok(p) && p.wf() && p.spec_country_code() is None
                && p.spec_number() == digits_of(input@)),
            !matches_bare(input@) ==> r == Err::<Phone, Error>(Error::InvalidPhoneNumber),
    {
        let len = input.unicode_len();
        if grammar::check_bare_from(input, len, 0) {
            proof {
                assert(input@.skip(0) =~= input@);
                lemma_bare_digits(input@);
                lemma_digits_of_digits(input@);
            }
            let number = collect_digits(input, 0, len);
            Ok(Phone { country_code: None, number })
        } else {
            assert(input@.skip(0) =~= input@);
            Err(Error::InvalidPhoneNumber)
        }
    }

    /// Parses a number with an inline country code: an optional `+`, a
    /// 1-3 digit code whose first digit is not `0` (the longest workable
    /// code is chosen), then a bare grouped body.
    pub fn build_with_country_code(input: &str) -> (r: Result<Phone, Error>)
        ensures
            matches_with_cc(input@) ==> (r matches Ok(p) && p.wf() && ({
                let t = strip_plus(input@);
                let k = cc_length(t);
                &&& p.spec_country_code() == Some(t.take(k))
                &&& p.spec_number() == digits_of(t.skip(k))
            })),
            !matches_with_cc(input@) ==> r == Err::<Phone, Error>(Error::InvalidPhoneNumber),
    {
        let len = input.unicode_len();
        let plus: usize = if len > 0 && input.get_char(0) == '+' {
            1
        } else {
            0
        };
        let ghost t = strip_plus(input@);
        proof {
            assert(t =~= input@.skip(plus as int));
        }
        let k: usize = if Self::cc_ok(input, len, plus, 3) {
            3
        } else if Self::cc_ok(input, len, plus, 2) {
            2
        } else if Self::cc_ok(input, len, plus, 1) {
            1
        } else {
            proof {
                if matches_with_cc(input@) {
                    let kk = choose|kk: int| cc_candidate(strip_plus(input@), kk);
                    assert(1 <= kk <= 3);
                }
            }
            return Err(Error::InvalidPhoneNumber);
        };
        assert(cc_candidate(t, k as int) && k as int == cc_length(t));
        let code = copy_range(input, plus, plus + k);
        assert(code@ =~= t.take(k as int));
        let number = collect_digits(input, plus + k, len);
        assert(input@.skip((plus + k) as int) =~= t.skip(k as int));
        proof {
            lemma_inline_code_digits(input@, k as int);
            lemma_digits_of_digits(t.skip(k as int));
        }
        Ok(Phone { country_code: Some(code), number })
    }

    /// Decides whether a `k`-digit country code starting at `plus` is
    /// workable: digits with a non-zero first digit, followed by a bare
    /// grouped body.
    fn cc_ok(s: &str, len: usize, plus: usize, k: usize) -> (b: bool)
        requires
            len == s@.len(),
            plus <= len,
            1 <= k <= 3,
        ensures
            b == cc_candidate(s@.skip(plus as int), k as int),
    {
        let ghost t = s@.skip(plus as int);
        if len - plus < k {
            return false;
        }
        let first = s.get_char(plus);
        assert(t[0] == s@[plus as int]);
        if first == '0' {
            return false;
        }
        assert(t.take(k as int) =~= s@.subrange(plus as int, (plus + k) as int));
        if !grammar::digits_in_range(s, plus, plus + k) {
            return false;
        }
        let i = plus + k;
        let ghost u = t.skip(k as int);
        proof {
            assert(u =~= s@.skip(i as int));
        }
        let bare_direct = grammar::check_bare_from(s, len, i);
        let mut bare_after_sep = false;
        if i < len {
            if Self::sep_here(s, i) {
                bare_after_sep = grammar::check_bare_from(s, len, i + 1);
            }
        }
        let r = bare_direct || bare_after_sep;
        proof {
            if i < len {
                assert(u[0] == s@[i as int]);
                assert(u.skip(1) =~= s@.skip((i + 1) as int));
            } else {
                assert(u.len() == 0);
            }
        }
        r
    }

    /// Checks whether the character at position `i` is a group separator.
    fn sep_here(s: &str, i: usize) -> (b: bool)
        requires
            i < s@.len(),
        ensures
            b == grammar::is_sep_char(s@[i as int]),
    {
        let c = s.get_char(i);
        c == ' ' || c == '-' || c == '.'
    }

    /// Parses a phone number, trying the inline-country-code shape first
    /// and falling back to the bare shape.
    pub fn build(phone: &str) -> (r: Result<Phone, Error>)
        ensures
            matches_with_cc(phone@) ==> (r matches Ok(p) && p.wf() && ({
                let t = strip_plus(phone@);
                let k = cc_length(t);
                &&& p.spec_country_code() == Some(t.take(k))
                &&& p.spec_number() == digits_of(t.skip(k))
            })),
            !matches_with_cc(phone@) && matches_bare(phone@) ==> (r matches Ok(p) && p.wf()
                && p.spec_country_code() is None && p.spec_number() == digits_of(phone@)),
            !matches_with_cc(phone@) && !matches_bare(phone@) ==> r == Err::<Phone, Error>(
                Error::InvalidPhoneNumber,
            ),
    {
        match Phone::build_with_country_code(phone) {
            Ok(p) => Ok(p),
            Err(_) => Phone::build_without_country_code(phone),
        }
    }

    /// Renders the national number with the given separator: `3-3-4`
    /// groups for ten digits, `1-3-3-4` for eleven, a separator after
    /// every third digit for other lengths, unchanged below four digits.
    pub fn number_with_separator(&self, separator: char) -> (r: String)
        ensures
            r@ == spec_format(self.spec_number(), separator),
    {
        let number = self.number.as_str();
        let len = number.unicode_len();
        if len < 4 {
            let r = copy_range(number, 0, len);
            assert(number@.subrange(0, len as int) =~= number@);
            return r;
        }
        match len {
            10 => self.ten_digits_with_separator(separator),
            11 => self.eleven_digits_with_separator(separator),
            _ => {
                let mut r = String::new();
                let mut i: usize = 0;
                while i < len
                    invariant
                        0 <= i <= len == number@.len(),
                        number@ == self.number@,
                        r@ == spec_every3(number@, separator, i as int),
                    decreases len - i,
                {
                    if i > 0 && i % 3 == 0 {
                        push_char(&mut r, separator);
                    }
                    let c = number.get_char(i);
                    push_char(&mut r, c);
                    assert(r@ =~= spec_every3(number@, separator, i + 1));
                    i = i + 1;
                }
                r
            },
        }
    }

    /// Renders a ten-digit number as three groups of 3, 3 and 4 digits.
    fn ten_digits_with_separator(&self, separator: char) -> (r: String)
        requires
            self.number@.len() == 10,
        ensures
            r@ == spec_format(self.spec_number(), separator),
    {
        let number = self.number.as_str();
        let mut r = copy_range(number, 0, 3);
        push_char(&mut r, separator);
        let mid = copy_range(number, 3, 6);
        r.append(mid.as_str());
        push_char(&mut r, separator);
        let tail = copy_range(number, 6, 10);
        r.append(tail.as_str());
        assert(r@ =~= spec_format(self.number@, separator));
        r
    }

    /// Renders an eleven-digit number as four groups of 1, 3, 3 and 4
    /// digits.
    fn eleven_digits_with_separator(&self, separator: char) -> (r: String)
        requires
            self.number@.len() == 11,
        ensures
            r@ == spec_format(self.spec_number(), separator),
    {
        let number = self.number.as_str();
        let mut r = copy_range(number, 0, 1);
        push_char(&mut r, separator);
        let a = copy_range(number, 1, 4);
        r.append(a.as_str());
        push_char(&mut r, separator);
        let b = copy_range(number, 4, 7);
        r.append(b.as_str());
        push_char(&mut r, separator);
        let c = copy_range(number, 7, 11);
        r.append(c.as_str());
        assert(r@ =~= spec_format(self.number@, separator));
        r
    }

    /// Resolves a strict E.164 string: `+`, then 1-15 digits.  The digit
    /// payload is split by the longest dial code in the standard table
    /// that is a prefix of it and leaves at least four digits.
    pub fn from_e_164(s: &str) -> (r: Result<Phone, Error>)
        ensures
            !matches_e164(s@) ==> r == Err::<Phone, Error>(Error::NotE164Format),
            matches_e164(s@) ==> (match spec_longest_prefix(spec_standard_table(), s@.skip(1)) {
                Some(j) => r matches Ok(p) && p.wf() && p.spec_country_code() == Some(
                    spec_standard_table()[j].dial,
                ) && p.spec_number() == s@.skip(1).skip(
                    spec_standard_table()[j].dial.len() as int,
                ),
                None => r == Err::<Phone, Error>(Error::InvalidPhoneNumber),
            }),
    {
        let len = s.unicode_len();
        let shaped = if len < 2 || len > 16 {
            false
        } else if s.get_char(0) != '+' {
            false
        } else {
            let d = grammar::digits_in_range(s, 1, len);
            assert(s@.subrange(1, len as int) =~= s@.skip(1));
            d
        };
        if !shaped {
            return Err(Error::NotE164Format);
        }
        let ghost ms = spec_standard_table();
        let ghost payload_spec = s@.skip(1);
        let payload = copy_range(s, 1, len);
        assert(payload@ =~= payload_spec);
        let table = CountryCodeTable::standard();
        let found = table.longest_matching_prefix(payload.as_str());
        match found {
            Some(code) => {
                proof {
                    let j = spec_longest_prefix(ms, payload_spec).unwrap();
                    lemma_match_found(ms, payload_spec, 0, j);
                }
                let clen = code.as_str().unicode_len();
                let plen = payload.as_str().unicode_len();
                let number = copy_range(payload.as_str(), clen, plen);
                proof {
                    let j = spec_longest_prefix(ms, payload_spec).unwrap();
                    let dial = ms[j].dial;
                    assert(number@ =~= payload_spec.skip(dial.len() as int));
                    let dlen = dial.len() as int;
                    assert(all_digits(number@)) by {
                        assert(forall|x: int|
                            0 <= x < number@.len() ==> #[trigger] number@[x] == payload_spec[dlen + x]);
                    }
                    assert(all_digits(code@)) by {
                        assert(forall|x: int|
                            0 <= x < code@.len() ==> #[trigger] code@[x] == payload_spec.subrange(
                                0,
                                dial.len() as int,
                            )[x]);
                        assert(forall|x: int|
                            0 <= x < dial.len() ==> #[trigger] payload_spec.subrange(
                                0,
                                dial.len() as int,
                            )[x] == payload_spec[x]);
                    }
                }
                Ok(Phone { country_code: Some(code), number })
            },
            None => Err(Error::InvalidPhoneNumber),
        }
    }

    /// Looks the country code of this number up in the standard table.
    /// Absence is a normal outcome: an unknown or missing code yields
    /// `None`.
    pub fn country_info(&self) -> (r: Option<CountryInfo>)
        ensures
            (self.spec_country_code() matches Some(c) ==> (match spec_lookup(
                spec_standard_table(),
                c,
            ) {
                Some(m) => r matches Some(ci) && ci.name@ == m.name && ci.iso_code@ == m.iso,
                None => r is None,
            })),
            (self.spec_country_code() is None ==> r is None),
    {
        match &self.country_code {
            Some(code) => {
                let table = CountryCodeTable::standard();
                match table.lookup(code.as_str()) {
                    Some(e) => Some(
                        CountryInfo {
                            name: e.info.name.clone(),
                            iso_code: e.info.iso_code.clone(),
                        },
                    ),
                    None => None,
                }
            },
            None => None,
        }
    }

    /// The canonical display string: `+<code>-<number>` when a country
    /// code is present, the bare national number otherwise.
    pub fn to_display_string(&self) -> (r: String)
        ensures
            r@ == spec_display(self.spec_country_code(), self.spec_number()),
    {
        match &self.country_code {
            Some(code) => {
                let mut r = String::new();
                push_char(&mut r, '+');
                r.append(code.as_str());
                push_char(&mut r, '-');
                r.append(self.number.as_str());
                proof {
                    assert(r@ =~= seq!['+'] + code@ + seq!['-'] + self.number@);
                }
                r
            },
            None => {
                let r = self.number.clone();
                r
            },
        }
    }
}

impl core::str::FromStr for Phone {
    type Err = Error;

    /// Parses like `Phone::build`: inline country code first, bare next.
    fn from_str(s: &str) -> (r: Result<Phone, Error>) {
        Phone::build(s)
    }
}

/// Splits a digit string (with an optional leading `+`) into the longest
/// dial code of the standard table that prefixes it and the remaining
/// national number of at least four characters.
pub fn parse_e164(number: &str) -> (r: Option<(String, String)>)
    ensures
        (match spec_longest_prefix(spec_standard_table(), strip_plus(number@)) {
            Some(j) => r matches Some(pair) && pair.0@ == spec_standard_table()[j].dial
                && pair.1@ == strip_plus(number@).skip(
                spec_standard_table()[j].dial.len() as int,
            ),
            None => r is None,
        }),
{
    let ghost ms = spec_standard_table();
    let len = number.unicode_len();
    let plus: usize = if len > 0 && number.get_char(0) == '+' {
        1
    } else {
        0
    };
    let ghost u = strip_plus(number@);
    let payload = copy_range(number, plus, len);
    assert(payload@ =~= u);
    let table = CountryCodeTable::standard();
    let found = table.longest_matching_prefix(payload.as_str());
    match found {
        Some(code) => {
            proof {
                let j = spec_longest_prefix(ms, u).unwrap();
                lemma_match_found(ms, u, 0, j);
            }
            let clen = code.as_str().unicode_len();
            let plen = payload.as_str().unicode_len();
            let national = copy_range(payload.as_str(), clen, plen);
            proof {
                let j = spec_longest_prefix(ms, u).unwrap();
                assert(national@ =~= u.skip(ms[j].dial.len() as int));
            }
            Some((code, national))
        },
        None => None,
    }
}

} // verus!
