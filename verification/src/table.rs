//! The country code table: an immutable mapping from dial code to country
//! metadata, ordered by descending dial-code length (ties broken
//! lexicographically) so that a greedy scan finds the longest matching
//! dial-code prefix of an E.164 digit string.

use vstd::prelude::*;
use crate::grammar::strip_plus;
use crate::text::{check_prefix, copy_range, is_prefix_of, str_eq};

verus! {

/// The mathematical content of one table entry.
pub ghost struct EntryModel {
    /// The dial code digits, without a leading `+`.
    pub dial: Seq<char>,
    /// The country display name.
    pub name: Seq<char>,
    /// The ISO region code.
    pub iso: Seq<char>,
}

/// Country metadata: display name and ISO region code.
#[derive(Debug, Clone)]
pub struct CountryInfo {
    pub name: String,
    pub iso_code: String,
}

/// One record of the country code table.
#[derive(Debug, Clone)]
pub struct CountryEntry {
    pub dial_code: String,
    pub info: CountryInfo,
}

impl View for CountryEntry {
    type V = EntryModel;

    open spec fn view(&self) -> EntryModel {
        EntryModel { dial: self.dial_code@, name: self.info.name@, iso: self.info.iso_code@ }
    }
}

/// The views of a sequence of entries.
pub open spec fn entry_views(es: Seq<CountryEntry>) -> Seq<EntryModel> {
    es.map_values(|e: CountryEntry| e@)
}

/// Strict lexicographic order on character sequences.
pub open spec fn lex_less(a: Seq<char>, b: Seq<char>) -> bool
    decreases a.len(),
{
    if b.len() == 0 {
        false
    } else if a.len() == 0 {
        true
    } else if a[0] < b[0] {
        true
    } else if b[0] < a[0] {
        false
    } else {
        lex_less(a.skip(1), b.skip(1))
    }
}

/// The table order on dial codes: longer codes first, ties broken
/// lexicographically.
pub open spec fn code_before(a: Seq<char>, b: Seq<char>) -> bool {
    a.len() > b.len() || (a.len() == b.len() && lex_less(a, b))
}

/// Adjacent entries are strictly ordered by `code_before`.
pub open spec fn entries_sorted(ms: Seq<EntryModel>) -> bool {
    forall|i: int| 0 <= i < ms.len() - 1 ==> code_before(#[trigger] ms[i].dial, ms[i + 1].dial)
}

/// No two entries share a dial code.
pub open spec fn distinct_dials(ms: Seq<EntryModel>) -> bool {
    forall|i: int, j: int| 0 <= i < j < ms.len() ==> (#[trigger] ms[i].dial) != (#[trigger] ms[j].dial)
}

/// Some entry carries this dial code.
pub open spec fn has_dial(ms: Seq<EntryModel>, d: Seq<char>) -> bool {
    exists|i: int| 0 <= i < ms.len() && (#[trigger] ms[i].dial) == d
}

/// The first entry from position `i` on whose dial code is `code`.
pub open spec fn lookup_from(ms: Seq<EntryModel>, code: Seq<char>, i: int) -> Option<EntryModel>
    decreases ms.len() - i,
{
    if i < 0 || i >= ms.len() {
        None
    } else if ms[i].dial == code {
        Some(ms[i])
    } else {
        lookup_from(ms, code, i + 1)
    }
}

/// The entry for a dial code, if any.
pub open spec fn spec_lookup(ms: Seq<EntryModel>, code: Seq<char>) -> Option<EntryModel> {
    lookup_from(ms, code, 0)
}

/// Entry `i` matches: its dial code is a prefix of `digits` and the
/// remainder is at least four digits long.
pub open spec fn prefix_match(ms: Seq<EntryModel>, i: int, digits: Seq<char>) -> bool {
    is_prefix_of(ms[i].dial, digits) && digits.len() >= ms[i].dial.len() + 4
}

/// The first matching entry from position `i` on, scanning in table
/// order.
pub open spec fn match_from(ms: Seq<EntryModel>, digits: Seq<char>, i: int) -> Option<int>
    decreases ms.len() - i,
{
    if i < 0 || i >= ms.len() {
        None
    } else if prefix_match(ms, i, digits) {
        Some(i)
    } else {
        match_from(ms, digits, i + 1)
    }
}

/// The index of the first entry, in table order, whose dial code is a
/// prefix of `digits` with a remainder of at least four digits.  Since
/// the table is ordered longest-first, this is the longest such code.
pub open spec fn spec_longest_prefix(ms: Seq<EntryModel>, digits: Seq<char>) -> Option<int> {
    match_from(ms, digits, 0)
}

/// An entry with its dial code stripped of a leading `+`.
pub open spec fn strip_entry(m: EntryModel) -> EntryModel {
    EntryModel { dial: strip_plus(m.dial), name: m.name, iso: m.iso }
}

/// First-occurrence-wins de-duplication by dial code.
pub open spec fn dedup_entries(ms: Seq<EntryModel>) -> Seq<EntryModel>
    decreases ms.len(),
{
    if ms.len() == 0 {
        Seq::empty()
    } else {
        let prior = dedup_entries(ms.drop_last());
        if has_dial(prior, ms.last().dial) {
            prior
        } else {
            prior.push(ms.last())
        }
    }
}

/// Insertion into a sequence sorted by `code_before`.
pub open spec fn insert_sorted(m: EntryModel, ms: Seq<EntryModel>) -> Seq<EntryModel>
    decreases ms.len(),
{
    if ms.len() == 0 {
        seq![m]
    } else if code_before(m.dial, ms[0].dial) {
        seq![m] + ms
    } else {
        seq![ms[0]] + insert_sorted(m, ms.skip(1))
    }
}

/// Insertion sort by `code_before`.
pub open spec fn sort_entries(ms: Seq<EntryModel>) -> Seq<EntryModel>
    decreases ms.len(),
{
    if ms.len() == 0 {
        Seq::empty()
    } else {
        insert_sorted(ms.last(), sort_entries(ms.drop_last()))
    }
}

/// Every dial code stripped of its leading `+`.
pub open spec fn strip_rows(ms: Seq<EntryModel>) -> Seq<EntryModel> {
    ms.map_values(|m: EntryModel| strip_entry(m))
}

/// What table construction yields from raw rows: strip any leading `+`
/// from each dial code, discard later duplicates, and order by
/// `code_before`.
pub open spec fn table_from_rows(rows: Seq<EntryModel>) -> Seq<EntryModel> {
    sort_entries(dedup_entries(strip_rows(rows)))
}

/// Exactly one of `a == b`, `lex_less(a, b)` and `lex_less(b, a)` holds.
pub proof fn lemma_lex_trichotomy(a: Seq<char>, b: Seq<char>)
    ensures
        a == b || lex_less(a, b) || lex_less(b, a),
        lex_less(a, b) ==> !lex_less(b, a) && a != b,
    decreases a.len(),
{
    if b.len() == 0 && a.len() == 0 {
        assert(a =~= b);
    } else if b.len() == 0 || a.len() == 0 {
    } else if a[0] == b[0] {
        lemma_lex_trichotomy(a.skip(1), b.skip(1));
        if a.skip(1) == b.skip(1) {
            assert(a =~= b) by {
                assert(forall|i: int|
                    1 <= i < a.len() ==> #[trigger] a[i] == a.skip(1)[i - 1]);
                assert(forall|i: int|
                    1 <= i < b.len() ==> #[trigger] b[i] == b.skip(1)[i - 1]);
            }
        }
        if a == b {
            assert(a.skip(1) =~= b.skip(1));
        }
    }
}

/// For distinct dial codes, one of the two comes first in table order.
pub proof fn lemma_code_before_total(a: Seq<char>, b: Seq<char>)
    requires
        a != b,
    ensures
        code_before(a, b) || code_before(b, a),
        !(code_before(a, b) && code_before(b, a)),
{
    lemma_lex_trichotomy(a, b);
}

/// Compares two dial codes in table order.
fn code_before_exec(a: &str, b: &str) -> (r: bool)
    ensures
        r == code_before(a@, b@),
{
    let alen = a.unicode_len();
    let blen = b.unicode_len();
    if alen > blen {
        true
    } else if alen < blen {
        false
    } else {
        let r = lex_from(a, b, alen, blen, 0);
        assert(a@.skip(0) =~= a@);
        assert(b@.skip(0) =~= b@);
        r
    }
}

/// Decides `lex_less` on the suffixes of `a` and `b` starting at `i`.
fn lex_from(a: &str, b: &str, alen: usize, blen: usize, i: usize) -> (r: bool)
    requires
        alen == a@.len(),
        blen == b@.len(),
        i <= alen,
        i <= blen,
    ensures
        r == lex_less(a@.skip(i as int), b@.skip(i as int)),
    decreases alen - i,
{
    let ghost sa = a@.skip(i as int);
    let ghost sb = b@.skip(i as int);
    if i == blen {
        return false;
    }
    if i == alen {
        return true;
    }
    let ca = a.get_char(i);
    let cb = b.get_char(i);
    assert(sa[0] == a@[i as int] && sb[0] == b@[i as int]);
    if ca < cb {
        true
    } else if cb < ca {
        false
    } else {
        let r = lex_from(a, b, alen, blen, i + 1);
        assert(sa.skip(1) =~= a@.skip(i + 1));
        assert(sb.skip(1) =~= b@.skip(i + 1));
        r
    }
}

/// Copies an entry.
fn clone_entry(e: &CountryEntry) -> (r: CountryEntry)
    ensures
        r@ == e@,
{
    CountryEntry {
        dial_code: e.dial_code.clone(),
        info: CountryInfo { name: e.info.name.clone(), iso_code: e.info.iso_code.clone() },
    }
}

/// The country code table: entries ordered longest-dial-code-first with
/// pairwise distinct dial codes.
#[derive(Debug, Clone)]
pub struct CountryCodeTable {
    entries: Vec<CountryEntry>,
}

impl View for CountryCodeTable {
    type V = Seq<EntryModel>;

    closed spec fn view(&self) -> Seq<EntryModel> {
        entry_views(self.entries@)
    }
}

impl CountryCodeTable {
    /// The table invariant: ordered by `code_before`, dial codes unique.
    pub open spec fn wf(self) -> bool {
        entries_sorted(self@) && distinct_dials(self@)
    }

    /// How many entries the table holds.
    pub fn len(&self) -> (n: usize)
        ensures
            n == self@.len(),
    {
        self.entries.len()
    }

    /// Looks a dial code up; absence is a normal outcome, never an error.
    pub fn lookup(&self, dial_code: &str) -> (r: Option<&CountryEntry>)
        ensures
            (spec_lookup(self@, dial_code@) matches Some(m) ==> r matches Some(e) && e@ == m),
            (spec_lookup(self@, dial_code@) is None ==> r is None),
    {
        let ghost ms = self@;
        let n = self.entries.len();
        let mut i: usize = 0;
        while i < n
            invariant
                0 <= i <= n == self.entries@.len(),
                ms == self@,
                lookup_from(ms, dial_code@, 0) == lookup_from(ms, dial_code@, i as int),
            decreases n - i,
        {
            let e = &self.entries[i];
            assert(ms[i as int] == e@);
            if str_eq(e.dial_code.as_str(), dial_code) {
                return Some(e);
            }
            i = i + 1;
        }
        None
    }

    /// Scans the table in order and returns the dial code of the first
    /// entry that is a prefix of `digits` and leaves a remainder of at
    /// least four characters: the longest such dial code in the table.
    pub fn longest_matching_prefix(&self, digits: &str) -> (r: Option<String>)
        ensures
            (spec_longest_prefix(self@, digits@) matches Some(j) ==> r matches Some(c) && c@
                == self@[j].dial),
            (spec_longest_prefix(self@, digits@) is None ==> r is None),
    {
        let ghost ms = self@;
        let dlen = digits.unicode_len();
        let n = self.entries.len();
        let mut i: usize = 0;
        while i < n
            invariant
                0 <= i <= n == self.entries@.len(),
                ms == self@,
                dlen == digits@.len(),
                match_from(ms, digits@, 0) == match_from(ms, digits@, i as int),
            decreases n - i,
        {
            let e = &self.entries[i];
            assert(ms[i as int] == e@);
            let clen = e.dial_code.as_str().unicode_len();
            if dlen >= 4 && clen <= dlen - 4 && check_prefix(e.dial_code.as_str(), digits) {
                return Some(e.dial_code.clone());
            }
            i = i + 1;
        }
        None
    }

    /// Builds a table from raw rows: strips a leading `+` from each dial
    /// code, keeps the first occurrence of each dial code, and orders the
    /// result longest-code-first with lexicographic tie-breaking.
    pub fn build(rows: Vec<CountryEntry>) -> (t: CountryCodeTable)
        ensures
            t@ == table_from_rows(entry_views(rows@)),
            t.wf(),
    {
        let ghost stripped = strip_rows(entry_views(rows@));
        // strip and de-duplicate, first occurrence winning
        let n = rows.len();
        let mut ded: Vec<CountryEntry> = Vec::new();
        let mut i: usize = 0;
        while i < n
            invariant
                0 <= i <= n == rows@.len(),
                stripped == strip_rows(entry_views(rows@)),
                entry_views(ded@) == dedup_entries(stripped.take(i as int)),
                distinct_dials(entry_views(ded@)),
            decreases n - i,
        {
            let e = clone_entry(&rows[i]);
            let e = Self::strip_entry_exec(e);
            assert(entry_views(rows@)[i as int] == rows@[i as int]@);
            assert(e@ == stripped[i as int]);
            assert(stripped.take(i + 1).drop_last() =~= stripped.take(i as int));
            assert(stripped.take(i + 1).last() == stripped[i as int]);
            let dup = Self::contains_dial(&ded, e.dial_code.as_str());
            if !dup {
                ded.push(e);
                assert(entry_views(ded@) =~= dedup_entries(stripped.take(i + 1)));
            }
            i = i + 1;
        }
        assert(stripped.take(n as int) =~= stripped);
        // insertion sort, longest dial code first
        let ghost dv = entry_views(ded@);
        let m = ded.len();
        let mut acc: Vec<CountryEntry> = Vec::new();
        let mut j: usize = 0;
        while j < m
            invariant
                0 <= j <= m == ded@.len(),
                dv == entry_views(ded@),
                distinct_dials(dv),
                entry_views(acc@) == sort_entries(dv.take(j as int)),
                entries_sorted(entry_views(acc@)),
                distinct_dials(entry_views(acc@)),
                (forall|d: Seq<char>| has_dial(entry_views(acc@), d) <==> has_dial(
                    dv.take(j as int),
                    d,
                )),
            decreases m - j,
        {
            let e = clone_entry(&ded[j]);
            assert(e@ == dv[j as int]);
            assert(dv.take(j + 1).drop_last() =~= dv.take(j as int));
            assert(dv.take(j + 1).last() == dv[j as int]);
            proof {
                let dd = dv[j as int].dial;
                assert(!has_dial(entry_views(acc@), dd)) by {
                    if has_dial(dv.take(j as int), dd) {
                        let x = choose|x: int|
                            0 <= x < j && (#[trigger] dv.take(j as int)[x].dial) == dd;
                        assert(dv[x].dial == dd);
                    }
                }
            }
            Self::insert_entry(&mut acc, e);
            proof {
                assert forall|d: Seq<char>| has_dial(entry_views(acc@), d) <==> has_dial(
                    dv.take(j + 1),
                    d,
                ) by {
                    if has_dial(dv.take(j + 1), d) {
                        let x = choose|x: int|
                            0 <= x < j + 1 && (#[trigger] dv.take(j + 1)[x].dial) == d;
                        if x < j {
                            assert(dv.take(j as int)[x].dial == d);
                        } else {
                            assert(d == dv[j as int].dial);
                        }
                    }
                    if has_dial(dv.take(j as int), d) {
                        let x = choose|x: int|
                            0 <= x < j && (#[trigger] dv.take(j as int)[x].dial) == d;
                        assert(dv.take(j + 1)[x].dial == d);
                    }
                    if d == dv[j as int].dial {
                        assert(dv.take(j + 1)[j as int].dial == d);
                    }
                }
            }
            j = j + 1;
        }
        assert(dv.take(m as int) =~= dv);
        CountryCodeTable { entries: acc }
    }

    /// Strips one leading `+` from the dial code.
    fn strip_entry_exec(e: CountryEntry) -> (r: CountryEntry)
        ensures
            r@ == strip_entry(e@),
    {
        let dlen = e.dial_code.as_str().unicode_len();
        if dlen > 0 && e.dial_code.as_str().get_char(0) == '+' {
            let stripped = copy_range(e.dial_code.as_str(), 1, dlen);
            assert(stripped@ =~= e.dial_code@.skip(1));
            CountryEntry { dial_code: stripped, info: e.info }
        } else {
            e
        }
    }

    /// Scans for an entry with this dial code.
    fn contains_dial(es: &Vec<CountryEntry>, d: &str) -> (r: bool)
        ensures
            r == has_dial(entry_views(es@), d@),
    {
        let n = es.len();
        let mut i: usize = 0;
        while i < n
            invariant
                0 <= i <= n == es@.len(),
                forall|j: int| 0 <= j < i ==> (#[trigger] entry_views(es@)[j].dial) != d@,
            decreases n - i,
        {
            let e = &es[i];
            assert(entry_views(es@)[i as int] == e@);
            if str_eq(e.dial_code.as_str(), d) {
                assert(has_dial(entry_views(es@), d@)) by {
                    assert(entry_views(es@)[i as int].dial == d@);
                }
                return true;
            }
            i = i + 1;
        }
        assert(!has_dial(entry_views(es@), d@)) by {
            if has_dial(entry_views(es@), d@) {
                let x = choose|x: int|
                    0 <= x < es@.len() && (#[trigger] entry_views(es@)[x].dial) == d@;
            }
        }
        false
    }

    /// Finds the insertion point: the first position whose entry comes
    /// after `d` in table order.
    fn find_pos(v: &Vec<CountryEntry>, d: &str) -> (p: usize)
        ensures
            p <= v@.len(),
            (forall|x: int| 0 <= x < p ==> !code_before(
                d@,
                (#[trigger] entry_views(v@)[x]).dial,
            )),
            p < v@.len() ==> code_before(d@, entry_views(v@)[p as int].dial),
    {
        let n = v.len();
        let mut p: usize = 0;
        while p < n
            invariant
                0 <= p <= n == v@.len(),
                forall|x: int| 0 <= x < p ==> !code_before(
                    d@,
                    (#[trigger] entry_views(v@)[x]).dial,
                ),
            decreases n - p,
        {
            let here = &v[p];
            assert(entry_views(v@)[p as int] == here@);
            if code_before_exec(d, here.dial_code.as_str()) {
                return p;
            }
            p = p + 1;
        }
        p
    }

    /// Inserts an entry into a sorted vector, keeping it sorted.
    fn insert_entry(v: &mut Vec<CountryEntry>, e: CountryEntry)
        requires
            entries_sorted(entry_views(old(v)@)),
            distinct_dials(entry_views(old(v)@)),
            !has_dial(entry_views(old(v)@), e@.dial),
        ensures
            entry_views(final(v)@) == insert_sorted(e@, entry_views(old(v)@)),
            entries_sorted(entry_views(final(v)@)),
            distinct_dials(entry_views(final(v)@)),
            (forall|d: Seq<char>| has_dial(entry_views(final(v)@), d) <==> (has_dial(
                entry_views(old(v)@),
                d,
            ) || d == e@.dial)),
    {
        let ghost ms = entry_views(v@);
        let p = Self::find_pos(v, e.dial_code.as_str());
        proof {
            lemma_insert_at(e@, ms, p as int);
            assert forall|x: int| 0 <= x < p implies code_before(
                (#[trigger] ms[x]).dial,
                e@.dial,
            ) by {
                assert(ms[x].dial != e@.dial);
                lemma_code_before_total(ms[x].dial, e@.dial);
            }
        }
        v.insert(p, e);
        assert(entry_views(v@) =~= ms.take(p as int) + seq![e@] + ms.skip(p as int));
        proof {
            let new_ms = entry_views(v@);
            assert forall|i: int|
                0 <= i < new_ms.len() - 1 implies code_before(
                (#[trigger] new_ms[i]).dial,
                new_ms[i + 1].dial,
            ) by {
                if i + 1 < p {
                    assert(new_ms[i] == ms[i] && new_ms[i + 1] == ms[i + 1]);
                } else if i + 1 == p {
                    assert(new_ms[i] == ms[i] && new_ms[i + 1] == e@);
                } else if i == p {
                    assert(new_ms[i] == e@ && new_ms[i + 1] == ms[i]);
                } else {
                    assert(new_ms[i] == ms[i - 1] && new_ms[i + 1] == ms[i]);
                }
            }
            assert forall|i: int, j: int|
                0 <= i < j < new_ms.len() implies (#[trigger] new_ms[i].dial) != (
            #[trigger] new_ms[j].dial) by {
                let oi: int = if i < p { i } else { i - 1 };
                let oj: int = if j < p { j } else { j - 1 };
                if i == p {
                    assert(new_ms[j] == ms[oj]);
                    assert(!has_dial(ms, e@.dial));
                    assert(ms[oj].dial != e@.dial);
                } else if j == p {
                    assert(new_ms[i] == ms[oi]);
                    assert(ms[oi].dial != e@.dial);
                } else {
                    assert(new_ms[i] == ms[oi] && new_ms[j] == ms[oj]);
                }
            }
            assert forall|d: Seq<char>| has_dial(new_ms, d) <==> (has_dial(ms, d) || d
                == e@.dial) by {
                if has_dial(new_ms, d) {
                    let x = choose|x: int|
                        0 <= x < new_ms.len() && (#[trigger] new_ms[x].dial) == d;
                    if x < p {
                        assert(ms[x].dial == d);
                    } else if x > p {
                        assert(ms[x - 1].dial == d);
                    }
                }
                if has_dial(ms, d) {
                    let x = choose|x: int| 0 <= x < ms.len() && (#[trigger] ms[x].dial) == d;
                    if x < p {
                        assert(new_ms[x].dial == d);
                    } else {
                        assert(new_ms[x + 1].dial == d);
                    }
                }
                if d == e@.dial {
                    assert(new_ms[p as int].dial == d);
                }
            }
        }
    }
}

/// Where the insertion scan stops is where `insert_sorted` puts the
/// entry.
proof fn lemma_insert_at(m: EntryModel, ms: Seq<EntryModel>, p: int)
    requires
        0 <= p <= ms.len(),
        (forall|x: int| 0 <= x < p ==> !code_before(m.dial, (#[trigger] ms[x]).dial)),
        p < ms.len() ==> code_before(m.dial, ms[p].dial),
    ensures
        insert_sorted(m, ms) == ms.take(p) + seq![m] + ms.skip(p),
    decreases p,
{
    if ms.len() == 0 {
        assert(insert_sorted(m, ms) =~= ms.take(p) + seq![m] + ms.skip(p));
    } else if p == 0 {
        assert(code_before(m.dial, ms[0].dial));
        assert(insert_sorted(m, ms) =~= ms.take(p) + seq![m] + ms.skip(p));
    } else {
        assert(!code_before(m.dial, ms[0].dial));
        lemma_insert_at(m, ms.skip(1), p - 1);
        assert(ms.skip(1).take(p - 1) =~= ms.take(p).skip(1));
        assert(ms.skip(1).skip(p - 1) =~= ms.skip(p));
        assert(insert_sorted(m, ms) =~= ms.take(p) + seq![m] + ms.skip(p));
    }
}


/// What a successful longest-prefix scan guarantees about the entry it
/// found.
pub proof fn lemma_match_found(ms: Seq<EntryModel>, digits: Seq<char>, i: int, j: int)
    requires
        0 <= i,
        match_from(ms, digits, i) == Some(j),
    ensures
        i <= j < ms.len(),
        prefix_match(ms, j, digits),
    decreases ms.len() - i,
{
    if i >= ms.len() {
    } else if prefix_match(ms, i, digits) {
    } else {
        lemma_match_found(ms, digits, i + 1, j);
    }
}

} // verus!
