//! Reports of post-state root mismatches from two Ethereum clients' test
//! runs: the lines of each report are parsed into a log of test names with
//! the root each client got and the root the test wanted.
//!
//! A report line holds, somewhere, a test name of letters, digits, `/`, `.`
//! and `_`, then `: post state root mismatch: got `, 64 lower-case
//! hexadecimal digits, `, want ` and 64 more; the leftmost such run counts.

use vstd::prelude::*;
use vstd::utf8::encode_utf8;
use vstd::seq_lib::{seq_to_set_is_finite, to_multiset_contains};
use vstd::multiset::{lemma_intersection_count, lemma_difference_count};
use crate::keys::{SortKey, KeyOrder, compare_bytes, keys_of, ref_keys_of, sorted_keys, key_le};
use crate::set_diff::{diff, is_diff, key_counts};

verus! {

/// A character that a test name may hold: an ASCII letter or digit, `/`,
/// `.` or `_`.
pub open spec fn is_name_char(c: char) -> bool {
    ('A' <= c <= 'Z') || ('a' <= c <= 'z') || ('0' <= c <= '9') || c == '/' || c == '.' || c == '_'
}

/// A lower-case hexadecimal digit.
pub open spec fn is_lower_hex(c: char) -> bool {
    ('0' <= c <= '9') || ('a' <= c <= 'f')
}

/// Every character is a lower-case hexadecimal digit.
pub open spec fn all_lower_hex(s: Seq<char>) -> bool {
    forall|k: int| 0 <= k < s.len() ==> is_lower_hex(#[trigger] s[k])
}

/// The length of a state root: 64 hexadecimal digits.
pub const ROOT_LEN: usize = 64;

/// What follows the test name in a mismatch line.
pub open spec fn got_marker() -> Seq<char> {
    seq![
        ':', ' ', 'p', 'o', 's', 't', ' ', 's', 't', 'a', 't', 'e', ' ', 'r', 'o', 'o', 't', ' ', 'm',
        'i', 's', 'm', 'a', 't', 'c', 'h', ':', ' ', 'g', 'o', 't', ' ',
    ]
}

/// What separates the root got from the root wanted.
pub open spec fn want_marker() -> Seq<char> {
    seq![',', ' ', 'w', 'a', 'n', 't', ' ']
}

/// Where the run of name characters that starts at `i` ends.
pub open spec fn name_end(line: Seq<char>, i: int) -> int
    decreases line.len() - i,
{
    if 0 <= i < line.len() && is_name_char(line[i]) {
        name_end(line, i + 1)
    } else {
        i
    }
}

/// Where the root got starts, for a match at `i`.
pub open spec fn got_start(line: Seq<char>, i: int) -> int {
    name_end(line, i) + 32
}

/// Where the root wanted starts, for a match at `i`.
pub open spec fn want_start(line: Seq<char>, i: int) -> int {
    got_start(line, i) + 64 + 7
}

/// The line format matches at `i`: a (possibly empty) run of name
/// characters, the got marker, 64 lower-case hexadecimal digits, the want
/// marker and 64 more. The run is taken whole: no name character can start
/// the got marker.
pub open spec fn matches_at(line: Seq<char>, i: int) -> bool {
    let j = name_end(line, i);
    let g = got_start(line, i);
    let w = want_start(line, i);
    &&& 0 <= i <= line.len()
    &&& w + 64 <= line.len()
    &&& line.subrange(j, g) == got_marker()
    &&& all_lower_hex(line.subrange(g, g + 64))
    &&& line.subrange(g + 64, w) == want_marker()
    &&& all_lower_hex(line.subrange(w, w + 64))
}

/// The first position from `i` on at which the line format matches.
pub open spec fn first_match_from(line: Seq<char>, i: int) -> Option<int>
    decreases line.len() + 1 - i,
{
    if i < 0 || i > line.len() {
        None
    } else if matches_at(line, i) {
        Some(i)
    } else {
        first_match_from(line, i + 1)
    }
}

/// What a report line holds: at its leftmost match of the line format,
/// the test name, the root got and the root wanted; none when the format
/// matches nowhere.
pub open spec fn line_entry(line: Seq<char>) -> Option<(Seq<char>, Seq<char>, Seq<char>)> {
    match first_match_from(line, 0) {
        None => None,
        Some(i) => Some(
            (
                line.subrange(i, name_end(line, i)),
                line.subrange(got_start(line, i), got_start(line, i) + 64),
                line.subrange(want_start(line, i), want_start(line, i) + 64),
            ),
        ),
    }
}

/// The run of name characters from `i` ends at `e` when the characters up
/// to `e` are name characters and the one at `e`, if any, is not.
proof fn lemma_name_end_at(line: Seq<char>, i: int, e: int)
    requires
        0 <= i <= e <= line.len(),
        forall|k: int| i <= k < e ==> is_name_char(#[trigger] line[k]),
        e < line.len() ==> !is_name_char(line[e]),
    ensures
        name_end(line, i) == e,
    decreases e - i,
{
    if i < e {
        lemma_name_end_at(line, i + 1, e);
    }
}

/// A line made of a test name of ASCII letters, digits, `/`, `.` and `_`,
/// the got marker, a 64-digit lower-case hexadecimal root, the want marker
/// and another such root reads back as that name and those two roots.
pub proof fn lemma_mismatch_line_reads_back(name: Seq<char>, got: Seq<char>, want: Seq<char>)
    requires
        forall|k: int|
            0 <= k < name.len() ==> {
                let c = #[trigger] name[k];
                ('A' <= c <= 'Z') || ('a' <= c <= 'z') || ('0' <= c <= '9') || c == '/' || c == '.' || c == '_'
            },
        got.len() == 64,
        want.len() == 64,
        forall|k: int| 0 <= k < 64 ==> ('0' <= #[trigger] got[k] <= '9') || ('a' <= got[k] <= 'f'),
        forall|k: int| 0 <= k < 64 ==> ('0' <= #[trigger] want[k] <= '9') || ('a' <= want[k] <= 'f'),
    ensures
        line_entry(name + got_marker() + got + want_marker() + want) == Some((name, got, want)),
{
    let line = name + got_marker() + got + want_marker() + want;
    let j = name.len() as int;
    assert(got_marker().len() == 32);
    assert(want_marker().len() == 7);
    assert forall|k: int| 0 <= k < j implies is_name_char(#[trigger] line[k]) by {
        assert(line[k] == name[k]);
    }
    assert(line[j] == ':');
    lemma_name_end_at(line, 0, j);
    assert(line.subrange(j, j + 32) =~= got_marker());
    assert(line.subrange(j + 32, j + 96) =~= got);
    assert(line.subrange(j + 96, j + 103) =~= want_marker());
    assert(line.subrange(j + 103, j + 167) =~= want);
    assert(matches_at(line, 0));
    assert(line.subrange(0, j) =~= name);
}

/// Whether `lit` is written in `line` at `at`.
fn literal_at(line: &[char], at: usize, lit: &[char]) -> (r: bool)
    ensures
        r == (at + lit@.len() <= line@.len() && line@.subrange(at as int, at + lit@.len()) == lit@),
{
    if at > line.len() || lit.len() > line.len() - at {
        return false;
    }
    let n = lit.len();
    let len = line.len();
    for k in 0..n
        invariant
            n == lit@.len(),
            len == line@.len(),
            at + n <= len,
            forall|t: int| 0 <= t < k ==> line@[at + t] == lit@[t],
    {
        if line[at + k] != lit[k] {
            proof {
                assert(line@.subrange(at as int, at + n)[k as int] != lit@[k as int]);
            }
            return false;
        }
    }
    proof {
        assert(line@.subrange(at as int, at + n) =~= lit@);
    }
    true
}

/// Whether `line[at..at + n]` are all lower-case hexadecimal digits.
fn lower_hex_run(line: &[char], at: usize, n: usize) -> (r: bool)
    requires
        at + n <= line@.len(),
    ensures
        r == all_lower_hex(line@.subrange(at as int, at + n)),
{
    let len = line.len();
    for k in 0..n
        invariant
            len == line@.len(),
            at + n <= len,
            forall|t: int| 0 <= t < k ==> is_lower_hex(#[trigger] line@[at + t]),
    {
        let c = line[at + k];
        if !(('0' <= c && c <= '9') || ('a' <= c && c <= 'f')) {
            proof {
                assert(!is_lower_hex(line@.subrange(at as int, at + n)[k as int]));
            }
            return false;
        }
    }
    proof {
        assert forall|t: int| 0 <= t < n implies is_lower_hex(#[trigger] line@.subrange(at as int, at + n)[t]) by {
            assert(line@.subrange(at as int, at + n)[t] == line@[at + t]);
        }
    }
    true
}

/// Whether `c` may stand in a test name.
fn name_char(c: char) -> (r: bool)
    ensures
        r == is_name_char(c),
{
    ('A' <= c && c <= 'Z') || ('a' <= c && c <= 'z') || ('0' <= c && c <= '9') || c == '/' || c == '.' || c == '_'
}

/// Where the run of name characters from `i` ends.
fn name_run_end(line: &[char], i: usize) -> (j: usize)
    requires
        i <= line@.len(),
    ensures
        j == name_end(line@, i as int),
        i <= j <= line@.len(),
{
    let mut j = i;
    while j < line.len() && name_char(line[j])
        invariant
            i <= j <= line@.len(),
            name_end(line@, i as int) == name_end(line@, j as int),
        decreases line@.len() - j,
    {
        j = j + 1;
    }
    j
}

/// Whether the line format matches at `i`, and where the name ends.
fn match_here(line: &[char], i: usize) -> (r: Option<usize>)
    requires
        i <= line@.len(),
    ensures
        match r {
            Some(j) => matches_at(line@, i as int) && j == name_end(line@, i as int) && i <= j && j + 32 + 64 + 7 + 64
                <= line@.len(),
            None => !matches_at(line@, i as int),
        },
{
    let j = name_run_end(line, i);
    let len = line.len();
    let got_mark = [
        ':', ' ', 'p', 'o', 's', 't', ' ', 's', 't', 'a', 't', 'e', ' ', 'r', 'o', 'o', 't', ' ', 'm',
        'i', 's', 'm', 'a', 't', 'c', 'h', ':', ' ', 'g', 'o', 't', ' ',
    ];
    let want_mark = [',', ' ', 'w', 'a', 'n', 't', ' '];
    proof {
        assert(got_mark@ =~= got_marker());
        assert(want_mark@ =~= want_marker());
        assert(got_marker().len() == 32);
        assert(want_marker().len() == 7);
    }
    if !literal_at(line, j, &got_mark) {
        return None;
    }
    assert(j + 32 <= len);
    let g = j + 32;
    if line.len() - g < ROOT_LEN + 7 + ROOT_LEN {
        return None;
    }
    if !lower_hex_run(line, g, ROOT_LEN) {
        return None;
    }
    if !literal_at(line, g + ROOT_LEN, &want_mark) {
        return None;
    }
    if !lower_hex_run(line, g + ROOT_LEN + 7, ROOT_LEN) {
        return None;
    }
    Some(j)
}

/// One test of a mismatch report.
pub struct MismatchEntry {
    pub name: String,
    pub got: String,
    pub want: String,
}

/// The characters of a string, in a vector.
fn chars_of(s: &str) -> (r: Vec<char>)
    ensures
        r@ == s@,
{
    let n = s.unicode_len();
    let mut r: Vec<char> = Vec::new();
    for k in 0..n
        invariant
            n == s@.len(),
            r@ == s@.subrange(0, k as int),
    {
        r.push(s.get_char(k));
        proof {
            assert(s@.subrange(0, k + 1) =~= s@.subrange(0, k as int).push(s@[k as int]));
        }
    }
    proof {
        assert(s@.subrange(0, n as int) =~= s@);
    }
    r
}

/// The characters `s[from..to]` as a string.
fn string_of(s: &str, from: usize, to: usize) -> (r: String)
    requires
        from <= to <= s@.len(),
    ensures
        r@ == s@.subrange(from as int, to as int),
{
    broadcast use vstd::string::to_string_from_display_ensures_for_str;
    s.substring_char(from, to).to_string()
}

/// Reads one line of a mismatch report: the name, got and want roots of
/// its leftmost match of the line format, none when it matches nowhere.
pub fn parse_mismatch_line(line: &str) -> (r: Option<MismatchEntry>)
    ensures
        match (r, line_entry(line@)) {
            (Some(e), Some((name, got, want))) => e.name@ == name && e.got@ == got && e.want@ == want,
            (None, None) => true,
            _ => false,
        },
{
    let cs = chars_of(line);
    let n = cs.len();
    for i in 0..n
        invariant
            n == line@.len(),
            cs@ == line@,
            first_match_from(line@, 0) == first_match_from(line@, i as int),
    {
        match match_here(cs.as_slice(), i) {
            Some(j) => {
                return Some(entry_at(line, i, j));
            },
            None => {},
        }
    }
    match match_here(cs.as_slice(), n) {
        Some(j) => Some(entry_at(line, n, j)),
        None => {
            proof {
                assert(first_match_from(line@, n + 1) is None);
            }
            None
        },
    }
}

/// The entry of a match at `i` whose name ends at `j`.
fn entry_at(line: &str, i: usize, j: usize) -> (e: MismatchEntry)
    requires
        i <= j,
        j + 32 + 64 + 7 + 64 <= line@.len(),
        line@.len() <= usize::MAX,
    ensures
        e.name@ == line@.subrange(i as int, j as int),
        e.got@ == line@.subrange(j + 32, j + 32 + 64),
        e.want@ == line@.subrange(j + 32 + 64 + 7, j + 32 + 64 + 7 + 64),
{
    let g = j + 32;
    let w = g + ROOT_LEN + 7;
    let name = string_of(line, i, j);
    let got = string_of(line, g, g + ROOT_LEN);
    let want = string_of(line, w, w + ROOT_LEN);
    MismatchEntry { name, got, want }
}

/// The key of an entry: the UTF-8 bytes of its test name, by which names
/// are told apart and ordered.
pub open spec fn entry_key(e: MismatchEntry) -> Seq<u8> {
    encode_utf8(e.name@)
}

/// The roots an entry records: the one got, the one wanted.
pub open spec fn entry_roots(e: MismatchEntry) -> (Seq<char>, Seq<char>) {
    (e.got@, e.want@)
}

/// The map from test names to roots that a list of entries gives, later
/// entries replacing earlier ones of the same name.
pub open spec fn entries_map(s: Seq<MismatchEntry>) -> Map<Seq<u8>, (Seq<char>, Seq<char>)>
    decreases s.len(),
{
    if s.len() == 0 {
        Map::empty()
    } else {
        entries_map(s.drop_last()).insert(entry_key(s.last()), entry_roots(s.last()))
    }
}

/// No two entries have the same name.
pub open spec fn keys_unique(s: Seq<MismatchEntry>) -> bool {
    forall|i: int, j: int| 0 <= i < j < s.len() ==> entry_key(#[trigger] s[i]) != entry_key(#[trigger] s[j])
}

proof fn lemma_entries_map_dom(s: Seq<MismatchEntry>)
    ensures
        forall|k: Seq<u8>| #[trigger] entries_map(s).dom().contains(k) <==> exists|i: int|
            0 <= i < s.len() && entry_key(#[trigger] s[i]) == k,
        entries_map(s).dom().finite(),
    decreases s.len(),
{
    if s.len() > 0 {
        let t = s.drop_last();
        lemma_entries_map_dom(t);
        assert forall|k: Seq<u8>| #[trigger] entries_map(s).dom().contains(k) <==> exists|i: int|
            0 <= i < s.len() && entry_key(#[trigger] s[i]) == k by {
            if entries_map(s).dom().contains(k) && k != entry_key(s.last()) {
                let i = choose|i: int| 0 <= i < t.len() && entry_key(#[trigger] t[i]) == k;
                assert(s[i] == t[i]);
            }
            if exists|i: int| 0 <= i < s.len() && entry_key(#[trigger] s[i]) == k {
                let i = choose|i: int| 0 <= i < s.len() && entry_key(#[trigger] s[i]) == k;
                if i < t.len() {
                    assert(t[i] == s[i]);
                }
            }
        }
    }
}

proof fn lemma_entries_map_value(s: Seq<MismatchEntry>, i: int)
    requires
        keys_unique(s),
        0 <= i < s.len(),
    ensures
        entries_map(s).dom().contains(entry_key(s[i])),
        entries_map(s)[entry_key(s[i])] == entry_roots(s[i]),
    decreases s.len(),
{
    let t = s.drop_last();
    if i < s.len() - 1 {
        assert(t[i] == s[i]);
        assert(keys_unique(t));
        lemma_entries_map_value(t, i);
        assert(entry_key(s[i]) != entry_key(s.last()));
    }
}

proof fn lemma_entries_map_update(s: Seq<MismatchEntry>, i: int, e: MismatchEntry)
    requires
        keys_unique(s),
        0 <= i < s.len(),
        entry_key(e) == entry_key(s[i]),
    ensures
        entries_map(s.update(i, e)) == entries_map(s).insert(entry_key(e), entry_roots(e)),
        keys_unique(s.update(i, e)),
    decreases s.len(),
{
    let u = s.update(i, e);
    let t = s.drop_last();
    assert(u.drop_last() =~= if i == s.len() - 1 { t } else { t.update(i, e) });
    if i == s.len() - 1 {
        assert(entries_map(u) =~= entries_map(s).insert(entry_key(e), entry_roots(e)));
    } else {
        assert(t[i] == s[i]);
        lemma_entries_map_update(t, i, e);
        assert(entry_key(e) != entry_key(s.last()));
        assert(u.last() == s.last());
        assert(entries_map(u) =~= entries_map(s).insert(entry_key(e), entry_roots(e)));
    }
    assert forall|a: int, b: int| 0 <= a < b < u.len() implies entry_key(#[trigger] u[a]) != entry_key(
        #[trigger] u[b],
    ) by {
        if a == i {
            assert(entry_key(s[a]) != entry_key(s[b]));
        } else if b == i {
            assert(entry_key(s[a]) != entry_key(s[b]));
        } else {
            assert(entry_key(s[a]) != entry_key(s[b]));
        }
    }
}

/// The tests of a mismatch report by name, each with the root its client
/// got and the root it wanted; a later line for the same name replaces an
/// earlier one.
pub struct MismatchLog {
    entries: Vec<MismatchEntry>,
}

impl View for MismatchLog {
    type V = Map<Seq<u8>, (Seq<char>, Seq<char>)>;

    closed spec fn view(&self) -> Map<Seq<u8>, (Seq<char>, Seq<char>)> {
        entries_map(self.entries@)
    }
}

impl MismatchLog {
    /// The log is well formed: no name occurs twice.
    pub closed spec fn wf(&self) -> bool {
        keys_unique(self.entries@)
    }

    /// The entries of the log, one per name, in the order in which their
    /// names first came.
    pub closed spec fn entry_seq(&self) -> Seq<MismatchEntry> {
        self.entries@
    }

    /// The entries list each name of the log once, with its roots.
    pub proof fn lemma_entries(&self)
        requires
            self.wf(),
        ensures
            keys_unique(self.entry_seq()),
            self@.dom().finite(),
            forall|k: Seq<u8>| #[trigger] self@.dom().contains(k) <==> exists|i: int|
                0 <= i < self.entry_seq().len() && entry_key(#[trigger] self.entry_seq()[i]) == k,
            forall|i: int|
                0 <= i < self.entry_seq().len() ==> self@[entry_key(#[trigger] self.entry_seq()[i])]
                    == entry_roots(self.entry_seq()[i]),
    {
        lemma_entries_map_dom(self.entries@);
        assert forall|i: int| 0 <= i < self.entry_seq().len() implies self@[entry_key(
            #[trigger] self.entry_seq()[i],
        )] == entry_roots(self.entry_seq()[i]) by {
            lemma_entries_map_value(self.entries@, i);
        }
    }

    /// An empty log.
    pub fn new() -> (r: MismatchLog)
        ensures
            r.wf(),
            r@ == Map::<Seq<u8>, (Seq<char>, Seq<char>)>::empty(),
    {
        MismatchLog { entries: Vec::new() }
    }

    /// The number of names in the log.
    pub fn len(&self) -> (n: usize)
        requires
            self.wf(),
        ensures
            n == self@.dom().len(),
    {
        proof {
            lemma_entries_map_dom(self.entries@);
            let keys = self.entries@.map_values(|e: MismatchEntry| entry_key(e));
            assert(keys.no_duplicates()) by {
                assert forall|a: int, b: int| 0 <= a < keys.len() && 0 <= b < keys.len() && a != b implies keys[a] != keys[b] by {
                    if a < b {
                        assert(entry_key(self.entries@[a]) != entry_key(self.entries@[b]));
                    } else {
                        assert(entry_key(self.entries@[b]) != entry_key(self.entries@[a]));
                    }
                }
            }
            assert(keys.to_set() =~= self@.dom()) by {
                assert forall|k: Seq<u8>| keys.to_set().contains(k) <==> self@.dom().contains(k) by {
                    if keys.to_set().contains(k) {
                        let i = choose|i: int| 0 <= i < keys.len() && keys[i] == k;
                        assert(entry_key(self.entries@[i]) == k);
                    }
                    if self@.dom().contains(k) {
                        let i = choose|i: int| 0 <= i < self.entries@.len() && entry_key(#[trigger] self.entries@[i]) == k;
                        assert(keys[i] == k);
                    }
                }
            }
            keys.unique_seq_to_set();
        }
        self.entries.len()
    }

    /// Where the entry named `name` is, if there is one.
    fn position(&self, name: &String) -> (r: Option<usize>)
        ensures
            match r {
                Some(i) => i < self.entries@.len() && entry_key(self.entries@[i as int]) == name.key(),
                None => forall|i: int| 0 <= i < self.entries@.len() ==> entry_key(#[trigger] self.entries@[i]) != name.key(),
            },
    {
        let n = self.entries.len();
        for i in 0..n
            invariant
                n == self.entries@.len(),
                forall|j: int| 0 <= j < i ==> entry_key(#[trigger] self.entries@[j]) != name.key(),
        {
            match compare_bytes(self.entries[i].name.key_bytes(), name.key_bytes()) {
                KeyOrder::Equal => {
                    return Some(i);
                },
                _ => {},
            }
        }
        None
    }

    /// The names of the log, in the order of its entries.
    pub fn names(&self) -> (r: Vec<&String>)
        requires
            self.wf(),
        ensures
            r@.len() == self.entry_seq().len(),
            forall|i: int| 0 <= i < r@.len() ==> *#[trigger] r@[i] == self.entry_seq()[i].name,
    {
        let mut r: Vec<&String> = Vec::new();
        let n = self.entries.len();
        for i in 0..n
            invariant
                n == self.entries@.len(),
                r@.len() == i,
                forall|j: int| 0 <= j < i ==> *#[trigger] r@[j] == self.entries@[j].name,
        {
            r.push(&self.entries[i].name);
        }
        r
    }

    /// Records an entry, replacing the one of the same name if there is one.
    pub fn insert(&mut self, e: MismatchEntry)
        requires
            old(self).wf(),
        ensures
            final(self).wf(),
            final(self)@ == old(self)@.insert(entry_key(e), entry_roots(e)),
    {
        match self.position(&e.name) {
            Some(i) => {
                proof {
                    lemma_entries_map_update(self.entries@, i as int, e);
                }
                self.entries.set(i, e);
            },
            None => {
                let ghost old_entries = self.entries@;
                self.entries.push(e);
                proof {
                    assert(self.entries@.drop_last() =~= old_entries);
                    assert forall|a: int, b: int| 0 <= a < b < self.entries@.len() implies entry_key(
                        #[trigger] self.entries@[a],
                    ) != entry_key(#[trigger] self.entries@[b]) by {
                        if b == old_entries.len() {
                            assert(self.entries@[a] == old_entries[a]);
                        } else {
                            assert(self.entries@[a] == old_entries[a]);
                            assert(self.entries@[b] == old_entries[b]);
                        }
                    }
                }
            },
        }
    }

    /// The roots recorded for `name`, if any.
    pub fn get(&self, name: &String) -> (r: Option<&MismatchEntry>)
        requires
            self.wf(),
        ensures
            match r {
                Some(e) => self@.dom().contains(name.key()) && entry_key(*e) == name.key() && self@[name.key()] == entry_roots(*e),
                None => !self@.dom().contains(name.key()),
            },
    {
        proof {
            lemma_entries_map_dom(self.entries@);
        }
        match self.position(name) {
            Some(i) => {
                proof {
                    lemma_entries_map_value(self.entries@, i as int);
                }
                Some(&self.entries[i])
            },
            None => None,
        }
    }
}

/// The log that the lines of a report give, read first to last, a later
/// line for a name replacing an earlier one; a line that does not match
/// the line format adds nothing.
pub open spec fn report_log(lines: Seq<Seq<char>>) -> Map<Seq<u8>, (Seq<char>, Seq<char>)>
    decreases lines.len(),
{
    if lines.len() == 0 {
        Map::empty()
    } else {
        match line_entry(lines.last()) {
            None => report_log(lines.drop_last()),
            Some((name, got, want)) => report_log(lines.drop_last()).insert(encode_utf8(name), (got, want)),
        }
    }
}

/// The characters of each line.
pub open spec fn lines_view(lines: Seq<String>) -> Seq<Seq<char>> {
    lines.map_values(|l: String| l@)
}

/// Every line of a report matches the line format.
pub open spec fn report_readable(lines: Seq<Seq<char>>) -> bool {
    forall|i: int| 0 <= i < lines.len() ==> (#[trigger] line_entry(lines[i])) is Some
}

/// Reads the lines of a mismatch report into a log, a later line for a
/// name replacing an earlier one. Every line must match the line format.
pub fn read_mismatch_log(lines: &[String]) -> (r: MismatchLog)
    requires
        report_readable(lines_view(lines@)),
    ensures
        r.wf(),
        r@ == report_log(lines_view(lines@)),
{
    let ghost lv = lines_view(lines@);
    let mut log = MismatchLog::new();
    let n = lines.len();
    proof {
        assert(lv.take(0) =~= Seq::<Seq<char>>::empty());
    }
    for i in 0..n
        invariant
            n == lines@.len(),
            lv == lines_view(lines@),
            report_readable(lv),
            log.wf(),
            report_log(lv.take(i as int)) == log@,
    {
        proof {
            assert(lv.take(i + 1).drop_last() =~= lv.take(i as int));
            assert(lv.take(i + 1).last() == lines@[i as int]@);
            assert(lv[i as int] == lines@[i as int]@);
            assert(line_entry(lv[i as int]) is Some);
        }
        match parse_mismatch_line(lines[i].as_str()) {
            Some(e) => {
                log.insert(e);
            },
            None => {
                proof {
                    assert(false);
                }
            },
        }
    }
    proof {
        assert(lv.take(n as int) =~= lv);
    }
    log
}

/// Reads a mismatch report whatever its lines: none where a line does not
/// match the line format, else what `read_mismatch_log` gives.
pub fn read_mismatch_report(lines: &[String]) -> (r: Option<MismatchLog>)
    ensures
        match r {
            None => !report_readable(lines_view(lines@)),
            Some(log) => report_readable(lines_view(lines@)) && log.wf() && log@ == report_log(lines_view(lines@)),
        },
{
    let ghost lv = lines_view(lines@);
    let n = lines.len();
    for i in 0..n
        invariant
            n == lines@.len(),
            lv == lines_view(lines@),
            forall|j: int| 0 <= j < i ==> (#[trigger] line_entry(lv[j])) is Some,
    {
        proof {
            assert(lv[i as int] == lines@[i as int]@);
        }
        if parse_mismatch_line(lines[i].as_str()).is_none() {
            return None;
        }
    }
    Some(read_mismatch_log(lines))
}

/// A test whose clients agree on the wanted root but got different roots.
pub struct Failure {
    pub name: String,
    pub first_got: String,
    pub second_got: String,
}

/// The comparison of two mismatch logs.
pub struct LogComparison {
    /// Tests in both logs with the same wanted and the same got root.
    pub ok_count: usize,
    /// Tests in both logs with the same wanted root but different got
    /// roots, in order of name.
    pub failures: Vec<Failure>,
    /// Tests in both logs whose wanted roots differ.
    pub root_mismatch_count: usize,
    /// Tests in the first log only.
    pub only_first_count: usize,
    /// Tests in the second log only.
    pub only_second_count: usize,
}

/// The names in both logs.
pub open spec fn common_names(a: Map<Seq<u8>, (Seq<char>, Seq<char>)>, b: Map<Seq<u8>, (Seq<char>, Seq<char>)>) -> Set<Seq<u8>> {
    a.dom().intersect(b.dom())
}

/// Both logs want and got the same roots for `k`.
pub open spec fn roots_match(a: Map<Seq<u8>, (Seq<char>, Seq<char>)>, b: Map<Seq<u8>, (Seq<char>, Seq<char>)>, k: Seq<u8>) -> bool {
    a[k].1 == b[k].1 && a[k].0 == b[k].0
}

/// Both logs want the same root for `k` but got different ones.
pub open spec fn roots_fail(a: Map<Seq<u8>, (Seq<char>, Seq<char>)>, b: Map<Seq<u8>, (Seq<char>, Seq<char>)>, k: Seq<u8>) -> bool {
    a[k].1 == b[k].1 && a[k].0 != b[k].0
}

/// The logs want different roots for `k`.
pub open spec fn wants_differ(a: Map<Seq<u8>, (Seq<char>, Seq<char>)>, b: Map<Seq<u8>, (Seq<char>, Seq<char>)>, k: Seq<u8>) -> bool {
    a[k].1 != b[k].1
}

/// The names of a list of failures, as keys.
pub open spec fn failure_keys(f: Seq<Failure>) -> Seq<Seq<u8>> {
    f.map_values(|x: Failure| encode_utf8(x.name@))
}

/// `r` is the comparison of the logs `a` and `b`: the counts of common
/// tests that agree, that fail and whose wanted roots differ, the failures
/// in order of name with what each client got, and the counts of tests in
/// one log only.
pub open spec fn is_log_comparison(
    a: Map<Seq<u8>, (Seq<char>, Seq<char>)>,
    b: Map<Seq<u8>, (Seq<char>, Seq<char>)>,
    r: LogComparison,
) -> bool {
    let common = common_names(a, b);
    let fk = failure_keys(r.failures@);
    &&& r.ok_count == common.filter(|k: Seq<u8>| roots_match(a, b, k)).len()
    &&& r.root_mismatch_count == common.filter(|k: Seq<u8>| wants_differ(a, b, k)).len()
    &&& r.only_first_count == a.dom().difference(b.dom()).len()
    &&& r.only_second_count == b.dom().difference(a.dom()).len()
    &&& sorted_keys(fk)
    &&& fk.no_duplicates()
    &&& fk.to_set() == common.filter(|k: Seq<u8>| roots_fail(a, b, k))
    &&& forall|i: int| 0 <= i < fk.len() ==> a[#[trigger] fk[i]].0 == r.failures@[i].first_got@ && b[fk[i]].0 == r.failures@[i].second_got@
}

/// In a sequence without repeats each element counts once.
proof fn lemma_unique_counts(ks: Seq<Seq<u8>>)
    requires
        ks.no_duplicates(),
    ensures
        forall|k: Seq<u8>| #[trigger] ks.to_multiset().count(k) == if ks.contains(k) { 1nat } else { 0nat },
{
    ks.lemma_multiset_has_no_duplicates();
    assert forall|k: Seq<u8>| #[trigger] ks.to_multiset().count(k) == if ks.contains(k) { 1nat } else { 0nat } by {
        to_multiset_contains(ks, k);
    }
}

/// A sequence whose elements each count at most once has no repeats, and
/// holds exactly the elements of positive count.
proof fn lemma_counts_to_set(ks: Seq<Seq<u8>>, s: Set<Seq<u8>>)
    requires
        forall|k: Seq<u8>| #[trigger] ks.to_multiset().count(k) == if s.contains(k) { 1nat } else { 0nat },
    ensures
        ks.no_duplicates(),
        ks.to_set() == s,
        ks.len() == s.len(),
        s.finite(),
{
    ks.lemma_multiset_has_no_duplicates_conv();
    assert forall|k: Seq<u8>| ks.to_set().contains(k) <==> s.contains(k) by {
        to_multiset_contains(ks, k);
    }
    assert(ks.to_set() =~= s);
    seq_to_set_is_finite(ks);
    ks.unique_seq_to_set();
}

/// The keys of a log's names, one per name of the log.
proof fn lemma_name_keys(log: &MismatchLog, names: Seq<&String>)
    requires
        log.wf(),
        names.len() == log.entry_seq().len(),
        forall|i: int| 0 <= i < names.len() ==> *#[trigger] names[i] == log.entry_seq()[i].name,
    ensures
        forall|k: Seq<u8>| #[trigger] key_counts(names).count(k) == if log@.dom().contains(k) { 1nat } else { 0nat },
{
    log.lemma_entries();
    let ks = keys_of(names);
    assert forall|a: int, b: int| 0 <= a < ks.len() && 0 <= b < ks.len() && a != b implies ks[a] != ks[b] by {
        assert(ks[a] == entry_key(log.entry_seq()[a]));
        assert(ks[b] == entry_key(log.entry_seq()[b]));
    }
    lemma_unique_counts(ks);
    assert forall|k: Seq<u8>| ks.contains(k) <==> log@.dom().contains(k) by {
        if ks.contains(k) {
            let i = choose|i: int| 0 <= i < ks.len() && ks[i] == k;
            assert(entry_key(log.entry_seq()[i]) == k);
        }
        if log@.dom().contains(k) {
            let i = choose|i: int| 0 <= i < log.entry_seq().len() && entry_key(#[trigger] log.entry_seq()[i]) == k;
            assert(ks[i] == k);
        }
    }
}

proof fn lemma_filter_insert(s: Set<Seq<u8>>, x: Seq<u8>, p: spec_fn(Seq<u8>) -> bool)
    requires
        s.finite(),
        !s.contains(x),
    ensures
        s.insert(x).filter(p) == if p(x) { s.filter(p).insert(x) } else { s.filter(p) },
        s.insert(x).filter(p).len() == s.filter(p).len() + if p(x) { 1int } else { 0int },
        s.insert(x).filter(p).finite(),
{
    assert(s.insert(x).filter(p) =~= if p(x) { s.filter(p).insert(x) } else { s.filter(p) });
    s.lemma_len_filter(p);
}

/// Compares two mismatch logs test by test.
pub fn compare_logs(first: &MismatchLog, second: &MismatchLog) -> (r: LogComparison)
    requires
        first.wf(),
        second.wf(),
    ensures
        is_log_comparison(first@, second@, r),
{
    let na = first.names();
    let nb = second.names();
    let (both, ones, twos) = diff(na.as_slice(), nb.as_slice());
    let ghost a = first@;
    let ghost b = second@;
    let ghost common = common_names(a, b);
    let ghost kb = ref_keys_of(both@);
    proof {
        lemma_name_keys(first, na@);
        lemma_name_keys(second, nb@);
        first.lemma_entries();
        second.lemma_entries();
        let ma = key_counts(na@);
        let mb = key_counts(nb@);
        assert forall|k: Seq<u8>| #[trigger] kb.to_multiset().count(k) == if common.contains(k) { 1nat } else { 0nat } by {
            lemma_intersection_count(ma, mb, k);
        }
        lemma_counts_to_set(kb, common);
        let a_only = a.dom().difference(b.dom());
        let b_only = b.dom().difference(a.dom());
        assert forall|k: Seq<u8>| #[trigger] ref_keys_of(ones@).to_multiset().count(k) == if a_only.contains(k) { 1nat } else { 0nat } by {
            lemma_difference_count(ma, mb, k);
        }
        lemma_counts_to_set(ref_keys_of(ones@), a_only);
        assert forall|k: Seq<u8>| #[trigger] ref_keys_of(twos@).to_multiset().count(k) == if b_only.contains(k) { 1nat } else { 0nat } by {
            lemma_difference_count(mb, ma, k);
        }
        lemma_counts_to_set(ref_keys_of(twos@), b_only);
        assert(kb.take(0).to_set() =~= Set::<Seq<u8>>::empty());
        assert(Set::<Seq<u8>>::empty().filter(|k: Seq<u8>| roots_match(a, b, k)) =~= Set::<Seq<u8>>::empty());
        assert(Set::<Seq<u8>>::empty().filter(|k: Seq<u8>| wants_differ(a, b, k)) =~= Set::<Seq<u8>>::empty());
        assert(Set::<Seq<u8>>::empty().filter(|k: Seq<u8>| roots_fail(a, b, k)) =~= Set::<Seq<u8>>::empty());
        assert(failure_keys(Seq::<Failure>::empty()) =~= Seq::<Seq<u8>>::empty());
        assert(failure_keys(Seq::<Failure>::empty()).to_set() =~= Set::<Seq<u8>>::empty());
    }
    let mut ok_count: usize = 0;
    let mut root_mismatch_count: usize = 0;
    let mut failures: Vec<Failure> = Vec::new();
    let n = both.len();
    for i in 0..n
        invariant
            n == both@.len(),
            a == first@,
            b == second@,
            first.wf(),
            second.wf(),
            common == common_names(a, b),
            kb == ref_keys_of(both@),
            kb.no_duplicates(),
            sorted_keys(kb),
            kb.to_set() == common,
            ok_count <= i,
            root_mismatch_count <= i,
            ok_count == kb.take(i as int).to_set().filter(|k: Seq<u8>| roots_match(a, b, k)).len(),
            root_mismatch_count == kb.take(i as int).to_set().filter(|k: Seq<u8>| wants_differ(a, b, k)).len(),
            sorted_keys(failure_keys(failures@)),
            failure_keys(failures@).no_duplicates(),
            failure_keys(failures@).to_set() == kb.take(i as int).to_set().filter(|k: Seq<u8>| roots_fail(a, b, k)),
            forall|j: int| 0 <= j < failures@.len() ==> a[#[trigger] failure_keys(failures@)[j]].0 == failures@[j].first_got@
                && b[failure_keys(failures@)[j]].0 == failures@[j].second_got@,
    {
        let name: &String = *both[i];
        let ghost k = kb[i as int];
        let ghost done = kb.take(i as int).to_set();
        proof {
            assert(name.key() == k);
            assert(kb.to_set().contains(k));
            assert(kb.take(i + 1) =~= kb.take(i as int).push(k));
            kb.take(i as int).lemma_push_to_set_commute(k);
            assert(kb.take(i + 1).to_set() =~= done.insert(k));
            assert(!done.contains(k)) by {
                if done.contains(k) {
                    let j = choose|j: int| 0 <= j < i && kb.take(i as int)[j] == k;
                    assert(kb[j] == kb[i as int]);
                }
            }
            seq_to_set_is_finite(kb.take(i as int));
            lemma_filter_insert(done, k, |k: Seq<u8>| roots_match(a, b, k));
            lemma_filter_insert(done, k, |k: Seq<u8>| wants_differ(a, b, k));
            lemma_filter_insert(done, k, |k: Seq<u8>| roots_fail(a, b, k));
        }
        let ea = match first.get(name) {
            Some(e) => e,
            None => {
                proof {
                    assert(false);
                }
                return LogComparison { ok_count, failures, root_mismatch_count, only_first_count: 0, only_second_count: 0 };
            },
        };
        let eb = match second.get(name) {
            Some(e) => e,
            None => {
                proof {
                    assert(false);
                }
                return LogComparison { ok_count, failures, root_mismatch_count, only_first_count: 0, only_second_count: 0 };
            },
        };
        if ea.want == eb.want {
            if ea.got == eb.got {
                ok_count = ok_count + 1;
            } else {
                let ghost old_f = failures@;
                failures.push(Failure { name: name.clone(), first_got: ea.got.clone(), second_got: eb.got.clone() });
                proof {
                    let fk = failure_keys(failures@);
                    let ofk = failure_keys(old_f);
                    assert(fk =~= ofk.push(k));
                    assert forall|x: int, y: int| 0 <= x < y < fk.len() implies #[trigger] key_le()(fk[x], fk[y]) by {
                        if y == fk.len() - 1 {
                            assert(ofk.to_set().contains(fk[x]));
                            assert(done.contains(fk[x]));
                            let j = choose|j: int| 0 <= j < i && kb.take(i as int)[j] == fk[x];
                            assert(key_le()(kb[j], kb[i as int]));
                        } else {
                            assert(key_le()(ofk[x], ofk[y]));
                        }
                    }
                    assert forall|x: int, y: int| 0 <= x < fk.len() && 0 <= y < fk.len() && x != y implies fk[x] != fk[y] by {
                        if x == fk.len() - 1 || y == fk.len() - 1 {
                            let z = if x == fk.len() - 1 { y } else { x };
                            assert(ofk.to_set().contains(ofk[z]));
                        }
                    }
                    ofk.lemma_push_to_set_commute(k);
                    assert(fk.to_set() =~= ofk.to_set().insert(k));
                    assert forall|j: int| 0 <= j < failures@.len() implies a[#[trigger] fk[j]].0 == failures@[j].first_got@
                        && b[fk[j]].0 == failures@[j].second_got@ by {
                        if j < old_f.len() {
                            assert(failures@[j] == old_f[j]);
                        }
                    }
                }
            }
        } else {
            root_mismatch_count = root_mismatch_count + 1;
        }
    }
    proof {
        assert(kb.take(n as int) =~= kb);
    }
    LogComparison {
        ok_count,
        failures,
        root_mismatch_count,
        only_first_count: ones.len(),
        only_second_count: twos.len(),
    }
}

/// Every test in both logs is counted once: as agreeing, as failing or as
/// wanting different roots; and every test of a log is either in both or
/// in that log only.
pub proof fn lemma_log_comparison_partition(
    a: Map<Seq<u8>, (Seq<char>, Seq<char>)>,
    b: Map<Seq<u8>, (Seq<char>, Seq<char>)>,
    r: LogComparison,
)
    requires
        a.dom().finite(),
        b.dom().finite(),
        is_log_comparison(a, b, r),
    ensures
        r.ok_count + r.failures@.len() + r.root_mismatch_count == common_names(a, b).len(),
        r.only_first_count + common_names(a, b).len() == a.dom().len(),
        r.only_second_count + common_names(a, b).len() == b.dom().len(),
{
    let common = common_names(a, b);
    let ok = common.filter(|k: Seq<u8>| roots_match(a, b, k));
    let fail = common.filter(|k: Seq<u8>| roots_fail(a, b, k));
    let differ = common.filter(|k: Seq<u8>| wants_differ(a, b, k));
    let fk = failure_keys(r.failures@);
    assert(common.finite());
    fk.unique_seq_to_set();
    assert(fail.len() == r.failures@.len());
    assert(ok.disjoint(fail));
    vstd::set_lib::lemma_set_disjoint_lens(ok, fail);
    assert(ok.union(fail).disjoint(differ));
    vstd::set_lib::lemma_set_disjoint_lens(ok.union(fail), differ);
    assert(ok.union(fail).union(differ) =~= common);
    let a_only = a.dom().difference(b.dom());
    assert(a_only.disjoint(common));
    vstd::set_lib::lemma_set_disjoint_lens(a_only, common);
    assert(a_only.union(common) =~= a.dom());
    let b_only = b.dom().difference(a.dom());
    assert(b_only.disjoint(common));
    vstd::set_lib::lemma_set_disjoint_lens(b_only, common);
    assert(b_only.union(common) =~= b.dom());
}

} // verus!
