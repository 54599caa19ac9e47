//! The list of contract addresses scraped from the chain, as it is written
//! to disk: the debug form of a set, `{0xab.., 0xcd..}`. Reading it back
//! drops the braces, the spaces and the `0x` prefixes, then splits at the
//! commas.

use vstd::prelude::*;
use std::str::FromStr;
use web3::types::Address;
use crate::asm_source::{lower_hex, hex_char};
use crate::contract_scrape::{joined_addresses, set_text};

verus! {

/// How many entries of the list are used.
pub const MAX_CONTRACTS: usize = 14000;

/// A character that reading the list drops.
pub open spec fn is_dropped(c: char) -> bool {
    c == '{' || c == '}' || c == ' '
}

/// The text without braces and spaces.
pub open spec fn without_dropped(s: Seq<char>) -> Seq<char>
    decreases s.len(),
{
    if s.len() == 0 {
        s
    } else if is_dropped(s.last()) {
        without_dropped(s.drop_last())
    } else {
        without_dropped(s.drop_last()).push(s.last())
    }
}

/// The text with every `0x` removed, scanning left to right without
/// looking again at what a removal brings together, as `str::replace`
/// does.
pub open spec fn without_hex_prefixes(s: Seq<char>) -> Seq<char>
    decreases s.len(),
{
    if s.len() < 2 {
        s
    } else if s[0] == '0' && s[1] == 'x' {
        without_hex_prefixes(s.skip(2))
    } else {
        seq![s[0]] + without_hex_prefixes(s.drop_first())
    }
}

/// The pieces of the text between commas; an empty text is one empty
/// piece, as `str::split` gives.
pub open spec fn split_at_commas(s: Seq<char>) -> Seq<Seq<char>>
    decreases s.len(),
{
    if s.len() == 0 {
        seq![Seq::empty()]
    } else {
        let rest = split_at_commas(s.drop_last());
        if s.last() == ',' {
            rest.push(Seq::empty())
        } else {
            rest.update(rest.len() - 1, rest.last().push(s.last()))
        }
    }
}

proof fn lemma_split_nonempty(s: Seq<char>)
    ensures
        split_at_commas(s).len() >= 1,
    decreases s.len(),
{
    if s.len() > 0 {
        lemma_split_nonempty(s.drop_last());
    }
}

/// The entries of a contract list text, at most `MAX_CONTRACTS` of them.
pub open spec fn contract_entries(text: Seq<char>) -> Seq<Seq<char>> {
    let pieces = split_at_commas(without_hex_prefixes(without_dropped(text)));
    if pieces.len() <= MAX_CONTRACTS {
        pieces
    } else {
        pieces.take(MAX_CONTRACTS as int)
    }
}

/// The characters of each piece.
pub open spec fn pieces_view(v: Seq<Vec<char>>) -> Seq<Seq<char>> {
    v.map_values(|p: Vec<char>| p@)
}

fn drop_braces_and_spaces(text: &[char]) -> (r: Vec<char>)
    ensures
        r@ == without_dropped(text@),
{
    let mut r: Vec<char> = Vec::new();
    let n = text.len();
    for i in 0..n
        invariant
            n == text@.len(),
            r@ == without_dropped(text@.take(i as int)),
    {
        let c = text[i];
        proof {
            assert(text@.take(i + 1).drop_last() =~= text@.take(i as int));
        }
        if !(c == '{' || c == '}' || c == ' ') {
            r.push(c);
        }
    }
    proof {
        assert(text@.take(n as int) =~= text@);
    }
    r
}

fn drop_hex_prefixes(s: &[char]) -> (r: Vec<char>)
    ensures
        r@ == without_hex_prefixes(s@),
{
    let mut r: Vec<char> = Vec::new();
    let n = s.len();
    let mut i: usize = 0;
    proof {
        assert(s@.skip(0) =~= s@);
    }
    while i < n
        invariant
            n == s@.len(),
            i <= n,
            r@ + without_hex_prefixes(s@.skip(i as int)) == without_hex_prefixes(s@),
        decreases n - i,
    {
        let ghost rest = s@.skip(i as int);
        if i + 1 < n && s[i] == '0' && s[i + 1] == 'x' {
            proof {
                assert(rest[0] == '0' && rest[1] == 'x');
                assert(rest.skip(2) =~= s@.skip(i + 2));
            }
            i = i + 2;
        } else {
            proof {
                assert(rest.drop_first() =~= s@.skip(i + 1));
                if rest.len() >= 2 {
                    assert(rest[0] == s@[i as int] && rest[1] == s@[i + 1]);
                }
                assert(r@.push(s@[i as int]) + without_hex_prefixes(s@.skip(i + 1)) =~= r@ + (seq![rest[0]]
                    + without_hex_prefixes(rest.drop_first())));
                if rest.len() < 2 {
                    assert(rest =~= seq![rest[0]]);
                    assert(s@.skip(i + 1) =~= Seq::<char>::empty());
                }
            }
            r.push(s[i]);
            i = i + 1;
        }
    }
    proof {
        assert(s@.skip(n as int) =~= Seq::<char>::empty());
        assert(r@ + Seq::<char>::empty() =~= r@);
    }
    r
}

fn split_commas(s: &[char]) -> (r: Vec<Vec<char>>)
    ensures
        pieces_view(r@) == split_at_commas(s@),
{
    let mut pieces: Vec<Vec<char>> = Vec::new();
    let mut current: Vec<char> = Vec::new();
    let n = s.len();
    proof {
        assert(s@.take(0) =~= Seq::<char>::empty());
        assert(pieces_view(pieces@).push(current@) =~= split_at_commas(s@.take(0)));
    }
    for i in 0..n
        invariant
            n == s@.len(),
            pieces_view(pieces@).push(current@) == split_at_commas(s@.take(i as int)),
    {
        let c = s[i];
        let ghost before = pieces_view(pieces@).push(current@);
        proof {
            assert(s@.take(i + 1).drop_last() =~= s@.take(i as int));
            assert(s@.take(i + 1).last() == c);
        }
        if c == ',' {
            let done = current;
            current = Vec::new();
            pieces.push(done);
            proof {
                assert(pieces_view(pieces@) =~= before);
                assert(pieces_view(pieces@).push(current@) =~= before.push(Seq::empty()));
            }
        } else {
            current.push(c);
            proof {
                assert(pieces_view(pieces@).push(current@) =~= before.update(before.len() - 1, before.last().push(c)));
            }
        }
    }
    pieces.push(current);
    proof {
        assert(s@.take(n as int) =~= s@);
        assert(pieces_view(pieces@) =~= split_at_commas(s@));
    }
    pieces
}

/// Reads the entries of a contract list text: drops braces and spaces,
/// then every `0x`, splits at the commas and keeps at most the first
/// `MAX_CONTRACTS` pieces.
pub fn contract_list_entries(text: &[char]) -> (r: Vec<Vec<char>>)
    ensures
        pieces_view(r@) == contract_entries(text@),
{
    let kept = drop_braces_and_spaces(text);
    let plain = drop_hex_prefixes(kept.as_slice());
    let mut pieces = split_commas(plain.as_slice());
    if pieces.len() > MAX_CONTRACTS {
        pieces.truncate(MAX_CONTRACTS);
        proof {
            assert(pieces_view(pieces@) =~= split_at_commas(plain@).take(MAX_CONTRACTS as int));
        }
    }
    pieces
}

/// A character that hexadecimal decoding skips.
pub open spec fn is_hex_space(c: char) -> bool {
    c == ' ' || c == '\r' || c == '\n' || c == '\t'
}

/// The value of a hexadecimal digit of either case.
pub open spec fn hex_char_value(c: char) -> Option<nat> {
    if '0' <= c <= '9' {
        Some((c as int - '0' as int) as nat)
    } else if 'a' <= c <= 'f' {
        Some((c as int - 'a' as int + 10) as nat)
    } else if 'A' <= c <= 'F' {
        Some((c as int - 'A' as int + 10) as nat)
    } else {
        None
    }
}

/// The digits of an entry: its characters but the skipped ones.
pub open spec fn address_digits(entry: Seq<char>) -> Seq<char> {
    entry.filter(|c: char| !is_hex_space(c))
}

/// The 20 bytes of an address written as 40 hexadecimal digits, spaces,
/// tabs and line breaks aside, two digits per byte, high digit first; none
/// for anything else.
pub open spec fn address_bytes(entry: Seq<char>) -> Option<Seq<u8>> {
    let d = address_digits(entry);
    if d.len() == 40 && forall|k: int| 0 <= k < 40 ==> (#[trigger] hex_char_value(d[k])) is Some {
        Some(
            Seq::new(
                20,
                |i: int| (hex_char_value(d[2 * i])->0 * 16 + hex_char_value(d[2 * i + 1])->0) as u8,
            ),
        )
    } else {
        None
    }
}

/// The address an entry of the list writes.
///
/// Calls `web3::types::Address::from_str`: fixed-hash's `from_str` decodes
/// the text with rustc-hex's `FromHex::from_hex`, which skips spaces, tabs
/// and line breaks, pairs the remaining hexadecimal digits of either case
/// into bytes and refuses any other character or an odd count; the address
/// must then have exactly 20 bytes.
#[verifier::external_body]
fn address_from_chars(entry: &[char]) -> (r: Option<Vec<u8>>)
    ensures
        match r {
            Some(v) => address_bytes(entry@) == Some(v@),
            None => address_bytes(entry@) is None,
        },
{
    let text: String = entry.iter().collect();
    match Address::from_str(&text) {
        Ok(a) => Some(a.as_bytes().to_vec()),
        Err(_) => None,
    }
}

/// Every entry of the list writes an address.
pub open spec fn entries_are_addresses(entries: Seq<Seq<char>>) -> bool {
    forall|k: int| 0 <= k < entries.len() ==> (#[trigger] address_bytes(entries[k])) is Some
}

/// The addresses of the entries.
pub open spec fn entry_addresses(entries: Seq<Seq<char>>) -> Seq<Seq<u8>> {
    entries.map_values(|e: Seq<char>| address_bytes(e)->0)
}

/// The bytes of each address.
pub open spec fn addresses_view(v: Seq<Vec<u8>>) -> Seq<Seq<u8>> {
    v.map_values(|a: Vec<u8>| a@)
}

/// Reads the addresses of a contract list text, each entry 40 hexadecimal
/// digits. Every entry must write an address.
pub fn contract_addresses(text: &[char]) -> (r: Vec<Vec<u8>>)
    requires
        entries_are_addresses(contract_entries(text@)),
    ensures
        addresses_view(r@) == entry_addresses(contract_entries(text@)),
{
    let entries = contract_list_entries(text);
    let ghost es = contract_entries(text@);
    let mut out: Vec<Vec<u8>> = Vec::new();
    let n = entries.len();
    for k in 0..n
        invariant
            n == entries@.len(),
            pieces_view(entries@) == es,
            entries_are_addresses(es),
            addresses_view(out@) == entry_addresses(es).take(k as int),
    {
        proof {
            assert(es[k as int] == entries@[k as int]@);
            assert(address_bytes(es[k as int]) is Some);
        }
        match address_from_chars(entries[k].as_slice()) {
            Some(a) => {
                let ghost before = addresses_view(out@);
                out.push(a);
                proof {
                    assert(addresses_view(out@) =~= before.push(a@));
                    assert(entry_addresses(es).take(k + 1) =~= entry_addresses(es).take(k as int).push(
                        address_bytes(es[k as int])->0,
                    ));
                }
            },
            None => {
                proof {
                    assert(false);
                }
            },
        }
    }
    proof {
        assert(entry_addresses(es).take(n as int) =~= entry_addresses(es));
    }
    out
}

/// Reads the addresses of a contract list text whatever its entries: none
/// where an entry does not write an address, else what
/// `contract_addresses` gives.
pub fn contract_addresses_checked(text: &[char]) -> (r: Option<Vec<Vec<u8>>>)
    ensures
        match r {
            None => !entries_are_addresses(contract_entries(text@)),
            Some(v) => entries_are_addresses(contract_entries(text@)) && addresses_view(v@) == entry_addresses(
                contract_entries(text@),
            ),
        },
{
    let entries = contract_list_entries(text);
    let ghost es = contract_entries(text@);
    let n = entries.len();
    for k in 0..n
        invariant
            n == entries@.len(),
            pieces_view(entries@) == es,
            es == contract_entries(text@),
            forall|j: int| 0 <= j < k ==> (#[trigger] address_bytes(es[j])) is Some,
    {
        proof {
            assert(es[k as int] == entries@[k as int]@);
        }
        if address_from_chars(entries[k].as_slice()).is_none() {
            proof {
                assert(address_bytes(es[k as int]) is None);
                assert(!entries_are_addresses(es));
            }
            return None;
        }
    }
    Some(contract_addresses(text))
}

/// Dropping braces and spaces works piece by piece.
proof fn lemma_without_dropped_concat(a: Seq<char>, b: Seq<char>)
    ensures
        without_dropped(a + b) == without_dropped(a) + without_dropped(b),
    decreases b.len(),
{
    if b.len() == 0 {
        assert(a + b =~= a);
        assert(without_dropped(a) + without_dropped(b) =~= without_dropped(a));
    } else {
        assert((a + b).drop_last() =~= a + b.drop_last());
        assert((a + b).last() == b.last());
        lemma_without_dropped_concat(a, b.drop_last());
        if is_dropped(b.last()) {
        } else {
            assert(without_dropped(a) + without_dropped(b.drop_last()).push(b.last()) =~= (without_dropped(a)
                + without_dropped(b.drop_last())).push(b.last()));
        }
    }
}

/// Dropping braces and spaces, one character more.
proof fn lemma_without_dropped_push(s: Seq<char>, c: char)
    ensures
        without_dropped(s.push(c)) == if is_dropped(c) {
            without_dropped(s)
        } else {
            without_dropped(s).push(c)
        },
{
    assert(s.push(c).drop_last() =~= s);
}

/// A text without braces and spaces is kept as it is.
proof fn lemma_without_dropped_keeps(s: Seq<char>)
    requires
        forall|i: int| 0 <= i < s.len() ==> !is_dropped(#[trigger] s[i]),
    ensures
        without_dropped(s) == s,
    decreases s.len(),
{
    if s.len() > 0 {
        lemma_without_dropped_keeps(s.drop_last());
        assert(s.drop_last().push(s.last()) =~= s);
    }
}

/// Removing `0x` works piece by piece where no `0x` spans the seam.
proof fn lemma_without_hex_prefixes_concat(a: Seq<char>, b: Seq<char>)
    requires
        b.len() == 0 || b[0] != 'x',
    ensures
        without_hex_prefixes(a + b) == without_hex_prefixes(a) + without_hex_prefixes(b),
    decreases a.len(),
{
    if a.len() == 0 {
        assert(a + b =~= b);
        assert(without_hex_prefixes(a) + without_hex_prefixes(b) =~= without_hex_prefixes(b));
    } else if a.len() == 1 {
        if b.len() == 0 {
            assert(a + b =~= a);
            assert(without_hex_prefixes(a) + without_hex_prefixes(b) =~= without_hex_prefixes(a));
        } else {
            assert((a + b)[1] == b[0]);
            assert((a + b).drop_first() =~= b);
            assert(seq![(a + b)[0]] =~= a);
        }
    } else {
        assert((a + b)[0] == a[0] && (a + b)[1] == a[1]);
        if a[0] == '0' && a[1] == 'x' {
            assert((a + b).skip(2) =~= a.skip(2) + b);
            lemma_without_hex_prefixes_concat(a.skip(2), b);
        } else {
            assert((a + b).drop_first() =~= a.drop_first() + b);
            lemma_without_hex_prefixes_concat(a.drop_first(), b);
            assert(seq![a[0]] + (without_hex_prefixes(a.drop_first()) + without_hex_prefixes(b)) =~= (seq![a[0]]
                + without_hex_prefixes(a.drop_first())) + without_hex_prefixes(b));
        }
    }
}

/// A text without `x` is kept as it is.
proof fn lemma_without_hex_prefixes_keeps(s: Seq<char>)
    requires
        forall|i: int| 0 <= i < s.len() ==> #[trigger] s[i] != 'x',
    ensures
        without_hex_prefixes(s) == s,
    decreases s.len(),
{
    if s.len() >= 2 {
        assert(s[1] != 'x');
        lemma_without_hex_prefixes_keeps(s.drop_first());
        assert(seq![s[0]] + s.drop_first() =~= s);
    }
}

/// A piece without commas, after a comma, is one more piece.
proof fn lemma_split_after_comma(a: Seq<char>, h: Seq<char>)
    requires
        forall|i: int| 0 <= i < h.len() ==> #[trigger] h[i] != ',',
    ensures
        split_at_commas(a + seq![','] + h) == split_at_commas(a).push(h),
    decreases h.len(),
{
    if h.len() == 0 {
        let t = a + seq![','] + h;
        assert(h =~= Seq::<char>::empty());
        assert(t.drop_last() =~= a);
        assert(t.last() == ',');
    } else {
        let t = a + seq![','] + h;
        let h0 = h.drop_last();
        assert(t.drop_last() =~= a + seq![','] + h0);
        assert(t.last() == h.last());
        assert forall|i: int| 0 <= i < h0.len() implies #[trigger] h0[i] != ',' by {
            assert(h0[i] == h[i]);
        }
        lemma_split_after_comma(a, h0);
        assert(h.last() != ',');
        assert(h0.push(h.last()) =~= h);
        let rest = split_at_commas(a).push(h0);
        assert(split_at_commas(t) == rest.update(rest.len() - 1, rest.last().push(t.last())));
        assert(rest.update(rest.len() - 1, h) =~= split_at_commas(a).push(h));
    }
}

/// A text without commas is one piece.
proof fn lemma_split_single(h: Seq<char>)
    requires
        forall|i: int| 0 <= i < h.len() ==> #[trigger] h[i] != ',',
    ensures
        split_at_commas(h) == seq![h],
    decreases h.len(),
{
    if h.len() > 0 {
        let h0 = h.drop_last();
        assert forall|i: int| 0 <= i < h0.len() implies #[trigger] h0[i] != ',' by {
            assert(h0[i] == h[i]);
        }
        lemma_split_single(h0);
        assert(h0.push(h.last()) =~= h);
        assert(h.last() != ',');
        let rest = split_at_commas(h0);
        assert(rest.len() == 1 && rest.last() == h0);
        assert(split_at_commas(h) == rest.update(0, h0.push(h.last())));
        assert(rest.update(0, h) =~= seq![h]);
    } else {
        assert(h =~= Seq::<char>::empty());
    }
}

/// A hexadecimal digit is `0` to `9` or `a` to `f`.
proof fn lemma_hex_char_range(d: u8)
    requires
        d < 16,
    ensures
        ('0' <= hex_char(d) <= '9') || ('a' <= hex_char(d) <= 'f'),
{
    if d < 10 {
        assert(0x30 <= (0x30 + d) as char <= 0x39);
    } else {
        assert(0x61 <= (0x61 + d - 10) as char <= 0x66);
    }
}

/// Hexadecimal notation uses the digits and `a` to `f` only.
proof fn lemma_lower_hex_chars(bytes: Seq<u8>)
    ensures
        forall|i: int| 0 <= i < lower_hex(bytes).len() ==> {
            let c = #[trigger] lower_hex(bytes)[i];
            ('0' <= c <= '9') || ('a' <= c <= 'f')
        },
    decreases bytes.len(),
{
    if bytes.len() > 0 {
        let prev = lower_hex(bytes.drop_last());
        lemma_lower_hex_chars(bytes.drop_last());
        let b = bytes.last();
        lemma_hex_char_range(b / 16);
        lemma_hex_char_range(b % 16);
        let whole = prev.push(hex_char(b / 16)).push(hex_char(b % 16));
        assert(lower_hex(bytes) == whole);
        assert forall|i: int| 0 <= i < whole.len() implies {
            let c = #[trigger] whole[i];
            ('0' <= c <= '9') || ('a' <= c <= 'f')
        } by {
            if i < prev.len() {
                assert(whole[i] == prev[i]);
            }
        }
    }
}

/// The addresses joined by commas, each in hexadecimal without a prefix.
spec fn plain_joined(addrs: Seq<Seq<u8>>) -> Seq<char>
    decreases addrs.len(),
{
    if addrs.len() == 0 {
        Seq::empty()
    } else if addrs.len() == 1 {
        lower_hex(addrs[0])
    } else {
        plain_joined(addrs.drop_last()) + seq![','] + lower_hex(addrs.last())
    }
}

/// Reading the joined addresses gives each address's hexadecimal notation.
proof fn lemma_joined_reads_back(addrs: Seq<Seq<u8>>)
    requires
        addrs.len() >= 1,
    ensures
        without_hex_prefixes(without_dropped(joined_addresses(addrs))) == plain_joined(addrs),
        split_at_commas(plain_joined(addrs)) == addrs.map_values(|a: Seq<u8>| lower_hex(a)),
    decreases addrs.len(),
{
    let h = lower_hex(addrs.last());
    lemma_lower_hex_chars(addrs.last());
    assert forall|i: int| 0 <= i < h.len() implies !is_dropped(#[trigger] h[i]) && h[i] != 'x' && h[i] != ',' by {
        let c = h[i];
        assert(('0' <= c <= '9') || ('a' <= c <= 'f'));
    }
    lemma_without_dropped_keeps(h);
    lemma_without_hex_prefixes_keeps(h);
    let prefix = seq!['0', 'x'];
    lemma_without_dropped_keeps(prefix);
    assert(prefix.skip(2) =~= Seq::<char>::empty());
    assert(prefix.len() == 2 && prefix[0] == '0' && prefix[1] == 'x');
    assert(without_hex_prefixes(Seq::<char>::empty()) =~= Seq::<char>::empty());
    assert(without_hex_prefixes(prefix) == without_hex_prefixes(prefix.skip(2)));
    assert(without_hex_prefixes(prefix) =~= Seq::<char>::empty());
    if addrs.len() == 1 {
        assert(addrs[0] == addrs.last());
        lemma_without_dropped_concat(prefix, h);
        lemma_without_hex_prefixes_concat(prefix, h);
        assert(without_hex_prefixes(prefix + h) =~= h);
        lemma_split_single(h);
        assert(addrs.map_values(|a: Seq<u8>| lower_hex(a)) =~= seq![h]);
    } else {
        let rest = addrs.drop_last();
        lemma_joined_reads_back(rest);
        let sep = seq![',', ' ', '0', 'x'];
        assert(without_dropped(sep) =~= seq![',', '0', 'x']) by {
            let e = Seq::<char>::empty();
            assert(without_dropped(e) =~= e);
            lemma_without_dropped_push(e, ',');
            lemma_without_dropped_push(e.push(','), ' ');
            lemma_without_dropped_push(e.push(',').push(' '), '0');
            lemma_without_dropped_push(e.push(',').push(' ').push('0'), 'x');
            assert(sep =~= e.push(',').push(' ').push('0').push('x'));
        }
        lemma_without_dropped_concat(joined_addresses(rest) + sep, h);
        lemma_without_dropped_concat(joined_addresses(rest), sep);
        let wr = without_dropped(joined_addresses(rest));
        let tail = seq![',', '0', 'x'] + h;
        assert(without_dropped(joined_addresses(addrs)) =~= wr + tail);
        lemma_without_hex_prefixes_concat(wr, tail);
        assert(tail.drop_first() =~= prefix + h);
        assert(tail.len() >= 2 && tail[0] == ',' && tail[1] == '0');
        lemma_without_hex_prefixes_concat(prefix, h);
        assert(without_hex_prefixes(tail) =~= seq![','] + h);
        assert(plain_joined(rest) + (seq![','] + h) =~= plain_joined(addrs));
        lemma_split_after_comma(plain_joined(rest), h);
        assert(addrs.map_values(|a: Seq<u8>| lower_hex(a)) =~= rest.map_values(|a: Seq<u8>| lower_hex(a)).push(h));
    }
}

/// The saved text of a nonempty list of at most `MAX_CONTRACTS` addresses
/// reads back as the hexadecimal notation of each address, in order.
pub proof fn lemma_saved_list_reads_back(addrs: Seq<Seq<u8>>)
    requires
        1 <= addrs.len() <= MAX_CONTRACTS,
    ensures
        contract_entries(set_text(addrs)) == addrs.map_values(|a: Seq<u8>| lower_hex(a)),
{
    let open_brace = seq!['{'];
    let close_brace = seq!['}'];
    lemma_without_dropped_concat(open_brace + joined_addresses(addrs), close_brace);
    lemma_without_dropped_concat(open_brace, joined_addresses(addrs));
    assert(open_brace.drop_last() =~= Seq::<char>::empty() && open_brace.last() == '{');
    assert(close_brace.drop_last() =~= Seq::<char>::empty() && close_brace.last() == '}');
    let e = Seq::<char>::empty();
    assert(without_dropped(e) =~= e);
    lemma_without_dropped_push(e, '{');
    lemma_without_dropped_push(e, '}');
    assert(open_brace =~= e.push('{'));
    assert(close_brace =~= e.push('}'));
    assert(without_dropped(set_text(addrs)) =~= without_dropped(joined_addresses(addrs)));
    lemma_joined_reads_back(addrs);
}

/// The digits of a byte string's notation: two per byte, high first.
proof fn lemma_lower_hex_digits(bytes: Seq<u8>)
    ensures
        lower_hex(bytes).len() == 2 * bytes.len(),
        forall|i: int|
            0 <= i < bytes.len() ==> lower_hex(bytes)[2 * i] == hex_char(#[trigger] bytes[i] / 16) && lower_hex(
                bytes,
            )[2 * i + 1] == hex_char(bytes[i] % 16),
    decreases bytes.len(),
{
    if bytes.len() > 0 {
        let prev = bytes.drop_last();
        lemma_lower_hex_digits(prev);
        assert forall|i: int| 0 <= i < bytes.len() implies lower_hex(bytes)[2 * i] == hex_char(
            #[trigger] bytes[i] / 16,
        ) && lower_hex(bytes)[2 * i + 1] == hex_char(bytes[i] % 16) by {
            if i < prev.len() {
                assert(prev[i] == bytes[i]);
            }
        }
    }
}

/// A digit that hexadecimal notation writes reads back as its value.
proof fn lemma_hex_char_value(d: u8)
    requires
        d < 16,
    ensures
        hex_char_value(hex_char(d)) == Some(d as nat),
{
    if d < 10 {
        assert(((0x30 + d) as char) as int == 0x30 + d);
    } else {
        assert(((0x61 + d - 10) as char) as int == 0x61 + d - 10);
    }
}

/// A text without spaces, tabs or line breaks keeps all its digits.
proof fn lemma_no_spaces_digits(s: Seq<char>)
    requires
        forall|k: int| 0 <= k < s.len() ==> !is_hex_space(#[trigger] s[k]),
    ensures
        address_digits(s) == s,
    decreases s.len(),
{
    if s.len() > 0 {
        let prev = s.drop_last();
        lemma_no_spaces_digits(prev);
        prev.lemma_filter_push(s.last(), |c: char| !is_hex_space(c));
        assert(prev.push(s.last()) =~= s);
    }
}

/// The notation of 20 bytes reads back as those bytes.
proof fn lemma_address_reads_back(a: Seq<u8>)
    requires
        a.len() == 20,
    ensures
        address_bytes(lower_hex(a)) == Some(a),
{
    let h = lower_hex(a);
    lemma_lower_hex_digits(a);
    lemma_lower_hex_chars(a);
    assert forall|k: int| 0 <= k < h.len() implies !is_hex_space(#[trigger] h[k]) by {
        let c = h[k];
        assert(('0' <= c <= '9') || ('a' <= c <= 'f'));
    }
    lemma_no_spaces_digits(h);
    assert forall|i: int| 0 <= i < 20 implies hex_char_value(h[2 * i]) == Some((a[i] / 16) as nat) && hex_char_value(
        h[2 * i + 1],
    ) == Some((a[i] % 16) as nat) by {
        lemma_hex_char_value(a[i] / 16);
        lemma_hex_char_value(a[i] % 16);
    }
    assert forall|k: int| 0 <= k < 40 implies (#[trigger] hex_char_value(h[k])) is Some by {
        let i = k / 2;
        assert(k == 2 * i || k == 2 * i + 1);
        assert(hex_char_value(h[2 * i]) is Some && hex_char_value(h[2 * i + 1]) is Some);
    }
    let bytes = Seq::new(
        20,
        |i: int| (hex_char_value(h[2 * i])->0 * 16 + hex_char_value(h[2 * i + 1])->0) as u8,
    );
    assert forall|i: int| 0 <= i < 20 implies bytes[i] == a[i] by {
        assert(hex_char_value(h[2 * i]) == Some((a[i] / 16) as nat));
        assert(hex_char_value(h[2 * i + 1]) == Some((a[i] % 16) as nat));
        assert((a[i] / 16) * 16 + a[i] % 16 == a[i]);
    }
    assert(bytes =~= a);
}

/// The saved text of a nonempty list of at most `MAX_CONTRACTS` addresses,
/// each of 20 bytes, reads back as those addresses, in order.
pub proof fn lemma_saved_addresses_read_back(addrs: Seq<Seq<u8>>)
    requires
        1 <= addrs.len() <= MAX_CONTRACTS,
        forall|k: int| 0 <= k < addrs.len() ==> (#[trigger] addrs[k]).len() == 20,
    ensures
        entries_are_addresses(contract_entries(set_text(addrs))),
        entry_addresses(contract_entries(set_text(addrs))) == addrs,
{
    lemma_saved_list_reads_back(addrs);
    let es = contract_entries(set_text(addrs));
    assert forall|k: int| 0 <= k < es.len() implies (#[trigger] address_bytes(es[k])) == Some(addrs[k]) by {
        assert(es[k] == lower_hex(addrs[k]));
        lemma_address_reads_back(addrs[k]);
    }
    assert(entry_addresses(es) =~= addrs);
}

} // verus!
