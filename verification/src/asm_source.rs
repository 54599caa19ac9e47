//! The assembler front end: where the source text comes from, and how the
//! assembled bytecode is written out.

use vstd::prelude::*;
use rustc_hex::ToHex;

verus! {

/// Where the assembler reads its source from.
#[derive(Debug, PartialEq, Eq)]
pub enum AsmSource {
    /// A file, named after the leading `@`.
    File(Vec<char>),
    /// The argument itself, its commas read as line breaks.
    Inline(Vec<char>),
}

/// The text with every comma replaced by a line break.
pub open spec fn commas_to_lines(s: Seq<char>) -> Seq<char> {
    s.map_values(|c: char| if c == ',' { '\n' } else { c })
}

/// Decides where the source comes from: an argument starting with `@`
/// names a file; any other argument is the source, one instruction per
/// comma-separated piece.
pub fn asm_source(code: &[char]) -> (r: AsmSource)
    ensures
        match r {
            AsmSource::File(path) => code@.len() > 0 && code@[0] == '@' && path@ == code@.drop_first(),
            AsmSource::Inline(text) => !(code@.len() > 0 && code@[0] == '@') && text@ == commas_to_lines(code@),
        },
{
    let n = code.len();
    if n > 0 && code[0] == '@' {
        let mut path: Vec<char> = Vec::new();
        for i in 1..n
            invariant
                n == code@.len(),
                1 <= n,
                path@ == code@.subrange(1, i as int),
        {
            path.push(code[i]);
            proof {
                assert(code@.subrange(1, i + 1) =~= code@.subrange(1, i as int).push(code@[i as int]));
            }
        }
        proof {
            assert(code@.subrange(1, n as int) =~= code@.drop_first());
        }
        AsmSource::File(path)
    } else {
        let mut text: Vec<char> = Vec::new();
        for i in 0..n
            invariant
                n == code@.len(),
                text@ == commas_to_lines(code@.take(i as int)),
        {
            let c = code[i];
            text.push(if c == ',' { '\n' } else { c });
            proof {
                assert(commas_to_lines(code@.take(i + 1)) =~= commas_to_lines(code@.take(i as int)).push(
                    if c == ',' { '\n' } else { c },
                ));
            }
        }
        proof {
            assert(code@.take(n as int) =~= code@);
        }
        AsmSource::Inline(text)
    }
}

/// Inline source keeps its length; each comma becomes a line break and
/// every other character stays.
pub proof fn lemma_commas_become_line_breaks(s: Seq<char>)
    ensures
        commas_to_lines(s).len() == s.len(),
        forall|i: int|
            0 <= i < s.len() ==> (s[i] == ',' ==> #[trigger] commas_to_lines(s)[i] == '\n') && (s[i] != ','
                ==> commas_to_lines(s)[i] == s[i]),
        forall|i: int| 0 <= i < s.len() ==> #[trigger] commas_to_lines(s)[i] != ',',
{
}

/// The lower-case hexadecimal digit of value `d`, for `d < 16`.
pub open spec fn hex_char(d: u8) -> char {
    if d < 10 {
        (0x30 + d) as char
    } else {
        (0x61 + d - 10) as char
    }
}

/// The lower-case hexadecimal notation of `bytes`, two digits per byte.
pub open spec fn lower_hex(bytes: Seq<u8>) -> Seq<char>
    decreases bytes.len(),
{
    if bytes.len() == 0 {
        Seq::empty()
    } else {
        lower_hex(bytes.drop_last()).push(hex_char(bytes.last() / 16)).push(hex_char(bytes.last() % 16))
    }
}

/// The lower-case hexadecimal notation of `bytes`.
///
/// Calls `rustc_hex::ToHex::to_hex`, which writes each byte as two digits
/// from `0123456789abcdef`, high nibble first.
#[verifier::external_body]
fn to_hex_string(bytes: &[u8]) -> (s: String)
    ensures
        s@ == lower_hex(bytes@),
{
    bytes.to_hex()
}

/// Writes assembled bytecode out as lower-case hexadecimal.
pub fn bytecode_hex(bytes: &[u8]) -> (s: String)
    ensures
        s@ == lower_hex(bytes@),
        s@.len() == 2 * bytes@.len(),
{
    proof {
        lemma_lower_hex_len(bytes@);
    }
    to_hex_string(bytes)
}

proof fn lemma_lower_hex_len(bytes: Seq<u8>)
    ensures
        lower_hex(bytes).len() == 2 * bytes.len(),
    decreases bytes.len(),
{
    if bytes.len() > 0 {
        lemma_lower_hex_len(bytes.drop_last());
    }
}

} // verus!
