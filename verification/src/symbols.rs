//! The symbol table: NUL-terminated ASCII strings packed one after the
//! other and found by the byte offset at which they start.

use vstd::prelude::*;
use vstd::string::StringSliceAdditionalSpecFns;
use vstd::utf8::{encode_utf8, is_ascii_chars, valid_utf8};

verus! {

/// The index of the first zero byte of `symbols` at or after `at`, or the
/// length of `symbols` if there is none.
pub open spec fn terminator(symbols: Seq<u8>, at: int) -> int
    decreases symbols.len() - at,
{
    if at < 0 || at >= symbols.len() {
        symbols.len() as int
    } else if symbols[at] == 0 {
        at
    } else {
        terminator(symbols, at + 1)
    }
}

/// Whether a symbol can be read at `at`: the offset lies within the table
/// and a zero byte follows.
pub open spec fn terminated(symbols: Seq<u8>, at: int) -> bool {
    0 <= at < symbols.len() && terminator(symbols, at) < symbols.len()
}

/// The bytes of the symbol that starts at `at`: those before its terminator.
pub open spec fn symbol_bytes(symbols: Seq<u8>, at: int) -> Seq<u8> {
    symbols.subrange(at, terminator(symbols, at))
}

/// Whether every byte is an ASCII code.
pub open spec fn is_ascii_bytes(bytes: Seq<u8>) -> bool {
    forall|i: int| 0 <= i < bytes.len() ==> bytes[i] < 0x80
}

/// The characters whose codes are `bytes`.
pub open spec fn ascii_text(bytes: Seq<u8>) -> Seq<char> {
    Seq::new(bytes.len(), |i: int| bytes[i] as char)
}

/// The codes of the characters of `text`.
pub open spec fn ascii_bytes(text: Seq<char>) -> Seq<u8> {
    Seq::new(text.len(), |i: int| text[i] as u8)
}

/// What adding the symbol `text` appends to the table: its codes, and a
/// zero byte unless the last of them is one.
pub open spec fn entry(text: Seq<char>) -> Seq<u8> {
    let bytes = ascii_bytes(text);
    if bytes.len() > 0 && bytes.last() == 0 {
        bytes
    } else {
        bytes.push(0u8)
    }
}

/// The terminator lies at or after `at`, holds a zero byte if it lies
/// within the table, and no zero byte stands between `at` and it.
pub proof fn lemma_terminator(symbols: Seq<u8>, at: int)
    requires
        0 <= at <= symbols.len(),
    ensures
        at <= terminator(symbols, at) <= symbols.len(),
        terminator(symbols, at) < symbols.len() ==> symbols[terminator(symbols, at)] == 0,
        forall|k: int| at <= k < terminator(symbols, at) ==> symbols[k] != 0,
    decreases symbols.len() - at,
{
    if at < symbols.len() && symbols[at] != 0 {
        lemma_terminator(symbols, at + 1);
    }
}

/// The terminator is the first zero byte: a zero byte at `end` with none
/// between `at` and `end` is the terminator for `at`.
pub proof fn lemma_terminator_is(symbols: Seq<u8>, at: int, end: int)
    requires
        0 <= at <= end < symbols.len(),
        symbols[end] == 0,
        forall|k: int| at <= k < end ==> symbols[k] != 0,
    ensures
        terminator(symbols, at) == end,
    decreases end - at,
{
    if at < end {
        lemma_terminator_is(symbols, at + 1, end);
    }
}

/// ASCII text is the text of its own codes, and its codes are its UTF-8
/// encoding.
pub proof fn lemma_ascii_text_bytes(text: Seq<char>)
    requires
        is_ascii_chars(text),
    ensures
        is_ascii_bytes(ascii_bytes(text)),
        ascii_text(ascii_bytes(text)) == text,
        encode_utf8(text) == ascii_bytes(text),
{
    vstd::utf8::is_ascii_chars_encode_utf8(text);
    assert(ascii_text(ascii_bytes(text)) =~= text);
    assert(encode_utf8(text) =~= ascii_bytes(text));
}

/// ASCII codes are the codes of their own text, which is ASCII text.
pub proof fn lemma_ascii_bytes_text(bytes: Seq<u8>)
    requires
        is_ascii_bytes(bytes),
    ensures
        is_ascii_chars(ascii_text(bytes)),
        ascii_bytes(ascii_text(bytes)) == bytes,
        encode_utf8(ascii_text(bytes)) == bytes,
{
    assert(ascii_bytes(ascii_text(bytes)) =~= bytes);
    lemma_ascii_text_bytes(ascii_text(bytes));
}

/// `core::str::from_utf8`, with its error dropped: the bytes as a string
/// slice if they are valid UTF-8, and nothing if they are not. The string
/// slice, where there is one, is made of exactly those bytes.
#[verifier::external_body]
fn utf8_str(bytes: &[u8]) -> (r: Option<&str>)
    ensures
        r is Some <==> valid_utf8(bytes@),
        r matches Some(s) ==> s.spec_bytes() == bytes@,
{
    core::str::from_utf8(bytes).ok()
}

/// Appends `symbol` to the table, with a terminating zero byte unless
/// `symbol` ends with one, and returns the offset at which it starts.
pub fn add(symbols: &mut Vec<u8>, symbol: &str) -> (offset: u32)
    requires
        symbol.is_ascii(),
        old(symbols)@.len() <= u32::MAX,
    ensures
        offset == old(symbols)@.len(),
        final(symbols)@ == old(symbols)@ + entry(symbol@),
{
    let offset = symbols.len() as u32;
    let bytes = symbol.as_bytes();
    proof {
        lemma_ascii_text_bytes(symbol@);
    }
    symbols.extend_from_slice(bytes);
    if bytes.len() == 0 || bytes[bytes.len() - 1] != 0 {
        symbols.push(0);
    }
    assert(symbols@ =~= old(symbols)@ + entry(symbol@));
    offset
}

/// Reads the symbol that starts at `at`: the bytes up to the next zero
/// byte, as a string if all of them are ASCII codes.
pub fn read(symbols: &Vec<u8>, at: u32) -> (r: Option<&str>)
    requires
        terminated(symbols@, at as int),
    ensures
        r is Some <==> is_ascii_bytes(symbol_bytes(symbols@, at as int)),
        r matches Some(s) ==> s@ == ascii_text(symbol_bytes(symbols@, at as int)),
{
    let start = at as usize;
    let mut end = start;
    proof {
        lemma_terminator(symbols@, at as int);
    }
    while symbols[end] != 0
        invariant
            start <= end < symbols.len(),
            end <= terminator(symbols@, start as int) < symbols@.len(),
            symbols@[terminator(symbols@, start as int)] == 0,
            forall|k: int| start <= k < terminator(symbols@, start as int) ==> symbols@[k] != 0,
        decreases symbols.len() - end,
    {
        end = end + 1;
    }
    let bytes = &symbols.as_slice()[start..end];
    assert(bytes@ == symbol_bytes(symbols@, at as int));
    match utf8_str(bytes) {
        Some(s) => {
            proof {
                vstd::utf8::encode_utf8_decode_utf8(s@);
                if s.is_ascii() {
                    lemma_ascii_text_bytes(s@);
                }
                if is_ascii_bytes(bytes@) {
                    lemma_ascii_bytes_text(bytes@);
                    vstd::utf8::encode_utf8_decode_utf8(ascii_text(bytes@));
                }
            }
            if s.is_ascii() {
                Some(s)
            } else {
                None
            }
        },
        None => {
            proof {
                if is_ascii_bytes(bytes@) {
                    lemma_ascii_bytes_text(bytes@);
                    vstd::utf8::encode_utf8_valid_utf8(ascii_text(bytes@));
                }
            }
            None
        },
    }
}

} // verus!
