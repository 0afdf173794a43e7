use vstd::prelude::*;

verus! {

/// Number of symbols in the alphabet.
pub const ALPHABET_LEN: usize = 64;

/// Whether `c` is one of the 64 symbols `a-z A-Z 0-9 - _`.
pub open spec fn is_symbol(c: char) -> bool {
    ('a' <= c && c <= 'z') || ('A' <= c && c <= 'Z') || ('0' <= c && c <= '9') || c == '-' || c
        == '_'
}

/// Position of a symbol in the alphabet: lowercase letters first, then uppercase letters, then
/// digits, then `-` and `_`.
pub open spec fn symbol_index(c: char) -> int {
    if 'a' <= c && c <= 'z' {
        c as int - 'a' as int
    } else if 'A' <= c && c <= 'Z' {
        c as int - 'A' as int + 26
    } else if '0' <= c && c <= '9' {
        c as int - '0' as int + 52
    } else if c == '-' {
        62
    } else {
        63
    }
}

/// The symbol at position `i` of the alphabet.
pub open spec fn symbol(i: int) -> char {
    if i < 26 {
        (i + 'a' as int) as char
    } else if i < 52 {
        (i - 26 + 'A' as int) as char
    } else if i < 62 {
        (i - 52 + '0' as int) as char
    } else if i == 62 {
        '-'
    } else {
        '_'
    }
}

pub proof fn lemma_symbol_index(i: int)
    requires
        0 <= i < 64,
    ensures
        is_symbol(symbol(i)),
        symbol_index(symbol(i)) == i,
{
}

pub proof fn lemma_index_symbol(c: char)
    requires
        is_symbol(c),
    ensures
        0 <= symbol_index(c) < 64,
        symbol(symbol_index(c)) == c,
{
}

/// Returns the position of `c` in the alphabet, or `None` when `c` is not a symbol.
pub fn index_of(c: char) -> (r: Option<usize>)
    ensures
        r == (if is_symbol(c) { Some(symbol_index(c) as usize) } else { None::<usize> }),
{
    if 'a' <= c && c <= 'z' {
        Some((c as u32 - 'a' as u32) as usize)
    } else if 'A' <= c && c <= 'Z' {
        Some((c as u32 - 'A' as u32 + 26) as usize)
    } else if '0' <= c && c <= '9' {
        Some((c as u32 - '0' as u32 + 52) as usize)
    } else if c == '-' {
        Some(62)
    } else if c == '_' {
        Some(63)
    } else {
        None
    }
}

/// Returns the symbol at position `i` of the alphabet.
pub fn symbol_at(i: usize) -> (c: char)
    requires
        i < ALPHABET_LEN,
    ensures
        c == symbol(i as int),
        is_symbol(c),
        symbol_index(c) == i,
{
    if i < 26 {
        ((i as u8) + 97u8) as char
    } else if i < 52 {
        ((i as u8) - 26 + 65u8) as char
    } else if i < 62 {
        ((i as u8) - 52 + 48u8) as char
    } else if i == 62 {
        '-'
    } else {
        '_'
    }
}

} // verus!
