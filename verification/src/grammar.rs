//! The text of a Nix store path, and what a rewriting of a byte stream is.
//!
//! A store path is `/nix/store/<hash>-<pkg>`, where
//!
//! * `<hash>` is at least [`MIN_HASH_LEN`] bytes from `[0-9a-z]`;
//! * `<pkg>` is one or more bytes from `[A-Za-z0-9._+-]`.
//!
//! A package name reaches as far as its alphabet does, so at any place of a
//! text at most one store path begins. What follows it (typically `/bin/ls`)
//! is not part of it.
//!
//! Three functions say what becomes of a text. [`rewritten`] is the text with
//! every store path replaced by `nix:`. [`emitted`] and [`held`] split that
//! work at the end of a text to which more may be added: what can be written
//! already, and the bytes that may still turn out to be a store path.
use vstd::prelude::*;

verus! {

/// The literal text that opens a store path.
pub const PREFIX: [u8; 11] = [
    '/' as u8,
    'n' as u8,
    'i' as u8,
    'x' as u8,
    '/' as u8,
    's' as u8,
    't' as u8,
    'o' as u8,
    'r' as u8,
    'e' as u8,
    '/' as u8,
];

/// What stands in the output in place of a store path.
pub const REPLACEMENT: [u8; 4] = ['n' as u8, 'i' as u8, 'x' as u8, ':' as u8];

/// The fewest hash bytes that a `-` may close.
pub const MIN_HASH_LEN: usize = 32;

/// The most bytes that are held back while they may still become a store
/// path. Real store paths are far shorter; the cap bounds the memory that a
/// hostile stream can take.
pub const MAX_CANDIDATE_LEN: usize = 1024;

// ----- the alphabet ------------------------------------------------------

/// `/nix/store/`.
pub open spec fn prefix() -> Seq<u8> {
    seq![
        '/' as u8,
        'n' as u8,
        'i' as u8,
        'x' as u8,
        '/' as u8,
        's' as u8,
        't' as u8,
        'o' as u8,
        'r' as u8,
        'e' as u8,
        '/' as u8,
    ]
}

/// `nix:`.
pub open spec fn replacement() -> Seq<u8> {
    seq!['n' as u8, 'i' as u8, 'x' as u8, ':' as u8]
}

/// `b` is one of `[0-9a-z]`.
pub open spec fn hash_char(b: u8) -> bool {
    '0' as u8 <= b <= '9' as u8 || 'a' as u8 <= b <= 'z' as u8
}

/// `b` is one of `[A-Za-z0-9._+-]`.
pub open spec fn pkg_char(b: u8) -> bool {
    ||| '0' as u8 <= b <= '9' as u8
    ||| 'a' as u8 <= b <= 'z' as u8
    ||| 'A' as u8 <= b <= 'Z' as u8
    ||| b == '.' as u8
    ||| b == '-' as u8
    ||| b == '_' as u8
    ||| b == '+' as u8
}

/// Whether `b` may stand in the hash of a store path.
pub fn is_hash_char(b: u8) -> (r: bool)
    ensures
        r == hash_char(b),
{
    ('0' as u8 <= b && b <= '9' as u8) || ('a' as u8 <= b && b <= 'z' as u8)
}

/// Whether `b` may stand in the package name of a store path.
pub fn is_pkg_char(b: u8) -> (r: bool)
    ensures
        r == pkg_char(b),
{
    ('0' as u8 <= b && b <= '9' as u8) || ('a' as u8 <= b && b <= 'z' as u8) || ('A' as u8 <= b && b
        <= 'Z' as u8) || b == '.' as u8 || b == '-' as u8 || b == '_' as u8 || b == '+' as u8
}

// ----- store paths -------------------------------------------------------

/// `t`, as a whole, is a store path whose hash has `h` bytes.
pub open spec fn store_path_with_hash(t: Seq<u8>, h: int) -> bool {
    &&& h >= MIN_HASH_LEN
    &&& t.len() > prefix().len() + h + 1
    &&& t.take(prefix().len() as int) == prefix()
    &&& forall|i: int| prefix().len() <= i < prefix().len() + h ==> hash_char(#[trigger] t[i])
    &&& t[prefix().len() + h] == '-' as u8
    &&& forall|i: int| prefix().len() + h < i < t.len() ==> pkg_char(#[trigger] t[i])
}

/// `t`, as a whole, is a store path.
pub open spec fn is_store_path(t: Seq<u8>) -> bool {
    exists|h: int| store_path_with_hash(t, h)
}

/// A store path of `n` bytes stands at the beginning of `s`: its package name
/// ends there, at a byte of another alphabet or at the end of `s`.
pub open spec fn store_path_at_start(s: Seq<u8>, n: int) -> bool {
    &&& 0 < n <= s.len()
    &&& is_store_path(s.take(n))
    &&& n < s.len() ==> !pkg_char(s[n])
}

/// A store path of `n` bytes stands at the beginning of `s`, and it is not
/// longer than the cap.
pub open spec fn collapses(s: Seq<u8>, n: int) -> bool {
    &&& store_path_at_start(s, n)
    &&& n <= MAX_CANDIDATE_LEN
}

/// `s` is the beginning of some store path.
pub open spec fn begins_store_path(s: Seq<u8>) -> bool {
    exists|rest: Seq<u8>| is_store_path(#[trigger] (s + rest))
}

/// `s` may still become a store path, and the cap lets it be held back.
pub open spec fn is_candidate(s: Seq<u8>) -> bool {
    &&& 0 < s.len() <= MAX_CANDIDATE_LEN
    &&& begins_store_path(s)
}

// ----- rewriting ---------------------------------------------------------

/// The whole text `s` with each store path replaced, from left to right, and
/// every other byte kept.
pub open spec fn rewritten(s: Seq<u8>) -> Seq<u8>
    decreases s.len(),
{
    if s.len() == 0 {
        s
    } else if exists|n: int| collapses(s, n) {
        replacement() + rewritten(s.skip(choose|n: int| collapses(s, n)))
    } else {
        seq![s[0]] + rewritten(s.skip(1))
    }
}

/// What can be written once `s` has been seen and more may follow.
pub open spec fn emitted(s: Seq<u8>) -> Seq<u8>
    decreases s.len(),
{
    if s.len() == 0 || is_candidate(s) {
        seq![]
    } else if exists|n: int| collapses(s, n) {
        replacement() + emitted(s.skip(choose|n: int| collapses(s, n)))
    } else {
        seq![s[0]] + emitted(s.skip(1))
    }
}

/// The bytes at the end of `s` that may still become a store path, when more
/// may follow.
pub open spec fn held(s: Seq<u8>) -> Seq<u8>
    decreases s.len(),
{
    if s.len() == 0 || is_candidate(s) {
        s
    } else if exists|n: int| collapses(s, n) {
        held(s.skip(choose|n: int| collapses(s, n)))
    } else {
        held(s.skip(1))
    }
}

} // verus!
