//! Facts about store paths and rewriting that the proofs of the rewriter and
//! of its laws share.
use vstd::prelude::*;

use crate::grammar::{
    begins_store_path, collapses, emitted, hash_char, held, is_candidate, is_store_path, pkg_char,
    prefix, replacement, rewritten, store_path_at_start, store_path_with_hash, MAX_CANDIDATE_LEN,
    MIN_HASH_LEN,
};

verus! {

// ----- one store path ----------------------------------------------------

/// The store path at the beginning of a text is unique.
pub proof fn lemma_path_unique(s: Seq<u8>, m: int, n: int)
    requires
        store_path_at_start(s, m),
        store_path_at_start(s, n),
    ensures
        m == n,
{
    let g = choose|h: int| store_path_with_hash(s.take(m), h);
    let h = choose|h: int| store_path_with_hash(s.take(n), h);
    if g < h {
        assert(s.take(m)[11 + g] == s.take(n)[11 + g]);
    } else if h < g {
        assert(s.take(m)[11 + h] == s.take(n)[11 + h]);
    }
    if m < n {
        assert(pkg_char(s.take(n)[m]));
    } else if n < m {
        assert(pkg_char(s.take(m)[n]));
    }
}

/// Whatever follows the beginning of a store path, no store path that starts
/// where it does ends inside it.
pub proof fn lemma_path_covers_beginning(p: Seq<u8>, x: Seq<u8>, n: int)
    requires
        begins_store_path(p),
        store_path_at_start(p + x, n),
    ensures
        n >= p.len(),
{
    if n < p.len() {
        let rest = choose|rest: Seq<u8>| is_store_path(#[trigger] (p + rest));
        let t = p + rest;
        let h = choose|h: int| store_path_with_hash(t, h);
        let u = (p + x).take(n);
        let g = choose|g: int| store_path_with_hash(u, g);
        assert(forall|i: int| 0 <= i < n ==> u[i] == t[i]);
        if g < h {
            assert(u[11 + g] == t[11 + g]);
        } else if h < g {
            assert(u[11 + h] == t[11 + h]);
        }
        assert(pkg_char(t[n]));
    }
}

/// A beginning of a beginning is a beginning.
pub proof fn lemma_begins_closed(a: Seq<u8>, b: Seq<u8>)
    requires
        begins_store_path(a + b),
    ensures
        begins_store_path(a),
{
    let rest = choose|rest: Seq<u8>| is_store_path(#[trigger] ((a + b) + rest));
    assert((a + b) + rest =~= a + (b + rest));
}

/// A store path is a beginning of itself, and so is each part of it that
/// starts where it does.
pub proof fn lemma_path_begins(t: Seq<u8>, k: int)
    requires
        is_store_path(t),
        0 <= k <= t.len(),
    ensures
        begins_store_path(t.take(k)),
{
    assert(t.take(k) + t.skip(k) =~= t);
}

/// The texts that begin a store path, by what has been read of it.
pub open spec fn beginning_shape(s: Seq<u8>) -> bool {
    if s.len() <= prefix().len() {
        s == prefix().take(s.len() as int)
    } else {
        &&& s.take(prefix().len() as int) == prefix()
        &&& {
            ||| hash_begun(s)
            ||| exists|h: int| hash_closed(s, h)
        }
    }
}

/// All that follows the prefix is hash.
pub open spec fn hash_begun(s: Seq<u8>) -> bool {
    forall|i: int| prefix().len() <= i < s.len() ==> hash_char(#[trigger] s[i])
}

/// A hash of `h` bytes has been closed by a `-`, and what follows may stand in
/// a package name.
pub open spec fn hash_closed(s: Seq<u8>, h: int) -> bool {
    &&& h >= MIN_HASH_LEN
    &&& s.len() > prefix().len() + h
    &&& forall|i: int| prefix().len() <= i < prefix().len() + h ==> hash_char(#[trigger] s[i])
    &&& s[prefix().len() + h] == '-' as u8
    &&& forall|i: int| prefix().len() + h < i < s.len() ==> pkg_char(#[trigger] s[i])
}

/// The shapes are exactly the beginnings.
pub proof fn lemma_beginning_shape(s: Seq<u8>)
    ensures
        begins_store_path(s) <==> beginning_shape(s),
{
    if begins_store_path(s) {
        let rest = choose|rest: Seq<u8>| is_store_path(#[trigger] (s + rest));
        let t = s + rest;
        let h = choose|h: int| store_path_with_hash(t, h);
        assert(forall|i: int| 0 <= i < 11 ==> t[i] == t.take(11)[i]);
        if s.len() <= 11 {
            assert(s =~= prefix().take(s.len() as int));
        } else {
            assert(s.take(11) =~= prefix());
            assert(forall|i: int| 0 <= i < s.len() ==> s[i] == t[i]);
            if s.len() > 11 + h {
                assert(hash_closed(s, h));
            } else {
                assert(hash_begun(s));
            }
        }
    }
    if beginning_shape(s) {
        let hash = Seq::new(32, |i: int| 'a' as u8);
        let pkg = seq!['a' as u8];
        let tail = seq!['-' as u8] + pkg;
        if s.len() <= 11 {
            let rest = prefix().skip(s.len() as int) + hash + tail;
            let t = s + rest;
            assert(t.take(11) =~= prefix());
            assert(store_path_with_hash(t, 32));
            assert(is_store_path(s + rest));
        } else if hash_begun(s) {
            let rest = hash + tail;
            let t = s + rest;
            assert(t.take(11) =~= prefix());
            assert(store_path_with_hash(t, s.len() - 11 + 32));
            assert(is_store_path(s + rest));
        } else {
            let h = choose|h: int| hash_closed(s, h);
            let t = s + pkg;
            assert(t.take(11) =~= prefix());
            assert(store_path_with_hash(t, h));
            assert(is_store_path(s + pkg));
        }
    }
}

// ----- where a store path cannot begin -----------------------------------

/// A text that departs from the prefix within its first bytes neither begins
/// nor holds a store path there.
pub proof fn lemma_departs_from_prefix(s: Seq<u8>, d: int)
    requires
        0 <= d < prefix().len(),
        d < s.len(),
        s[d] != prefix()[d],
    ensures
        !begins_store_path(s),
        forall|n: int| !store_path_at_start(s, n),
{
    lemma_beginning_shape(s);
    if beginning_shape(s) {
        if s.len() > 11 {
            assert(s[d] == s.take(11)[d]);
        }
    }
    assert forall|n: int| !store_path_at_start(s, n) by {
        if store_path_at_start(s, n) {
            let h = choose|h: int| store_path_with_hash(s.take(n), h);
            assert(s[d] == s.take(n).take(11)[d]);
        }
    }
}

/// Inside a text that begins a store path, a full prefix stands nowhere but at
/// its beginning.
pub proof fn lemma_prefix_only_at_start(p: Seq<u8>, j: int)
    requires
        begins_store_path(p),
        1 <= j,
        j + prefix().len() <= p.len(),
    ensures
        !begins_store_path(p.skip(j)),
        forall|n: int| !store_path_at_start(p.skip(j), n),
{
    let rest = choose|rest: Seq<u8>| is_store_path(#[trigger] (p + rest));
    let t = p + rest;
    let h = choose|h: int| store_path_with_hash(t, h);
    let s = p.skip(j);
    assert(forall|i: int| 0 <= i < p.len() ==> p[i] == t[i]);
    assert(forall|i: int| 0 <= i < 11 ==> t[i] == t.take(11)[i]);
    if j == 4 {
        assert(s[1] == t[5]);
        lemma_departs_from_prefix(s, 1);
    } else if j == 10 {
        assert(s[4] == t[14]);
        lemma_departs_from_prefix(s, 4);
    } else {
        assert(s[0] == t[j]);
        if j >= 11 + h {
            assert(pkg_char(t[j]));
        }
        lemma_departs_from_prefix(s, 0);
    }
}

// ----- bytes that stay as they are ---------------------------------------

/// Where no store path begins at the first `k` places of `s`, rewriting keeps
/// those bytes.
pub proof fn lemma_rewritten_verbatim(s: Seq<u8>, k: int)
    requires
        0 <= k <= s.len(),
        forall|j: int, n: int| 0 <= j < k ==> !#[trigger] collapses(s.skip(j), n),
    ensures
        rewritten(s) == s.take(k) + rewritten(s.skip(k)),
    decreases k,
{
    if k == 0 {
        assert(s.skip(0) =~= s);
        assert(s.take(0) + rewritten(s) =~= rewritten(s));
    } else {
        let r = s.skip(1);
        assert(s.skip(0) =~= s);
        assert forall|j: int, n: int| 0 <= j < k - 1 implies !#[trigger] collapses(r.skip(j), n) by {
            assert(r.skip(j) =~= s.skip(j + 1));
        }
        lemma_rewritten_verbatim(r, k - 1);
        assert(r.skip(k - 1) =~= s.skip(k));
        assert(seq![s[0]] + (r.take(k - 1) + rewritten(s.skip(k))) =~= s.take(k) + rewritten(
            s.skip(k),
        ));
    }
}

/// Where no store path and no candidate begins at the first `k` places of
/// `s`, those bytes can be written as they are.
pub proof fn lemma_emitted_verbatim(s: Seq<u8>, k: int)
    requires
        0 <= k <= s.len(),
        forall|j: int| 0 <= j < k ==> !is_candidate(#[trigger] s.skip(j)),
        forall|j: int, n: int| 0 <= j < k ==> !#[trigger] collapses(s.skip(j), n),
    ensures
        emitted(s) == s.take(k) + emitted(s.skip(k)),
        held(s) == held(s.skip(k)),
    decreases k,
{
    assert(s.skip(0) =~= s);
    if k == 0 {
        assert(s.take(0) + emitted(s) =~= emitted(s));
    } else {
        let r = s.skip(1);
        assert forall|j: int| 0 <= j < k - 1 implies !is_candidate(#[trigger] r.skip(j)) by {
            assert(r.skip(j) =~= s.skip(j + 1));
        }
        assert forall|j: int, n: int| 0 <= j < k - 1 implies !#[trigger] collapses(r.skip(j), n) by {
            assert(r.skip(j) =~= s.skip(j + 1));
        }
        lemma_emitted_verbatim(r, k - 1);
        assert(r.skip(k - 1) =~= s.skip(k));
        assert(seq![s[0]] + (r.take(k - 1) + emitted(s.skip(k))) =~= s.take(k) + emitted(s.skip(k)));
    }
}

// ----- taking one store path off -----------------------------------------

/// A store path at the beginning of a text is replaced, and the rest follows.
pub proof fn lemma_collapse(s: Seq<u8>, n: int)
    requires
        collapses(s, n),
    ensures
        rewritten(s) == replacement() + rewritten(s.skip(n)),
        !is_candidate(s) ==> emitted(s) == replacement() + emitted(s.skip(n)),
        !is_candidate(s) ==> held(s) == held(s.skip(n)),
{
    let m = choose|n: int| collapses(s, n);
    lemma_path_unique(s, m, n);
}

// ----- splitting a text --------------------------------------------------

/// Once a text is no candidate any more, what follows does not change whether
/// a store path stands at its beginning.
pub proof fn lemma_collapse_settled(a: Seq<u8>, b: Seq<u8>, n: int)
    requires
        a.len() > 0,
        !is_candidate(a),
    ensures
        collapses(a + b, n) <==> collapses(a, n),
{
    let s = a + b;
    if collapses(a, n) {
        if n == a.len() {
            assert(a.take(n) =~= a);
            lemma_path_begins(a, n);
        }
        assert(s.take(n) =~= a.take(n));
    }
    if collapses(s, n) {
        if n >= a.len() {
            lemma_path_begins(s.take(n), a.len() as int);
            assert(s.take(n).take(a.len() as int) =~= a);
        }
        assert(s.take(n) =~= a.take(n));
    }
}

/// Seeing `a` and then `b` writes and holds back what seeing `a + b` does.
pub proof fn lemma_split(a: Seq<u8>, b: Seq<u8>)
    ensures
        emitted(a + b) == emitted(a) + emitted(held(a) + b),
        held(a + b) == held(held(a) + b),
    decreases a.len(),
{
    let s = a + b;
    if a.len() == 0 || is_candidate(a) {
        assert(emitted(a) + emitted(s) =~= emitted(s));
    } else {
        if is_candidate(s) {
            lemma_begins_closed(a, b);
        }
        assert forall|n: int| collapses(s, n) <==> collapses(a, n) by {
            lemma_collapse_settled(a, b, n);
        }
        if exists|n: int| collapses(a, n) {
            let n = choose|n: int| collapses(a, n);
            lemma_collapse(s, n);
            assert(s.skip(n) =~= a.skip(n) + b);
            lemma_split(a.skip(n), b);
            let rest = emitted(held(a) + b);
            assert(replacement() + (emitted(a.skip(n)) + rest) =~= (replacement() + emitted(
                a.skip(n),
            )) + rest);
        } else {
            assert(s.skip(1) =~= a.skip(1) + b);
            lemma_split(a.skip(1), b);
            let rest = emitted(held(a) + b);
            assert(seq![a[0]] + (emitted(a.skip(1)) + rest) =~= (seq![a[0]] + emitted(a.skip(1)))
                + rest);
        }
    }
}

/// Writing what can be written and rewriting what was held back is rewriting
/// the whole.
pub proof fn lemma_finish(s: Seq<u8>)
    ensures
        rewritten(s) == emitted(s) + rewritten(held(s)),
    decreases s.len(),
{
    if s.len() == 0 || is_candidate(s) {
        assert(emitted(s) + rewritten(s) =~= rewritten(s));
    } else if exists|n: int| collapses(s, n) {
        let n = choose|n: int| collapses(s, n);
        lemma_finish(s.skip(n));
        assert(replacement() + (emitted(s.skip(n)) + rewritten(held(s))) =~= (replacement()
            + emitted(s.skip(n))) + rewritten(held(s)));
    } else {
        lemma_finish(s.skip(1));
        assert(seq![s[0]] + (emitted(s.skip(1)) + rewritten(held(s))) =~= (seq![s[0]] + emitted(
            s.skip(1),
        )) + rewritten(held(s)));
    }
}

// ----- a candidate that fails --------------------------------------------

/// How many bytes at the end of the failed candidate `p` open the prefix
/// again, with the byte `b` that follows as the next one of it. The prefix
/// can overlap itself in two places: after `/nix/` comes `nix...`, or after
/// `/nix/store/` comes `nix/...`.
pub open spec fn overlap(p: Seq<u8>, b: u8) -> int {
    if p.len() == 5 && b == 'n' as u8 {
        1
    } else if p.len() == 14 && p.skip(10) == prefix().take(4) && b == '/' as u8 {
        4
    } else {
        0
    }
}

/// At the byte `b` the candidate `p` neither goes on nor is complete: there is
/// no store path at its beginning.
pub proof fn lemma_failed_candidate(p: Seq<u8>, b: u8, n: int)
    requires
        is_candidate(p),
        !is_candidate(p.push(b)),
        is_store_path(p) ==> p.len() >= MAX_CANDIDATE_LEN && pkg_char(b),
    ensures
        !collapses(p.push(b), n),
{
    let s = p.push(b);
    if collapses(s, n) {
        assert(s =~= p + seq![b]);
        lemma_path_covers_beginning(p, seq![b], n);
        if n == p.len() {
            assert(s.take(n) =~= p);
        } else {
            assert(s.take(n) =~= s);
            lemma_path_begins(s, n);
        }
    }
}

/// When the candidate `p` fails at the byte `b`, all of it is written but for
/// the bytes that open the prefix again.
pub proof fn lemma_bail(p: Seq<u8>, b: u8)
    requires
        is_candidate(p),
        !is_candidate(p.push(b)),
        is_store_path(p) ==> p.len() >= MAX_CANDIDATE_LEN && pkg_char(b),
    ensures
        0 <= overlap(p, b) < p.len(),
        p.skip(p.len() - overlap(p, b)) == prefix().take(overlap(p, b)),
        emitted(p.push(b)) == p.take(p.len() - overlap(p, b)) + emitted(
            prefix().take(overlap(p, b)).push(b),
        ),
        held(p.push(b)) == held(prefix().take(overlap(p, b)).push(b)),
{
    let s = p.push(b);
    let m = overlap(p, b);
    let k = p.len() - m;
    lemma_beginning_shape(p);
    lemma_beginning_shape(s);
    assert(forall|i: int| 0 <= i < p.len() && i < 11 ==> p[i] == prefix()[i]) by {
        if p.len() > 11 {
            assert(forall|i: int| 0 <= i < 11 ==> p[i] == p.take(11)[i]);
        }
    }
    assert(p.skip(k) =~= prefix().take(m)) by {
        if m == 4 {
            assert(p.skip(k) == p.skip(10));
        }
    }
    assert forall|j: int| 0 <= j < k implies !is_candidate(#[trigger] s.skip(j)) && forall|n: int|
        !collapses(s.skip(j), n) by {
        let r = s.skip(j);
        if j == 0 {
            assert(r =~= s);
            assert forall|n: int| !collapses(s, n) by {
                lemma_failed_candidate(p, b, n);
            }
        } else if j == 4 {
            if p.len() == 5 {
                assert(r[1] == b);
            } else {
                assert(r[1] == p[5]);
            }
            lemma_departs_from_prefix(r, 1);
        } else if j == 10 {
            assert(s.take(11) =~= prefix());
            if p.len() >= 15 {
                assert(r[4] == p[14]);
                assert(hash_char(p[14]));
                lemma_departs_from_prefix(r, 4);
            } else if p.len() == 14 {
                assert(r[4] == b);
                if b == '/' as u8 {
                    assert(p.skip(10) != prefix().take(4));
                    assert(exists|d: int| 0 <= d < 4 && p.skip(10)[d] != prefix()[d]) by {
                        if forall|d: int| 0 <= d < 4 ==> p.skip(10)[d] == prefix()[d] {
                            assert(p.skip(10) =~= prefix().take(4));
                        }
                    }
                    let d = choose|d: int| 0 <= d < 4 && p.skip(10)[d] != prefix()[d];
                    assert(r[d] == p.skip(10)[d]);
                    lemma_departs_from_prefix(r, d);
                } else {
                    lemma_departs_from_prefix(r, 4);
                }
            } else {
                let d = p.len() - 10;
                assert(r[d] == b);
                assert(hash_begun(p));
                if b == prefix()[d] {
                    assert(hash_begun(s));
                }
                lemma_departs_from_prefix(r, d);
            }
        } else {
            assert(r[0] == p[j]);
            if p.len() > 11 && !hash_begun(p) {
                let h = choose|h: int| hash_closed(p, h);
                assert(hash_closed(p, h));
                if j > 11 + h {
                    assert(pkg_char(p[j]));
                }
            }
            lemma_departs_from_prefix(r, 0);
        }
    }
    lemma_emitted_verbatim(s, k);
    assert(s.skip(k) =~= prefix().take(m).push(b));
    assert(s.take(k) =~= p.take(k));
}

/// A single byte is held back if it opens the prefix, and is written if not.
pub proof fn lemma_single_byte(b: u8)
    ensures
        is_candidate(seq![b]) <==> b == prefix()[0],
        b == prefix()[0] ==> emitted(seq![b]) == Seq::<u8>::empty() && held(seq![b]) == seq![b],
        b != prefix()[0] ==> emitted(seq![b]) == seq![b] && held(seq![b]) == Seq::<u8>::empty(),
{
    let s = seq![b];
    lemma_beginning_shape(s);
    if b == prefix()[0] {
        assert(s =~= prefix().take(1));
    } else {
        lemma_departs_from_prefix(s, 0);
        reveal_with_fuel(emitted, 2);
        reveal_with_fuel(held, 2);
        assert(s.skip(1) =~= Seq::<u8>::empty());
        assert(emitted(s) =~= s);
    }
}

/// The beginning of a store path that has not got as far as a package name is
/// rewritten to itself.
pub proof fn lemma_unfinished_verbatim(p: Seq<u8>)
    requires
        begins_store_path(p),
        !is_store_path(p),
    ensures
        rewritten(p) == p,
{
    assert forall|j: int, n: int| 0 <= j < p.len() implies !#[trigger] collapses(p.skip(j), n) by {
        if collapses(p.skip(j), n) {
            let h = choose|h: int| store_path_with_hash(p.skip(j).take(n), h);
            if j == 0 {
                assert(p.skip(0) =~= p);
                let none = Seq::<u8>::empty();
                assert(p + none =~= p);
                lemma_path_covers_beginning(p, none, n);
                assert(p.take(n) =~= p);
            } else {
                lemma_prefix_only_at_start(p, j);
            }
        }
    }
    lemma_rewritten_verbatim(p, p.len() as int);
    assert(p.take(p.len() as int) + rewritten(p.skip(p.len() as int)) =~= p);
}

} // verus!
