//! Streaming byte-level rewriter that collapses every Nix store path it sees
//! to the literal `nix:`, leaving the trailing path component (if any) intact:
//!
//! ```text
//! /nix/store/3p5l9d7v3w7nq2x9jk8m5a7s8b1234567-coreutils-9.5/bin/ls
//! ```
//!
//! becomes
//!
//! ```text
//! nix:/bin/ls
//! ```
//!
//! The data is a long-lived byte stream that may be cut anywhere, also in the
//! middle of a store path. A small state machine holds back the bytes of a
//! candidate, commits when the store path is complete, and bails verbatim when
//! it fails. A store path can open inside a candidate that fails, as in
//! `/nix/nix/store/...`: the bytes that open it are then held back again. The
//! bytes held back are bounded by [`crate::grammar::MAX_CANDIDATE_LEN`].
use vstd::prelude::*;

use vstd::slice::slice_subrange;

use crate::grammar::{
    emitted, hash_char, held, is_candidate, is_hash_char, is_pkg_char, is_store_path, pkg_char,
    prefix, replacement, rewritten, store_path_with_hash, MAX_CANDIDATE_LEN, MIN_HASH_LEN, PREFIX,
    REPLACEMENT,
};
use crate::lemmas::{
    beginning_shape, hash_begun, hash_closed, lemma_bail, lemma_beginning_shape, lemma_collapse,
    lemma_finish, lemma_single_byte, lemma_split, lemma_unfinished_verbatim, overlap,
};

verus! {

/// Streaming rewriter. Construct once per stream, feed chunks through
/// [`PathRewriter::process`], and call [`PathRewriter::flush`] at end of
/// input.
///
/// Its view is the bytes held back.
#[derive(Debug)]
pub struct PathRewriter {
    state: State,
    /// Bytes of the candidate in flight.
    buffer: Vec<u8>,
}

#[derive(Debug, Clone, Copy)]
enum State {
    /// Not inside a candidate.
    Idle,
    /// The first `matched` bytes of the prefix have been seen, but not all.
    Prefix { matched: usize },
    /// The whole prefix and `count` hash bytes have been seen.
    Hash { count: usize },
    /// The `-` that closes the hash has been seen.
    WantPkg,
    /// `count` bytes of the package name have been seen, at least one.
    Pkg { count: usize },
}

impl View for PathRewriter {
    type V = Seq<u8>;

    closed spec fn view(&self) -> Seq<u8> {
        self.buffer@
    }
}

impl PathRewriter {
    /// The state says how far into a store path the buffer has got, and the
    /// buffer is bounded.
    pub closed spec fn wf(&self) -> bool {
        let p = self.buffer@;
        &&& p.len() <= MAX_CANDIDATE_LEN
        &&& match self.state {
            State::Idle => p.len() == 0,
            State::Prefix { matched } => {
                &&& 1 <= matched < prefix().len()
                &&& p == prefix().take(matched as int)
            },
            State::Hash { count } => {
                &&& p.len() == prefix().len() + count
                &&& p.take(prefix().len() as int) == prefix()
                &&& hash_begun(p)
            },
            State::WantPkg => {
                &&& p.take(prefix().len() as int) == prefix()
                &&& hash_closed(p, p.len() - prefix().len() - 1)
            },
            State::Pkg { count } => {
                &&& count >= 1
                &&& p.take(prefix().len() as int) == prefix()
                &&& hash_closed(p, p.len() - prefix().len() - 1 - count)
            },
        }
    }

    /// What the invariant says of the bytes held back.
    proof fn lemma_wf(&self)
        requires
            self.wf(),
        ensures
            self.state is Idle ==> self@.len() == 0,
            !(self.state is Idle) ==> is_candidate(self@),
            is_store_path(self@) <==> self.state is Pkg,
    {
        let p = self.buffer@;
        lemma_beginning_shape(p);
        match self.state {
            State::Hash { count } => {
                assert(prefix().take(11) =~= prefix());
                if count == 0 {
                    assert(p.take(11) =~= p);
                }
            },
            State::WantPkg => {
                assert(hash_closed(p, p.len() - 12));
            },
            State::Pkg { count } => {
                assert(hash_closed(p, p.len() - 12 - count));
                assert(store_path_with_hash(p, p.len() - 12 - count));
            },
            _ => {},
        }
        if is_store_path(p) {
            let h = choose|h: int| store_path_with_hash(p, h);
            match self.state {
                State::Hash { count } => {
                    assert(hash_char(p[11 + h]));
                },
                State::WantPkg => {
                    assert(hash_char(p[11 + h]));
                },
                _ => {},
            }
        }
    }

    /// What a rewriter holds back is nothing, or a candidate.
    pub proof fn lemma_holds_candidate(&self)
        requires
            self.wf(),
        ensures
            self@.len() == 0 || is_candidate(self@),
            self@.len() <= MAX_CANDIDATE_LEN,
            beginning_shape(self@),
    {
        self.lemma_wf();
        lemma_beginning_shape(self@);
        if self@.len() == 0 {
            assert(self@ =~= prefix().take(0));
        }
    }

    /// A fresh rewriter that holds nothing back.
    pub fn new() -> (r: Self)
        ensures
            r.wf(),
            r@ == Seq::<u8>::empty(),
    {
        PathRewriter { state: State::Idle, buffer: Vec::with_capacity(96) }
    }

    /// The literal text that opens a store path.
    #[inline]
    pub fn pattern() -> (r: &'static [u8])
        ensures
            r@ == prefix(),
    {
        &PREFIX
    }

    /// What stands in the output in place of a store path.
    #[inline]
    pub fn replacement() -> (r: &'static [u8])
        ensures
            r@ == replacement(),
    {
        &REPLACEMENT
    }

    /// How many bytes are held back.
    pub fn buffered(&self) -> (n: usize)
        requires
            self.wf(),
        ensures
            n == self@.len(),
            n <= MAX_CANDIDATE_LEN,
    {
        self.buffer.len()
    }

    /// Feeds a chunk of input through the rewriter, and appends to `out` what
    /// can be written.
    pub fn process(&mut self, input: &[u8], out: &mut Vec<u8>)
        requires
            old(self).wf(),
        ensures
            final(self).wf(),
            final(self)@ == held(old(self)@ + input@),
            final(self)@.len() <= MAX_CANDIDATE_LEN,
            final(out)@ == old(out)@ + emitted(old(self)@ + input@),
    {
        let ghost p = self@;
        let ghost before = out@;
        proof {
            self.lemma_wf();
            assert(p + input@.take(0) =~= p);
            assert(before + emitted(p) =~= before);
        }
        for i in 0..input.len()
            invariant
                self.wf(),
                self@ == held(p + input@.take(i as int)),
                out@ == before + emitted(p + input@.take(i as int)),
        {
            let ghost a = p + input@.take(i as int);
            let ghost b = seq![input@[i as int]];
            proof {
                lemma_split(a, b);
                assert(self@.push(input@[i as int]) =~= held(a) + b);
                assert(a + b =~= p + input@.take(i + 1));
                assert((before + emitted(a)) + emitted(held(a) + b) =~= before + (emitted(a)
                    + emitted(held(a) + b)));
            }
            self.step(input[i], out);
        }
        proof {
            assert(input@.take(input@.len() as int) =~= input@);
        }
    }

    /// Ends the input: appends to `out` what the bytes held back come to, and
    /// holds nothing back any more. A candidate that has got as far as a
    /// package name is a store path; any other is written verbatim.
    pub fn flush(&mut self, out: &mut Vec<u8>)
        requires
            old(self).wf(),
        ensures
            final(self).wf(),
            final(self)@ == Seq::<u8>::empty(),
            final(out)@ == old(out)@ + rewritten(old(self)@),
    {
        let ghost p = self@;
        proof {
            self.lemma_wf();
        }
        match self.state {
            State::Pkg { count: _ } => {
                proof {
                    assert(p.take(p.len() as int) =~= p);
                    lemma_collapse(p, p.len() as int);
                    assert(p.skip(p.len() as int) =~= Seq::<u8>::empty());
                    assert(rewritten(p) =~= replacement());
                }
                self.commit(out);
            },
            State::Idle => {
                assert(rewritten(p) =~= p);
                assert(out@ =~= old(out)@ + rewritten(p));
            },
            _ => {
                proof {
                    lemma_unfinished_verbatim(p);
                }
                out.extend_from_slice(self.buffer.as_slice());
                assert(out@ =~= old(out)@ + p);
                self.buffer.clear();
                self.state = State::Idle;
            },
        }
    }

    /// Rewrites a single byte slice in one shot.
    pub fn rewrite_all(input: &[u8]) -> (out: Vec<u8>)
        ensures
            out@ == rewritten(input@),
    {
        let mut r = PathRewriter::new();
        let mut out: Vec<u8> = Vec::with_capacity(input.len());
        proof {
            assert(Seq::<u8>::empty() + input@ =~= input@);
            lemma_finish(input@);
        }
        r.process(input, &mut out);
        r.flush(&mut out);
        assert(out@ =~= emitted(input@) + rewritten(held(input@)));
        out
    }

    // ----- internals -----------------------------------------------------

    fn step(&mut self, b: u8, out: &mut Vec<u8>)
        requires
            old(self).wf(),
        ensures
            final(self).wf(),
            final(self)@ == held(old(self)@.push(b)),
            final(out)@ == old(out)@ + emitted(old(self)@.push(b)),
        decreases old(self)@.len(), 1int,
    {
        let ghost p = self@;
        let ghost s = p.push(b);
        proof {
            self.lemma_wf();
            lemma_beginning_shape(p);
            lemma_beginning_shape(s);
            if p.len() >= 11 {
                assert(s.take(11) =~= p.take(11));
            }
        }
        // A full candidate cannot grow. If `b` does not complete it, it fails.
        let completes = match self.state {
            State::Pkg { count: _ } => !is_pkg_char(b),
            _ => false,
        };
        if self.buffer.len() >= MAX_CANDIDATE_LEN && !completes {
            self.bail(b, out);
            return;
        }
        match self.state {
            State::Idle => {
                proof {
                    assert(s =~= seq![b]);
                    lemma_single_byte(b);
                }
                if b == PREFIX[0] {
                    self.state = State::Prefix { matched: 1 };
                    self.buffer.push(b);
                    assert(self@ =~= prefix().take(1));
                    assert(out@ =~= old(out)@ + emitted(s));
                } else {
                    out.push(b);
                    assert(out@ =~= old(out)@ + emitted(s));
                }
            },
            State::Prefix { matched } => {
                if b == PREFIX[matched] {
                    assert(s =~= prefix().take(matched + 1));
                    self.buffer.push(b);
                    if matched + 1 == PREFIX.len() {
                        self.state = State::Hash { count: 0 };
                        assert(self@.take(11) =~= prefix());
                    } else {
                        self.state = State::Prefix { matched: matched + 1 };
                    }
                    assert(out@ =~= old(out)@ + emitted(s));
                } else {
                    assert(s[matched as int] != prefix().take(s.len() as int)[matched as int]);
                    self.bail(b, out);
                }
            },
            State::Hash { count } => {
                if is_hash_char(b) {
                    self.buffer.push(b);
                    self.state = State::Hash { count: count + 1 };
                    assert(hash_begun(s));
                    assert(out@ =~= old(out)@ + emitted(s));
                } else if b == '-' as u8 && count >= MIN_HASH_LEN {
                    self.buffer.push(b);
                    self.state = State::WantPkg;
                    assert(hash_closed(s, count as int));
                    assert(out@ =~= old(out)@ + emitted(s));
                } else {
                    assert(!is_candidate(s)) by {
                        assert(s[s.len() - 1] == b);
                        if exists|h: int| hash_closed(s, h) {
                            let h = choose|h: int| hash_closed(s, h);
                            if h < count {
                                assert(hash_char(p[11 + h]));
                            }
                        }
                    }
                    self.bail(b, out);
                }
            },
            State::WantPkg => {
                let ghost g = p.len() - 12;
                if is_pkg_char(b) {
                    self.buffer.push(b);
                    self.state = State::Pkg { count: 1 };
                    assert(hash_closed(s, g));
                    assert(out@ =~= old(out)@ + emitted(s));
                } else {
                    proof {
                        lemma_package_goes_on(p, b, g);
                    }
                    self.bail(b, out);
                }
            },
            State::Pkg { count } => {
                let ghost g = p.len() - 12 - count;
                if is_pkg_char(b) {
                    self.buffer.push(b);
                    self.state = State::Pkg { count: count + 1 };
                    assert(hash_closed(s, g));
                    assert(out@ =~= old(out)@ + emitted(s));
                } else {
                    proof {
                        lemma_package_goes_on(p, b, g);
                        assert(s.take(p.len() as int) =~= p);
                        lemma_collapse(s, p.len() as int);
                        assert(s.skip(p.len() as int) =~= Seq::<u8>::empty().push(b));
                    }
                    self.commit(out);
                    self.step(b, out);
                    assert(out@ =~= old(out)@ + emitted(s));
                }
            },
        }
    }

    /// The candidate failed at `b`: writes it verbatim, but for the bytes that
    /// open the prefix again, and goes on with `b` from there.
    fn bail(&mut self, b: u8, out: &mut Vec<u8>)
        requires
            old(self).wf(),
            is_candidate(old(self)@),
            !is_candidate(old(self)@.push(b)),
            is_store_path(old(self)@) ==> old(self)@.len() >= MAX_CANDIDATE_LEN && pkg_char(b),
        ensures
            final(self).wf(),
            final(self)@ == held(old(self)@.push(b)),
            final(out)@ == old(out)@ + emitted(old(self)@.push(b)),
        decreases old(self)@.len(), 0int,
    {
        let ghost p = self@;
        proof {
            lemma_bail(p, b);
        }
        let keep: usize = self.overlap_with(b);
        let cut: usize = self.buffer.len() - keep;
        out.extend_from_slice(slice_subrange(self.buffer.as_slice(), 0, cut));
        self.buffer.clear();
        self.buffer.extend_from_slice(slice_subrange(&PREFIX, 0, keep));
        self.state =
        if keep == 0 {
            State::Idle
        } else {
            State::Prefix { matched: keep }
        };
        assert(self@ =~= prefix().take(keep as int));
        self.step(b, out);
        assert(out@ =~= old(out)@ + emitted(p.push(b)));
    }

    /// How many of the bytes held back open the prefix again, when `b` follows.
    fn overlap_with(&self, b: u8) -> (n: usize)
        requires
            self.wf(),
        ensures
            n == overlap(self@, b),
    {
        if self.buffer.len() == 5 && b == 'n' as u8 {
            return 1;
        }
        if self.buffer.len() == 14 && b == '/' as u8 && self.buffer[10] == PREFIX[0]
            && self.buffer[11] == PREFIX[1] && self.buffer[12] == PREFIX[2] && self.buffer[13]
            == PREFIX[3] {
            assert(self@.skip(10) =~= prefix().take(4));
            return 4;
        }
        proof {
            if self@.len() == 14 {
                assert(forall|i: int| 0 <= i < 4 ==> self@.skip(10)[i] == self@[10 + i]);
                assert(forall|i: int| 0 <= i < 4 ==> prefix().take(4)[i] == prefix()[i]);
            }
        }
        0
    }

    /// The candidate is a store path: writes the replacement and holds nothing
    /// back any more.
    fn commit(&mut self, out: &mut Vec<u8>)
        ensures
            final(self).wf(),
            final(self)@ == Seq::<u8>::empty(),
            final(out)@ == old(out)@ + replacement(),
    {
        out.extend_from_slice(&REPLACEMENT);
        assert(out@ =~= old(out)@ + replacement());
        self.buffer.clear();
        self.state = State::Idle;
    }
}

/// After the `-` that closes the hash, only bytes of a package name keep a
/// store path going.
proof fn lemma_package_goes_on(p: Seq<u8>, b: u8, g: int)
    requires
        p.take(prefix().len() as int) == prefix(),
        hash_closed(p, g),
        !pkg_char(b),
    ensures
        !is_candidate(p.push(b)),
{
    let s = p.push(b);
    lemma_beginning_shape(s);
    assert(s[s.len() - 1] == b);
    assert(s[11 + g] == '-' as u8);
    if exists|h: int| hash_closed(s, h) {
        let h = choose|h: int| hash_closed(s, h);
        if h < g {
            assert(hash_char(p[11 + h]));
        } else if g < h {
            assert(hash_char(s[11 + g]));
        }
    }
}

impl Default for PathRewriter {
    fn default() -> (r: Self)
        ensures
            r.wf(),
            r@ == Seq::<u8>::empty(),
    {
        PathRewriter::new()
    }
}

impl Clone for PathRewriter {
    fn clone(&self) -> (r: Self)
        ensures
            r@ == self@,
            self.wf() ==> r.wf(),
    {
        let buffer = self.buffer.clone();
        assert(buffer@ =~= self.buffer@);
        PathRewriter { state: self.state, buffer }
    }
}

} // verus!
