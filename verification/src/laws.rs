//! What holds of the library as a whole, for every input.
use vstd::prelude::*;

use crate::grammar::{
    begins_store_path, collapses, emitted, hash_char, held, is_candidate, is_store_path, pkg_char,
    prefix, replacement, rewritten, store_path_at_start, store_path_with_hash, MAX_CANDIDATE_LEN,
};
use crate::lemmas::{
    lemma_collapse, lemma_departs_from_prefix, lemma_finish, lemma_path_begins,
    lemma_path_covers_beginning, lemma_path_unique, lemma_prefix_only_at_start,
    lemma_rewritten_verbatim, lemma_split, lemma_unfinished_verbatim,
};
use crate::pipe::{fresh_pipe, pipe_action, pipe_after, ActionView, EventView, PipeView};
use crate::session::{
    nearest_exit_code, session_code, write_after, write_rest, ChildStatus, WriteAction, WriteEvent,
};

verus! {

// ----- chunks ------------------------------------------------------------

/// The chunks of a stream, put together.
pub open spec fn joined(chunks: Seq<Seq<u8>>) -> Seq<u8>
    decreases chunks.len(),
{
    if chunks.len() == 0 {
        Seq::empty()
    } else {
        joined(chunks.drop_last()) + chunks.last()
    }
}

/// What a fresh rewriter holds back after processing each chunk in turn.
pub open spec fn held_after(chunks: Seq<Seq<u8>>) -> Seq<u8>
    decreases chunks.len(),
{
    if chunks.len() == 0 {
        Seq::empty()
    } else {
        held(held_after(chunks.drop_last()) + chunks.last())
    }
}

/// What a fresh rewriter has written after processing each chunk in turn.
pub open spec fn emitted_after(chunks: Seq<Seq<u8>>) -> Seq<u8>
    decreases chunks.len(),
{
    if chunks.len() == 0 {
        Seq::empty()
    } else {
        emitted_after(chunks.drop_last()) + emitted(
            held_after(chunks.drop_last()) + chunks.last(),
        )
    }
}

/// However a stream is cut into chunks, processing them in order writes and
/// holds back what processing the whole stream at once does; with the final
/// flush the output is the rewriting of the whole stream.
pub proof fn law_chunks_do_not_matter(chunks: Seq<Seq<u8>>)
    ensures
        held_after(chunks) == held(joined(chunks)),
        emitted_after(chunks) == emitted(joined(chunks)),
        emitted_after(chunks) + rewritten(held_after(chunks)) == rewritten(joined(chunks)),
    decreases chunks.len(),
{
    if chunks.len() > 0 {
        law_chunks_do_not_matter(chunks.drop_last());
        lemma_split(joined(chunks.drop_last()), chunks.last());
    }
    lemma_finish(joined(chunks));
}

/// What is held back is the end of what was seen. It is nothing, or the
/// beginning of some store path, and never more than the cap. What is written
/// and what is held back are together no longer than what was seen.
pub proof fn law_held_back(s: Seq<u8>)
    ensures
        held(s).len() <= s.len(),
        held(s) == s.skip(s.len() - held(s).len()),
        held(s).len() <= MAX_CANDIDATE_LEN,
        held(s).len() > 0 ==> begins_store_path(held(s)),
        emitted(s).len() + held(s).len() <= s.len(),
    decreases s.len(),
{
    if s.len() == 0 || is_candidate(s) {
        assert(s.skip(0) =~= s);
    } else if exists|n: int| collapses(s, n) {
        let n = choose|n: int| collapses(s, n);
        let h = choose|h: int| store_path_with_hash(s.take(n), h);
        law_held_back(s.skip(n));
        assert(s.skip(n).skip(s.skip(n).len() - held(s).len()) =~= s.skip(s.len() - held(s).len()));
    } else {
        law_held_back(s.skip(1));
        assert(s.skip(1).skip(s.skip(1).len() - held(s).len()) =~= s.skip(s.len() - held(s).len()));
    }
}

/// At the end of a stream the bytes held back are replaced if they have got as
/// far as a package name, and written verbatim if not.
pub proof fn law_end_commits_or_keeps(candidate: Seq<u8>)
    requires
        is_candidate(candidate),
    ensures
        rewritten(candidate) == if is_store_path(candidate) {
            replacement()
        } else {
            candidate
        },
{
    if is_store_path(candidate) {
        assert(candidate.take(candidate.len() as int) =~= candidate);
        lemma_collapse(candidate, candidate.len() as int);
        assert(candidate.skip(candidate.len() as int) =~= Seq::<u8>::empty());
        assert(rewritten(candidate) =~= replacement());
    } else {
        lemma_unfinished_verbatim(candidate);
    }
}

// ----- what is replaced and what is kept ---------------------------------

/// `s` with each store path replaced, however long it is.
pub open spec fn collapsed(s: Seq<u8>) -> Seq<u8>
    decreases s.len(),
{
    if s.len() == 0 {
        s
    } else if exists|n: int| store_path_at_start(s, n) {
        replacement() + collapsed(s.skip(choose|n: int| store_path_at_start(s, n)))
    } else {
        seq![s[0]] + collapsed(s.skip(1))
    }
}

/// No store path of `s` is longer than the cap.
pub open spec fn within_cap(s: Seq<u8>) -> bool {
    forall|j: int, n: int|
        0 <= j < s.len() && #[trigger] store_path_at_start(s.skip(j), n) ==> n <= MAX_CANDIDATE_LEN
}

/// Unless a store path is longer than the cap, rewriting is replacing every store path,
/// by the grammar alone.
pub proof fn law_grammar_decides(s: Seq<u8>)
    requires
        within_cap(s),
    ensures
        rewritten(s) == collapsed(s),
    decreases s.len(),
{
    if s.len() > 0 {
        assert(s.skip(0) =~= s);
        assert forall|n: int| store_path_at_start(s, n) <==> collapses(s, n) by {
            assert(store_path_at_start(s.skip(0), n) ==> n <= MAX_CANDIDATE_LEN);
        }
        let k = if exists|n: int| collapses(s, n) {
            let m = choose|n: int| collapses(s, n);
            let n = choose|n: int| store_path_at_start(s, n);
            lemma_path_unique(s, m, n);
            n
        } else {
            1
        };
        assert(within_cap(s.skip(k))) by {
            assert forall|j: int, n: int|
                0 <= j < s.skip(k).len() && #[trigger] store_path_at_start(
                    s.skip(k).skip(j),
                    n,
                ) implies n <= MAX_CANDIDATE_LEN by {
                assert(s.skip(k).skip(j) =~= s.skip(k + j));
            }
        }
        law_grammar_decides(s.skip(k));
    }
}

/// Adding to a text rewrites what was held back anew, and nothing else.
pub proof fn lemma_rewritten_append(a: Seq<u8>, b: Seq<u8>)
    ensures
        rewritten(a + b) == emitted(a) + rewritten(held(a) + b),
{
    lemma_finish(a + b);
    lemma_split(a, b);
    lemma_finish(held(a) + b);
    let rest = rewritten(held(a + b));
    assert((emitted(a) + emitted(held(a) + b)) + rest =~= emitted(a) + (emitted(held(a) + b)
        + rest));
}

/// Where `x` neither goes on with the candidate held back from `a` nor is part
/// of a store path that begins in it, the two texts are rewritten apart.
proof fn lemma_rewritten_apart(a: Seq<u8>, x: Seq<u8>)
    requires
        x.len() > 0,
        !pkg_char(x[0]),
        forall|j: int, n: int|
            0 <= j < held(a).len() && n > held(a).len() - j ==> !(
            #[trigger] store_path_at_start((held(a) + x).skip(j), n)),
    ensures
        rewritten(a + x) == rewritten(a) + rewritten(x),
{
    let p = held(a);
    let s = p + x;
    law_held_back(a);
    lemma_rewritten_append(a, x);
    lemma_finish(a);
    assert(s.skip(p.len() as int) =~= x);
    if is_store_path(p) {
        assert(s.take(p.len() as int) =~= p);
        lemma_collapse(s, p.len() as int);
        assert(p.take(p.len() as int) =~= p);
        lemma_collapse(p, p.len() as int);
        assert(p.skip(p.len() as int) =~= Seq::<u8>::empty());
        assert(rewritten(p) =~= replacement());
    } else {
        if p.len() > 0 {
            lemma_unfinished_verbatim(p);
        }
        assert forall|j: int, n: int| 0 <= j < p.len() implies !#[trigger] collapses(
            s.skip(j),
            n,
        ) by {
            if collapses(s.skip(j), n) {
                assert(n <= p.len() - j);
                assert(s.skip(j).take(n) =~= p.skip(j).take(n));
                if j == 0 {
                    assert(s.skip(0) =~= s);
                    lemma_path_covers_beginning(p, x, n);
                    assert(s.take(n) =~= p);
                } else {
                    let h = choose|h: int| store_path_with_hash(s.skip(j).take(n), h);
                    lemma_path_begins(s.skip(j).take(n), 11);
                    lemma_prefix_only_at_start(p, j);
                    let r = p.skip(j);
                    if n < r.len() {
                        assert(r[n] == s.skip(j)[n]);
                    }
                    assert(store_path_at_start(r, n));
                }
            }
        }
        lemma_rewritten_verbatim(s, p.len() as int);
        assert(s.take(p.len() as int) =~= p);
    }
    assert(emitted(a) + (rewritten(p) + rewritten(x)) =~= (emitted(a) + rewritten(p)) + rewritten(
        x,
    ));
}

/// No `/nix/` stands inside a store path but at its beginning.
proof fn lemma_no_prefix_inside(s: Seq<u8>, n: int, d: int)
    requires
        0 < d < n,
        d + 4 < s.len(),
        s[d] == '/' as u8,
        s[d + 1] == 'n' as u8,
        s[d + 4] == '/' as u8,
    ensures
        !store_path_at_start(s, n),
{
    if store_path_at_start(s, n) {
        let t = s.take(n);
        let h = choose|h: int| store_path_with_hash(t, h);
        assert(t[d] == s[d]);
        assert(forall|i: int| 0 <= i < 11 ==> t[i] == t.take(11)[i]);
        if d == 4 {
            assert(t[5] == s[5]);
        } else if d == 10 {
            assert(hash_char(t[14]));
        } else if d > 11 + h {
            assert(pkg_char(t[d]));
        }
    }
}

/// A text at whose beginning a store path stands opens with `/nix/`.
proof fn lemma_path_opens(s: Seq<u8>, n: int)
    requires
        store_path_at_start(s, n),
    ensures
        s.len() > 4,
        s[0] == '/' as u8,
        s[1] == 'n' as u8,
        s[4] == '/' as u8,
{
    let t = s.take(n);
    let h = choose|h: int| store_path_with_hash(t, h);
    assert(forall|i: int| 0 <= i < 11 ==> s[i] == t.take(11)[i]);
}

/// A text that opens with a store path is rewritten apart from what comes
/// before it.
proof fn lemma_path_apart(before: Seq<u8>, path: Seq<u8>, after: Seq<u8>)
    requires
        is_store_path(path),
    ensures
        rewritten(before + path + after) == rewritten(before) + rewritten(path + after),
{
    let x = path + after;
    let p = held(before);
    let s = p + x;
    assert(before + path + after =~= before + x);
    let h = choose|h: int| store_path_with_hash(path, h);
    assert(forall|i: int| 0 <= i < 11 ==> x[i] == path.take(11)[i]);
    law_held_back(before);
    assert forall|j: int, n: int| 0 <= j < p.len() && n > p.len() - j implies !(
    #[trigger] store_path_at_start(s.skip(j), n)) by {
        let d = p.len() - j;
        assert(s.skip(j)[d] == x[0]);
        assert(s.skip(j)[d + 1] == x[1]);
        assert(s.skip(j)[d + 4] == x[4]);
        lemma_no_prefix_inside(s.skip(j), n, d);
    }
    lemma_rewritten_apart(before, x);
}

/// Wherever a store path stands in a stream, and whatever comes before it, it
/// is replaced by `nix:` unless it is longer than the cap, and what stands
/// around it is rewritten as if it stood alone.
pub proof fn law_store_path_collapses(before: Seq<u8>, path: Seq<u8>, after: Seq<u8>)
    requires
        is_store_path(path),
        after.len() > 0 ==> !pkg_char(after[0]),
        path.len() <= MAX_CANDIDATE_LEN,
    ensures
        rewritten(before + path + after) == rewritten(before) + replacement() + rewritten(after),
{
    let x = path + after;
    lemma_path_apart(before, path, after);
    assert(x.take(path.len() as int) =~= path);
    assert(x.skip(path.len() as int) =~= after);
    lemma_collapse(x, path.len() as int);
    assert(rewritten(before) + (replacement() + rewritten(after)) =~= rewritten(before)
        + replacement() + rewritten(after));
}

/// A store path that is longer than the cap is kept as it is, wherever it
/// stands, and what stands around it is rewritten as if it stood alone.
pub proof fn law_oversized_path_is_kept(before: Seq<u8>, path: Seq<u8>, after: Seq<u8>)
    requires
        is_store_path(path),
        after.len() > 0 ==> !pkg_char(after[0]),
        path.len() > MAX_CANDIDATE_LEN,
    ensures
        rewritten(before + path + after) == rewritten(before) + path + rewritten(after),
{
    let x = path + after;
    let k = path.len() as int;
    lemma_path_apart(before, path, after);
    assert(x.take(k) =~= path);
    assert(x.skip(k) =~= after);
    assert(store_path_at_start(x, k));
    assert forall|j: int, n: int| 0 <= j < k implies !#[trigger] collapses(x.skip(j), n) by {
        let r = x.skip(j);
        if collapses(r, n) {
            if j == 0 {
                assert(r =~= x);
                lemma_path_unique(x, n, k);
            } else {
                lemma_path_opens(r, n);
                lemma_no_prefix_inside(x, k, j);
            }
        }
    }
    lemma_rewritten_verbatim(x, k);
    assert(rewritten(before) + (path + rewritten(after)) =~= rewritten(before) + path + rewritten(
        after,
    ));
}

/// A byte that no store path holds (a blank, a line end, a control byte of a
/// terminal escape, any byte beyond ASCII) parts a stream in two that are
/// rewritten apart.
pub proof fn law_other_bytes_part(a: Seq<u8>, b: u8, c: Seq<u8>)
    requires
        b != '/' as u8,
        !pkg_char(b),
    ensures
        rewritten(a + seq![b] + c) == rewritten(a) + seq![b] + rewritten(c),
{
    let x = seq![b] + c;
    let p = held(a);
    let s = p + x;
    assert(a + seq![b] + c =~= a + x);
    law_held_back(a);
    assert forall|j: int, n: int| 0 <= j < p.len() && n > p.len() - j implies !(
    #[trigger] store_path_at_start(s.skip(j), n)) by {
        let r = s.skip(j);
        if store_path_at_start(r, n) {
            let t = r.take(n);
            let g = choose|g: int| store_path_with_hash(t, g);
            let d = p.len() - j;
            assert(t[d] == b);
            if d < 11 {
                assert(t[d] == t.take(11)[d]);
            } else if d > 11 + g {
                assert(pkg_char(t[d]));
            }
        }
    }
    lemma_rewritten_apart(a, x);
    lemma_departs_from_prefix(x, 0);
    assert(x.skip(1) =~= c);
    assert(rewritten(a) + (seq![b] + rewritten(c)) =~= rewritten(a) + seq![b] + rewritten(c));
}

/// A text that holds no store path passes through untouched.
pub proof fn law_other_text_is_kept(s: Seq<u8>)
    requires
        forall|j: int, n: int|
            0 <= j < s.len() ==> !(#[trigger] store_path_at_start(s.skip(j), n)),
    ensures
        rewritten(s) == s,
{
    assert forall|j: int, n: int| 0 <= j < s.len() implies !#[trigger] collapses(s.skip(j), n) by {
        assert(!store_path_at_start(s.skip(j), n));
    }
    lemma_rewritten_verbatim(s, s.len() as int);
    assert(s.take(s.len() as int) + rewritten(s.skip(s.len() as int)) =~= s);
}

/// A text in which `/nix/store/` does not occur passes through untouched.
pub proof fn law_no_prefix_no_change(s: Seq<u8>)
    requires
        forall|j: int|
            0 <= j <= s.len() - prefix().len() ==> #[trigger] s.subrange(
                j,
                j + prefix().len(),
            ) != prefix(),
    ensures
        rewritten(s) == s,
{
    assert forall|j: int, n: int| 0 <= j < s.len() implies !(
    #[trigger] store_path_at_start(s.skip(j), n)) by {
        if store_path_at_start(s.skip(j), n) {
            let h = choose|h: int| store_path_with_hash(s.skip(j).take(n), h);
            assert(s.subrange(j, j + prefix().len()) =~= s.skip(j).take(n).take(11));
        }
    }
    law_other_text_is_kept(s);
}

/// The output is never longer than the input.
pub proof fn law_never_longer(s: Seq<u8>)
    ensures
        rewritten(s).len() <= s.len(),
    decreases s.len(),
{
    if s.len() == 0 {
    } else if exists|n: int| collapses(s, n) {
        let n = choose|n: int| collapses(s, n);
        let h = choose|h: int| store_path_with_hash(s.take(n), h);
        law_never_longer(s.skip(n));
    } else {
        law_never_longer(s.skip(1));
    }
}

// ----- the pipe ----------------------------------------------------------

/// What came of one read of an input that can be read to its end: some bytes,
/// or an interruption.
pub enum Reading {
    Chunk(Seq<u8>),
    Interrupted,
}

/// Each chunk holds at least one byte.
pub open spec fn all_chunks_filled(reads: Seq<Reading>) -> bool {
    forall|i: int|
        0 <= i < reads.len() ==> (#[trigger] reads[i] matches Reading::Chunk(c) ==> c.len() > 0)
}

/// All the bytes read.
pub open spec fn all_read(reads: Seq<Reading>) -> Seq<u8>
    decreases reads.len(),
{
    if reads.len() == 0 {
        Seq::empty()
    } else {
        match reads.last() {
            Reading::Chunk(c) => all_read(reads.drop_last()) + c,
            Reading::Interrupted => all_read(reads.drop_last()),
        }
    }
}

/// The bytes that an action writes.
pub open spec fn bytes_of(action: ActionView) -> Seq<u8> {
    match action {
        ActionView::Write(bytes) => bytes,
        _ => Seq::empty(),
    }
}

/// A fresh pipe after these reads, each followed by the write it asks for.
pub open spec fn piped(reads: Seq<Reading>) -> PipeView
    decreases reads.len(),
{
    if reads.len() == 0 {
        fresh_pipe()
    } else {
        let pipe = piped(reads.drop_last());
        match reads.last() {
            Reading::Chunk(c) => pipe_after(
                pipe_after(pipe, EventView::Read(c)),
                EventView::Written,
            ),
            Reading::Interrupted => pipe_after(pipe, EventView::ReadInterrupted),
        }
    }
}

/// What was written meanwhile.
pub open spec fn piped_out(reads: Seq<Reading>) -> Seq<u8>
    decreases reads.len(),
{
    if reads.len() == 0 {
        Seq::empty()
    } else {
        let pipe = piped(reads.drop_last());
        let out = piped_out(reads.drop_last());
        match reads.last() {
            Reading::Chunk(c) => out + bytes_of(pipe_action(pipe, EventView::Read(c))),
            Reading::Interrupted => out + bytes_of(pipe_action(pipe, EventView::ReadInterrupted)),
        }
    }
}

/// Between reads a pipe is where the rewriter is after the same bytes.
proof fn lemma_piped(reads: Seq<Reading>)
    requires
        all_chunks_filled(reads),
    ensures
        piped(reads) == (PipeView {
            held: held(all_read(reads)),
            total: all_read(reads).len() as int,
            ended: false,
        }),
        piped_out(reads) == emitted(all_read(reads)),
    decreases reads.len(),
{
    if reads.len() > 0 {
        let init = reads.drop_last();
        assert(all_chunks_filled(init)) by {
            assert(forall|i: int| 0 <= i < init.len() ==> init[i] == reads[i]);
        }
        lemma_piped(init);
        match reads.last() {
            Reading::Chunk(c) => {
                assert(reads[reads.len() - 1] == reads.last());
                lemma_split(all_read(init), c);
            },
            Reading::Interrupted => {
                assert(piped_out(init) + Seq::<u8>::empty() =~= piped_out(init));
            },
        }
    }
}

/// However an input arrives, in whatever chunks and with whatever
/// interruptions, a pipe asks for the next read after each of them, writes the
/// rewriting of the whole input by its end, and reports the length of the
/// input.
pub proof fn law_pipe_rewrites_its_input(reads: Seq<Reading>)
    requires
        all_chunks_filled(reads),
    ensures
        pipe_action(piped(reads), EventView::ReadInterrupted) is Read,
        pipe_action(piped(reads), EventView::Written) is Read,
        ({
            let pipe = piped(reads);
            let last = pipe_action(pipe, EventView::Read(Seq::empty()));
            let end = pipe_after(pipe, EventView::Read(Seq::empty()));
            let done = ActionView::Finish(all_read(reads).len() as int);
            &&& piped_out(reads) + bytes_of(last) == rewritten(all_read(reads))
            &&& last == done || (last is Write && pipe_action(end, EventView::Written) == done)
        }),
{
    lemma_piped(reads);
    lemma_finish(all_read(reads));
    let tail = rewritten(piped(reads).held);
    if tail.len() == 0 {
        assert(tail =~= Seq::<u8>::empty());
    }
}

/// A read or a write that fails ends the pipe with that error, at whatever
/// point it comes.
pub proof fn law_pipe_propagates_errors(pipe: PipeView)
    ensures
        pipe_action(pipe, EventView::ReadFailed) is Fail,
        pipe_action(pipe, EventView::WriteFailed) is Fail,
{
}

// ----- the session -------------------------------------------------------

/// The bytes that these writes have written.
pub open spec fn bytes_written(events: Seq<WriteEvent>) -> int
    decreases events.len(),
{
    if events.len() == 0 {
        0
    } else {
        bytes_written(events.drop_last()) + match events.last() {
            WriteEvent::Wrote(n) => n as int,
            _ => 0,
        }
    }
}

/// How writing a buffer of `len` bytes goes on after these events.
pub open spec fn write_after_all(len: int, events: Seq<WriteEvent>) -> WriteAction
    decreases events.len(),
{
    if events.len() == 0 {
        write_rest(len, 0)
    } else {
        match write_after_all(len, events.drop_last()) {
            WriteAction::WriteFrom(done) => write_after(len, done as int, events.last()),
            action => action,
        }
    }
}

/// Unless a write fails, writing a buffer goes on where the last write left
/// off, however many writes it takes and whatever interrupts them, until the
/// whole buffer has been written.
pub proof fn law_writing_is_complete(len: usize, events: Seq<WriteEvent>)
    requires
        forall|i: int| 0 <= i < events.len() ==> !(#[trigger] events[i] is Failed),
        bytes_written(events) <= len,
    ensures
        write_after_all(len as int, events) == write_rest(len as int, bytes_written(events)),
        write_after_all(len as int, events) is Done <==> bytes_written(events) == len,
        bytes_written(events) >= 0,
    decreases events.len(),
{
    if events.len() > 0 {
        let init = events.drop_last();
        assert(events.last() == events[events.len() - 1]);
        assert(forall|i: int| 0 <= i < init.len() ==> init[i] == events[i]);
        law_writing_is_complete(len, init);
    }
}

/// The wrapper exits with the code of the shell it wraps, and with 128 and the
/// signal's number where a signal killed it.
pub proof fn law_exit_code_is_passed_on(code: i32, signal: i32)
    requires
        0 <= code <= 255,
        0 <= signal <= 127,
    ensures
        nearest_exit_code(session_code(ChildStatus::Exited(code))) == code,
        nearest_exit_code(session_code(ChildStatus::Signaled(signal))) == 128 + signal,
{
}

} // verus!
