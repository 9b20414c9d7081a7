//! What the library does, said of plain bytes, arguments and codes: the laws
//! here name the bytes and numbers themselves, so that they can be read
//! without the definitions that the contracts use.
use vstd::prelude::*;

use crate::grammar::{
    emitted, hash_char, held, is_store_path, pkg_char, prefix, replacement, rewritten,
    store_path_at_start, store_path_with_hash,
};
use crate::laws::{
    bytes_of, bytes_written, law_held_back, law_other_bytes_part, law_other_text_is_kept,
    law_oversized_path_is_kept, law_store_path_collapses, law_writing_is_complete,
    lemma_rewritten_append, write_after_all,
};
use crate::lemmas::{
    hash_begun, hash_closed, lemma_beginning_shape, lemma_finish, lemma_split,
};
use crate::pipe::{
    fresh_pipe, pipe_action, pipe_after, ActionView, EventView, PipeAction, PipeEvent, PipeView,
};
use crate::session::{
    argv_outcome, has_nul, launch_plan, nearest_exit_code, session_code, ArgvError, ChildStatus,
    LaunchPlan, WriteAction, WriteEvent,
};

verus! {

// ----- texts -------------------------------------------------------------

/// The bytes of `/nix/store/`, a hash, `-` and a package name are a store path.
proof fn lemma_spelled_path(hash: Seq<u8>, pkg: Seq<u8>)
    requires
        hash.len() >= 32,
        forall|i: int| 0 <= i < hash.len() ==> hash_char(#[trigger] hash[i]),
        pkg.len() >= 1,
        forall|i: int| 0 <= i < pkg.len() ==> pkg_char(#[trigger] pkg[i]),
    ensures
        is_store_path(prefix() + hash + seq!['-' as u8] + pkg),
{
    let t = prefix() + hash + seq!['-' as u8] + pkg;
    let h = hash.len() as int;
    assert(t.take(11) =~= prefix());
    assert forall|i: int| 11 <= i < 11 + h implies hash_char(#[trigger] t[i]) by {
        assert(t[i] == hash[i - 11]);
    }
    assert forall|i: int| 11 + h < i < t.len() implies pkg_char(#[trigger] t[i]) by {
        assert(t[i] == pkg[i - 12 - h]);
    }
    assert(store_path_with_hash(t, h));
}

/// Wherever `/nix/store/`, 32 or more of `[0-9a-z]`, `-` and one or more of
/// `[A-Za-z0-9._+-]` stand in a text, 1024 bytes at most, and the last of these
/// do not go on, `nix:` takes their place, and what stands before and behind
/// them is rewritten as if it stood alone.
pub proof fn law_spelled_path_is_replaced(
    before: Seq<u8>,
    hash: Seq<u8>,
    pkg: Seq<u8>,
    after: Seq<u8>,
)
    requires
        hash.len() >= 32,
        forall|i: int|
            0 <= i < hash.len() ==> ('0' as u8 <= #[trigger] hash[i] <= '9' as u8 || 'a' as u8
                <= hash[i] <= 'z' as u8),
        pkg.len() >= 1,
        forall|i: int|
            0 <= i < pkg.len() ==> ('0' as u8 <= #[trigger] pkg[i] <= '9' as u8 || 'a' as u8
                <= pkg[i] <= 'z' as u8 || 'A' as u8 <= pkg[i] <= 'Z' as u8 || pkg[i] == '.' as u8
                || pkg[i] == '_' as u8 || pkg[i] == '+' as u8 || pkg[i] == '-' as u8),
        11 + hash.len() + 1 + pkg.len() <= 1024,
        after.len() > 0 ==> !('0' as u8 <= after[0] <= '9' as u8 || 'a' as u8 <= after[0]
            <= 'z' as u8 || 'A' as u8 <= after[0] <= 'Z' as u8 || after[0] == '.' as u8 || after[0]
            == '_' as u8 || after[0] == '+' as u8 || after[0] == '-' as u8),
    ensures
        rewritten(
            before + seq![
                '/' as u8, 'n' as u8, 'i' as u8, 'x' as u8, '/' as u8, 's' as u8, 't' as u8,
                'o' as u8, 'r' as u8, 'e' as u8, '/' as u8,
            ] + hash + seq!['-' as u8] + pkg + after,
        ) == rewritten(before) + seq!['n' as u8, 'i' as u8, 'x' as u8, ':' as u8] + rewritten(
            after,
        ),
{
    let path = prefix() + hash + seq!['-' as u8] + pkg;
    lemma_spelled_path(hash, pkg);
    law_store_path_collapses(before, path, after);
    assert(before + prefix() + hash + seq!['-' as u8] + pkg + after =~= before + path + after);
}

/// The same bytes are kept where there are more than 1024 of them.
pub proof fn law_spelled_long_path_is_kept(
    before: Seq<u8>,
    hash: Seq<u8>,
    pkg: Seq<u8>,
    after: Seq<u8>,
)
    requires
        hash.len() >= 32,
        forall|i: int|
            0 <= i < hash.len() ==> ('0' as u8 <= #[trigger] hash[i] <= '9' as u8 || 'a' as u8
                <= hash[i] <= 'z' as u8),
        pkg.len() >= 1,
        forall|i: int|
            0 <= i < pkg.len() ==> ('0' as u8 <= #[trigger] pkg[i] <= '9' as u8 || 'a' as u8
                <= pkg[i] <= 'z' as u8 || 'A' as u8 <= pkg[i] <= 'Z' as u8 || pkg[i] == '.' as u8
                || pkg[i] == '_' as u8 || pkg[i] == '+' as u8 || pkg[i] == '-' as u8),
        11 + hash.len() + 1 + pkg.len() > 1024,
        after.len() > 0 ==> !('0' as u8 <= after[0] <= '9' as u8 || 'a' as u8 <= after[0]
            <= 'z' as u8 || 'A' as u8 <= after[0] <= 'Z' as u8 || after[0] == '.' as u8 || after[0]
            == '_' as u8 || after[0] == '+' as u8 || after[0] == '-' as u8),
    ensures
        ({
            let path = seq![
                '/' as u8, 'n' as u8, 'i' as u8, 'x' as u8, '/' as u8, 's' as u8, 't' as u8,
                'o' as u8, 'r' as u8, 'e' as u8, '/' as u8,
            ] + hash + seq!['-' as u8] + pkg;
            rewritten(before + path + after) == rewritten(before) + path + rewritten(after)
        }),
{
    lemma_spelled_path(hash, pkg);
    law_oversized_path_is_kept(before, prefix() + hash + seq!['-' as u8] + pkg, after);
}

/// A text that nowhere spells `/nix/store/`, 32 or more of `[0-9a-z]`, `-` and
/// one of `[A-Za-z0-9._+-]` passes through untouched.
pub proof fn law_unspelled_text_is_kept(s: Seq<u8>)
    requires
        forall|j: int, k: int|
            #![trigger s.subrange(j, k)]
            0 <= j && j + 11 + 32 <= k && k + 1 < s.len() ==> !({
                &&& s.subrange(j, j + 11) == seq![
                    '/' as u8, 'n' as u8, 'i' as u8, 'x' as u8, '/' as u8, 's' as u8, 't' as u8,
                    'o' as u8, 'r' as u8, 'e' as u8, '/' as u8,
                ]
                &&& forall|i: int|
                    j + 11 <= i < k ==> ('0' as u8 <= #[trigger] s[i] <= '9' as u8 || 'a' as u8
                        <= s[i] <= 'z' as u8)
                &&& s[k] == '-' as u8
                &&& ('0' as u8 <= s[k + 1] <= '9' as u8 || 'a' as u8 <= s[k + 1] <= 'z' as u8
                    || 'A' as u8 <= s[k + 1] <= 'Z' as u8 || s[k + 1] == '.' as u8 || s[k + 1]
                    == '_' as u8 || s[k + 1] == '+' as u8 || s[k + 1] == '-' as u8)
            }),
    ensures
        rewritten(s) == s,
{
    assert forall|j: int, n: int| 0 <= j < s.len() implies !(
    #[trigger] store_path_at_start(s.skip(j), n)) by {
        if store_path_at_start(s.skip(j), n) {
            let t = s.skip(j).take(n);
            let h = choose|h: int| store_path_with_hash(t, h);
            let k = j + 11 + h;
            assert(forall|i: int| 0 <= i < n ==> t[i] == s[j + i]);
            assert(s.subrange(j, j + 11) =~= t.take(11));
            assert forall|i: int| j + 11 <= i < k implies hash_char(#[trigger] s[i]) by {
                assert(hash_char(t[i - j]));
            }
            assert(t[11 + h] == s[k]);
            assert(pkg_char(t[12 + h]));
            assert(s[k + 1] == t[12 + h]);
            assert(s.subrange(j, k).len() == k - j);
        }
    }
    law_other_text_is_kept(s);
}

/// A byte that is neither `/` nor one of `[A-Za-z0-9._+-]` comes out as it is,
/// and parts a text in two that are rewritten apart.
pub proof fn law_plain_byte_parts(a: Seq<u8>, b: u8, c: Seq<u8>)
    requires
        !('0' as u8 <= b <= '9' as u8 || 'a' as u8 <= b <= 'z' as u8 || 'A' as u8 <= b <= 'Z' as u8
            || b == '.' as u8 || b == '_' as u8 || b == '+' as u8 || b == '-' as u8 || b
            == '/' as u8),
    ensures
        rewritten(a + seq![b] + c) == rewritten(a) + seq![b] + rewritten(c),
{
    law_other_bytes_part(a, b, c);
}

// ----- streams -----------------------------------------------------------

/// What has been written of a text stands, whatever follows: only what was
/// held back is still to be decided.
pub proof fn law_written_is_settled(s: Seq<u8>, more: Seq<u8>)
    ensures
        rewritten(s + more) == emitted(s) + rewritten(held(s) + more),
{
    lemma_rewritten_append(s, more);
}

/// What is held back of a text is its end, 1024 bytes at most, and reads as
/// the beginning of a store path does: so much of `/nix/store/`, so many of
/// `[0-9a-z]`, and then, after 32 of these or more, `-` and some of
/// `[A-Za-z0-9._+-]`.
pub proof fn law_held_is_spelled(s: Seq<u8>)
    ensures
        ({
            let p = held(s);
            let opening = seq![
                '/' as u8, 'n' as u8, 'i' as u8, 'x' as u8, '/' as u8, 's' as u8, 't' as u8,
                'o' as u8, 'r' as u8, 'e' as u8, '/' as u8,
            ];
            &&& p.len() <= 1024
            &&& p.len() <= s.len()
            &&& p == s.skip(s.len() - p.len())
            &&& forall|i: int| 0 <= i < p.len() && i < 11 ==> p[i] == #[trigger] opening[i]
            &&& exists|k: int|
                #![trigger p[k]]
                {
                    &&& 11 <= k
                    &&& forall|i: int|
                        11 <= i < k && i < p.len() ==> ('0' as u8 <= #[trigger] p[i] <= '9' as u8
                            || 'a' as u8 <= p[i] <= 'z' as u8)
                    &&& k < p.len() ==> {
                        &&& k >= 11 + 32
                        &&& p[k] == '-' as u8
                        &&& forall|i: int|
                            k < i < p.len() ==> ('0' as u8 <= #[trigger] p[i] <= '9' as u8
                                || 'a' as u8 <= p[i] <= 'z' as u8 || 'A' as u8 <= p[i] <= 'Z' as u8
                                || p[i] == '.' as u8 || p[i] == '_' as u8 || p[i] == '+' as u8
                                || p[i] == '-' as u8)
                    }
                }
        }),
{
    let p = held(s);
    law_held_back(s);
    if p.len() > 0 {
        lemma_beginning_shape(p);
        if p.len() <= 11 {
            let k: int = 11;
            let _ = p[k];
        } else {
            assert(forall|i: int| 0 <= i < 11 ==> p[i] == #[trigger] p.take(11)[i]);
            if hash_begun(p) {
                let k = p.len() as int;
                assert(forall|i: int| 11 <= i < k ==> hash_char(#[trigger] p[i]));
                let _ = p[k];
            } else {
                let h = choose|h: int| hash_closed(p, h);
                let k = 11 + h;
                assert(p[k] == '-' as u8);
            }
        }
    } else {
        let k: int = 11;
        let _ = p[k];
    }
}

/// Nothing is held back behind a byte that is neither `/` nor one of
/// `[A-Za-z0-9._+-]`: the whole text up to it has been written.
pub proof fn law_plain_byte_settles(s: Seq<u8>, b: u8)
    requires
        !('0' as u8 <= b <= '9' as u8 || 'a' as u8 <= b <= 'z' as u8 || 'A' as u8 <= b <= 'Z' as u8
            || b == '.' as u8 || b == '_' as u8 || b == '+' as u8 || b == '-' as u8 || b
            == '/' as u8),
    ensures
        held(s.push(b)).len() == 0,
        emitted(s.push(b)) == rewritten(s.push(b)),
{
    let t = s.push(b);
    let p = held(t);
    law_held_is_spelled(t);
    lemma_finish(t);
    if p.len() > 0 {
        let last = p.len() - 1;
        assert(p[last] == t[t.len() - 1]);
        if last < 11 {
            assert(p[last] == prefix()[last]);
        }
    } else {
        assert(p =~= Seq::<u8>::empty());
        assert(emitted(t) + rewritten(p) =~= emitted(t));
    }
}

// ----- the pipe ----------------------------------------------------------

/// What a fresh pipe has become after these events.
pub open spec fn pipe_run(events: Seq<EventView>) -> PipeView
    decreases events.len(),
{
    if events.len() == 0 {
        fresh_pipe()
    } else {
        pipe_after(pipe_run(events.drop_last()), events.last())
    }
}

/// All the bytes that these events have read.
pub open spec fn bytes_in(events: Seq<EventView>) -> Seq<u8>
    decreases events.len(),
{
    if events.len() == 0 {
        Seq::empty()
    } else {
        match events.last() {
            EventView::Read(chunk) => bytes_in(events.drop_last()) + chunk,
            _ => bytes_in(events.drop_last()),
        }
    }
}

/// All the bytes that a fresh pipe has asked to write at these events.
pub open spec fn bytes_out(events: Seq<EventView>) -> Seq<u8>
    decreases events.len(),
{
    if events.len() == 0 {
        Seq::empty()
    } else {
        bytes_out(events.drop_last()) + bytes_of(
            pipe_action(pipe_run(events.drop_last()), events.last()),
        )
    }
}

/// A read has come to the end of the input.
pub open spec fn input_ended(events: Seq<EventView>) -> bool {
    exists|i: int|
        0 <= i < events.len() && (#[trigger] events[i] matches EventView::Read(c) && c.len() == 0)
}

/// What a run of events leaves of a pipe, and what it has written.
proof fn lemma_pipe_run(events: Seq<EventView>)
    ensures
        pipe_run(events).total == bytes_in(events).len(),
        pipe_run(events).ended <==> input_ended(events),
        !input_ended(events) ==> pipe_run(events).held == held(bytes_in(events)),
        !input_ended(events) ==> bytes_out(events) == emitted(bytes_in(events)),
    decreases events.len(),
{
    if events.len() > 0 {
        let init = events.drop_last();
        let last = events.last();
        lemma_pipe_run(init);
        assert(events[events.len() - 1] == last);
        assert(forall|i: int| 0 <= i < init.len() ==> init[i] == events[i]);
        if input_ended(init) {
            let i = choose|i: int|
                0 <= i < init.len() && (#[trigger] init[i] matches EventView::Read(c) && c.len()
                    == 0);
            assert(events[i] == init[i]);
        }
        match last {
            EventView::Read(chunk) => {
                lemma_split(bytes_in(init), chunk);
            },
            _ => {
                assert(bytes_out(init) + Seq::<u8>::empty() =~= bytes_out(init));
            },
        }
    }
}

/// Whatever has happened, as long as no read has come to the end of the input
/// the pipe goes on: it answers every read of some bytes by a write, also of
/// none at all, and every finished write and every interrupted read by a read.
/// What it has written is all that can be written of the bytes read.
pub proof fn law_pipe_goes_on(events: Seq<EventView>, chunk: Seq<u8>)
    requires
        !input_ended(events),
        chunk.len() > 0,
    ensures
        pipe_action(pipe_run(events), EventView::Read(chunk)) is Write,
        pipe_action(pipe_run(events.push(EventView::Read(chunk))), EventView::Written) is Read,
        pipe_action(pipe_run(events), EventView::Written) is Read,
        pipe_action(pipe_run(events), EventView::ReadInterrupted) is Read,
        bytes_out(events.push(EventView::Read(chunk))) == emitted(bytes_in(events) + chunk),
{
    let next = events.push(EventView::Read(chunk));
    lemma_pipe_run(events);
    lemma_pipe_run(next);
    assert(next.drop_last() =~= events);
    if input_ended(next) {
        let i = choose|i: int|
            0 <= i < next.len() && (#[trigger] next[i] matches EventView::Read(c) && c.len() == 0);
        assert(i < events.len());
        assert(events[i] == next[i]);
    }
}

/// A pipe finishes only once a read has come to the end of the input, and then
/// reports how many bytes were read.
pub proof fn law_pipe_finishes_only_at_the_end(events: Seq<EventView>, event: EventView)
    requires
        pipe_action(pipe_run(events), event) is Finish,
    ensures
        input_ended(events.push(event)),
        pipe_action(pipe_run(events), event) == ActionView::Finish(bytes_in(events).len() as int),
{
    let next = events.push(event);
    lemma_pipe_run(events);
    if input_ended(events) {
        let i = choose|i: int|
            0 <= i < events.len() && (#[trigger] events[i] matches EventView::Read(c) && c.len()
                == 0);
        assert(next[i] == events[i]);
    } else {
        assert(next[events.len() as int] == event);
    }
}

/// At the end of the input a pipe has written, or writes at last, the
/// rewriting of all the bytes read, and finishes with their number.
pub proof fn law_pipe_ends_with_everything_written(events: Seq<EventView>)
    requires
        !input_ended(events),
    ensures
        ({
            let end = EventView::Read(Seq::empty());
            let last = pipe_action(pipe_run(events), end);
            let done = ActionView::Finish(bytes_in(events).len() as int);
            &&& bytes_out(events.push(end)) == rewritten(bytes_in(events))
            &&& last == done || (last is Write && pipe_action(
                pipe_run(events.push(end)),
                EventView::Written,
            ) == done)
        }),
{
    let end = EventView::Read(Seq::<u8>::empty());
    let next = events.push(end);
    lemma_pipe_run(events);
    lemma_finish(bytes_in(events));
    assert(next.drop_last() =~= events);
    let tail = rewritten(held(bytes_in(events)));
    if tail.len() == 0 {
        assert(tail =~= Seq::<u8>::empty());
    }
}

/// A read or a write that fails ends the pipe, whatever has happened before.
pub proof fn law_pipe_stops_at_errors(events: Seq<EventView>)
    ensures
        pipe_action(pipe_run(events), EventView::ReadFailed) is Fail,
        pipe_action(pipe_run(events), EventView::WriteFailed) is Fail,
{
}

/// An event is seen with all the bytes it carries, and as what it is.
pub proof fn law_events_are_seen_whole(event: PipeEvent<'_>)
    ensures
        event matches PipeEvent::Read(chunk) ==> event@ == EventView::Read(chunk@),
        event is ReadInterrupted ==> event@ is ReadInterrupted,
        event is ReadFailed ==> event@ is ReadFailed,
        event is Written ==> event@ is Written,
        event is WriteFailed ==> event@ is WriteFailed,
{
}

/// An action is seen with all the bytes or the count it carries, and as what
/// it is.
pub proof fn law_actions_are_seen_whole(action: PipeAction)
    ensures
        action matches PipeAction::Write(bytes) ==> action@ == ActionView::Write(bytes@),
        action matches PipeAction::Finish(total) ==> action@ == ActionView::Finish(total as int),
        action is Read ==> action@ is Read,
        action is Fail ==> action@ is Fail,
{
}

// ----- writing a buffer --------------------------------------------------

/// The bytes of `buf` that these writes have sent: each write sends so many of
/// them from the offset that was asked for.
pub open spec fn sent(buf: Seq<u8>, events: Seq<WriteEvent>) -> Seq<u8>
    decreases events.len(),
{
    if events.len() == 0 {
        Seq::empty()
    } else {
        let before = sent(buf, events.drop_last());
        match (write_after_all(buf.len() as int, events.drop_last()), events.last()) {
            (WriteAction::WriteFrom(offset), WriteEvent::Wrote(n)) => before + buf.subrange(
                offset as int,
                offset + n,
            ),
            _ => before,
        }
    }
}

/// Unless a write fails, the next write starts behind the last byte written,
/// and there is none once all bytes are written.
pub proof fn law_writing_goes_on_where_it_stopped(len: usize, events: Seq<WriteEvent>)
    requires
        forall|i: int| 0 <= i < events.len() ==> !(#[trigger] events[i] is Failed),
        bytes_written(events) <= len,
    ensures
        bytes_written(events) >= 0,
        bytes_written(events) < len ==> write_after_all(len as int, events)
            == WriteAction::WriteFrom(bytes_written(events) as usize),
        bytes_written(events) == len ==> write_after_all(len as int, events) == WriteAction::Done,
{
    law_writing_is_complete(len, events);
}

/// Unless a write fails, what has been sent is the beginning of the buffer,
/// each byte once and in order; when writing is done it is the whole buffer.
pub proof fn law_buffer_is_sent_in_order(buf: Seq<u8>, events: Seq<WriteEvent>)
    requires
        buf.len() <= usize::MAX,
        forall|i: int| 0 <= i < events.len() ==> !(#[trigger] events[i] is Failed),
        bytes_written(events) <= buf.len(),
    ensures
        0 <= bytes_written(events),
        sent(buf, events) == buf.take(bytes_written(events)),
        write_after_all(buf.len() as int, events) is Done ==> sent(buf, events) == buf,
    decreases events.len(),
{
    let len = buf.len() as usize;
    law_writing_is_complete(len, events);
    if events.len() > 0 {
        let init = events.drop_last();
        assert(events.last() == events[events.len() - 1]);
        assert(forall|i: int| 0 <= i < init.len() ==> init[i] == events[i]);
        law_buffer_is_sent_in_order(buf, init);
        law_writing_is_complete(len, init);
        let done = bytes_written(init);
        assert(buf.take(done) + buf.subrange(done, bytes_written(events)) =~= buf.take(
            bytes_written(events),
        ));
        assert(buf.take(done) + Seq::<u8>::empty() =~= buf.take(done));
    }
    assert(sent(buf, events) =~= buf.take(bytes_written(events)));
    assert(buf.take(buf.len() as int) =~= buf);
}

/// A write that fails while bytes are left ends the writing.
pub proof fn law_failed_write_ends_writing(len: usize, events: Seq<WriteEvent>)
    requires
        forall|i: int| 0 <= i < events.len() ==> !(#[trigger] events[i] is Failed),
        bytes_written(events) < len,
    ensures
        write_after_all(len as int, events.push(WriteEvent::Failed)) == WriteAction::Fail,
{
    law_writing_is_complete(len, events);
    assert(events.push(WriteEvent::Failed).drop_last() =~= events);
}

// ----- starting the shell ------------------------------------------------

/// Help is given where the first argument asks for it, and nowhere else.
pub proof fn law_help_where_asked(args: Seq<Seq<char>>, shell: Option<Seq<char>>)
    ensures
        args.len() == 0 ==> launch_plan(args, shell) is Run,
        args.len() > 0 && args[0] != "--help"@ && args[0] != "-h"@ ==> launch_plan(
            args,
            shell,
        ) is Run,
        args.len() > 0 && (args[0] == "--help"@ || args[0] == "-h"@) ==> launch_plan(
            args,
            shell,
        ) is Help,
{
}

/// Where no help is asked for, the shell that the environment names is run, or
/// `bash`, with the arguments as they are given, or with `-i` if there are
/// none.
pub proof fn law_command_line_is_passed_on(args: Seq<Seq<char>>, named: Seq<char>)
    requires
        args.len() > 0 ==> args[0] != "--help"@ && args[0] != "-h"@,
    ensures
        args.len() > 0 ==> launch_plan(args, Some(named)) == (LaunchPlan::Run {
            shell: named,
            args,
        }),
        args.len() > 0 ==> launch_plan(args, None) == (LaunchPlan::Run { shell: "bash"@, args }),
        args.len() == 0 ==> launch_plan(args, Some(named)) == (LaunchPlan::Run {
            shell: named,
            args: seq!["-i"@],
        }),
        args.len() == 0 ==> launch_plan(args, None) == (LaunchPlan::Run {
            shell: "bash"@,
            args: seq!["-i"@],
        }),
{
}

/// A command and arguments without a zero byte make up the argument vector, in
/// order, whatever else they hold.
pub proof fn law_argv_without_nul(command: Seq<u8>, args: Seq<Seq<u8>>)
    requires
        forall|j: int| 0 <= j < command.len() ==> #[trigger] command[j] != 0,
        forall|i: int, j: int|
            0 <= i < args.len() && 0 <= j < args[i].len() ==> #[trigger] args[i][j] != 0,
    ensures
        argv_outcome(command, args) is Ok,
        argv_outcome(command, args)->Ok_0.len() == args.len() + 1,
        argv_outcome(command, args)->Ok_0[0] == command,
        forall|i: int|
            0 <= i < args.len() ==> argv_outcome(command, args)->Ok_0[i + 1] == #[trigger] args[i],
{
    assert forall|i: int| 0 <= i < args.len() implies !has_nul(#[trigger] args[i]) by {
        if has_nul(args[i]) {
            let j = choose|j: int| 0 <= j < args[i].len() && args[i][j] == 0;
            assert(args[i][j] != 0);
        }
    }
}

/// A zero byte in the command is refused as the command's fault.
pub proof fn law_nul_in_command(command: Seq<u8>, args: Seq<Seq<u8>>, j: int)
    requires
        0 <= j < command.len(),
        command[j] == 0,
    ensures
        argv_outcome(command, args) == Err::<Seq<Seq<u8>>, ArgvError>(ArgvError::Command),
{
    assert(command.contains(command[j]));
}

/// A zero byte in an argument alone is refused as the argument's fault.
pub proof fn law_nul_in_argument(command: Seq<u8>, args: Seq<Seq<u8>>, i: int, j: int)
    requires
        forall|k: int| 0 <= k < command.len() ==> #[trigger] command[k] != 0,
        0 <= i < args.len(),
        0 <= j < args[i].len(),
        args[i][j] == 0,
    ensures
        argv_outcome(command, args) == Err::<Seq<Seq<u8>>, ArgvError>(ArgvError::Argument),
{
    assert(args[i].contains(args[i][j]));
    assert(has_nul(args[i]));
}

// ----- ending ------------------------------------------------------------

/// The session's code is the child's own, whatever it is, or 128 more than the
/// number of the signal that killed it, or 1.
pub proof fn law_session_code(number: i32)
    ensures
        session_code(ChildStatus::Exited(number)) == number,
        session_code(ChildStatus::Signaled(number)) == 128 + number,
        session_code(ChildStatus::Other) == 1,
{
}

/// Of all the codes from 0 to 255 the process exits with the one nearest to
/// the session's code.
pub proof fn law_exit_code_is_nearest(code: int, other: int)
    requires
        0 <= other <= 255,
    ensures
        0 <= nearest_exit_code(code) <= 255,
        nearest_exit_code(code) != other ==> {
            let near = nearest_exit_code(code);
            &&& code >= other ==> -(code - other) < code - near < code - other
            &&& code < other ==> -(other - code) < near - code < other - code
        },
{
}

} // verus!
