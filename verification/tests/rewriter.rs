//! The streaming rewriter on concrete streams.
use nix_pretty::grammar::{
    is_hash_char, is_pkg_char, MAX_CANDIDATE_LEN, MIN_HASH_LEN, PREFIX,
};
use nix_pretty::PathRewriter;

// ----- helpers -----------------------------------------------------------

/// A representative hash made of lowercase letters and digits, used in most
/// of the positive examples below.
const HASH32: &[u8] = b"3p5l9d7v3w7nq2x9jk8m5a7s8b1234567";

/// A representative store path; it collapses to `nix:/bin/ls`.
fn example_path() -> Vec<u8> {
    let mut v = Vec::new();
    v.extend_from_slice(b"/nix/store/");
    v.extend_from_slice(HASH32);
    v.extend_from_slice(b"-coreutils-9.5/bin/ls");
    v
}

/// A non-streaming equivalent of the rewriter. For each position in `input`
/// it tries to match a full store path; on success it emits `nix:` and skips
/// past the matched bytes; otherwise it emits one byte and advances.
fn oracle(input: &[u8]) -> Vec<u8> {
    let mut out = Vec::with_capacity(input.len());
    let mut i = 0;
    while i < input.len() {
        if let Some(consumed) = try_match_at(&input[i..]) {
            out.extend_from_slice(PathRewriter::replacement());
            i += consumed;
        } else {
            out.push(input[i]);
            i += 1;
        }
    }
    out
}

/// The number of bytes consumed if `s` starts with a full store path.
fn try_match_at(s: &[u8]) -> Option<usize> {
    if !s.starts_with(&PREFIX) {
        return None;
    }
    let mut i = PREFIX.len();
    // Hash: greedy, must be at least MIN_HASH_LEN.
    let hash_start = i;
    while i < s.len() && is_hash_char(s[i]) {
        i += 1;
    }
    if i - hash_start < MIN_HASH_LEN {
        return None;
    }
    // Dash.
    if i >= s.len() || s[i] != b'-' {
        return None;
    }
    i += 1;
    // Package: at least one pkg char.
    let pkg_start = i;
    while i < s.len() && is_pkg_char(s[i]) {
        i += 1;
    }
    if i == pkg_start {
        return None;
    }
    Some(i)
}

/// Feeds `input` through the rewriter using the given split points and
/// returns the concatenated output.
fn feed_with_splits(input: &[u8], splits: &[usize]) -> Vec<u8> {
    let mut r = PathRewriter::new();
    let mut out = Vec::new();
    let mut prev = 0;
    for &s in splits {
        assert!(s >= prev && s <= input.len(), "bad split point");
        r.process(&input[prev..s], &mut out);
        prev = s;
    }
    r.process(&input[prev..], &mut out);
    r.flush(&mut out);
    out
}

/// A store path of `len` bytes whose hash has as few bytes as it may.
fn path_of_len(len: usize) -> Vec<u8> {
    let mut v = Vec::new();
    v.extend_from_slice(b"/nix/store/");
    v.extend(std::iter::repeat(b'h').take(MIN_HASH_LEN));
    v.push(b'-');
    while v.len() < len {
        v.push(b'p');
    }
    v
}

// ----- the headline example ----------------------------------------------

#[test]
fn user_example_collapses_to_nix_colon_bin_ls() {
    let input = example_path();
    assert_eq!(PathRewriter::rewrite_all(&input), b"nix:/bin/ls");
}

// ----- basic behaviour ---------------------------------------------------

#[test]
fn pattern_and_replacement_are_what_we_advertise() {
    assert_eq!(PathRewriter::pattern(), b"/nix/store/");
    assert_eq!(PathRewriter::replacement(), b"nix:");
}

#[test]
fn empty_input_yields_empty_output() {
    let out = PathRewriter::rewrite_all(b"");
    assert!(out.is_empty());
}

#[test]
fn input_without_pattern_passes_through_unchanged() {
    let cases: &[&[u8]] = &[
        b"hello world",
        b"\x1b[31mcolor\x1b[0m",
        b"/usr/local/bin/foo",
        b"/nix",
        b"/nix/stor",
        b"/nix/store", // missing the trailing slash
        "raksmorgas".as_bytes(),
    ];
    for c in cases {
        assert_eq!(PathRewriter::rewrite_all(c), *c, "input: {:?}", c);
    }
}

#[test]
fn single_match_followed_by_path() {
    let mut input = Vec::new();
    input.extend_from_slice(b"/nix/store/");
    input.extend_from_slice(HASH32);
    input.extend_from_slice(b"-coreutils-9.5/bin/ls");
    assert_eq!(PathRewriter::rewrite_all(&input), b"nix:/bin/ls");
}

#[test]
fn single_match_with_no_trailing_path() {
    // Store path at end of input with no `/<rest>` after the pkg name.
    let mut input = Vec::new();
    input.extend_from_slice(b"/nix/store/");
    input.extend_from_slice(HASH32);
    input.extend_from_slice(b"-coreutils-9.5");
    assert_eq!(PathRewriter::rewrite_all(&input), b"nix:");
}

#[test]
fn match_at_start_middle_and_end_of_line() {
    let mut input = Vec::new();
    input.extend_from_slice(b"see /nix/store/");
    input.extend_from_slice(HASH32);
    input.extend_from_slice(b"-coreutils-9.5/bin/ls for details");
    assert_eq!(
        PathRewriter::rewrite_all(&input),
        b"see nix:/bin/ls for details"
    );
}

#[test]
fn multiple_matches_in_one_chunk() {
    let mut input = Vec::new();
    input.extend_from_slice(b"/nix/store/");
    input.extend_from_slice(HASH32);
    input.extend_from_slice(b"-pkg-1/bin and /nix/store/");
    input.extend_from_slice(HASH32);
    input.extend_from_slice(b"-pkg-2/bin");
    assert_eq!(PathRewriter::rewrite_all(&input), b"nix:/bin and nix:/bin");
}

#[test]
fn pkg_with_dashes_dots_pluses_underscores() {
    // Real-world-ish pkg names mix dots, pluses, dashes, underscores.
    let mut input = Vec::new();
    input.extend_from_slice(b"/nix/store/");
    input.extend_from_slice(HASH32);
    input.extend_from_slice(b"-gtk+3-3.24.42_dev/lib");
    assert_eq!(PathRewriter::rewrite_all(&input), b"nix:/lib");
}

#[test]
fn hash_longer_than_32_still_matches() {
    let long_hash = b"a3p5l9d7v3w7nq2x9jk8m5a7s8b1234567xyz"; // 37 chars
    let mut input = Vec::new();
    input.extend_from_slice(b"/nix/store/");
    input.extend_from_slice(long_hash);
    input.extend_from_slice(b"-pkg/bin");
    assert_eq!(PathRewriter::rewrite_all(&input), b"nix:/bin");
}

#[test]
fn near_misses_are_left_alone() {
    let mut short_hash = Vec::new();
    short_hash.extend_from_slice(b"/nix/store/abc-pkg/bin"); // 3-char hash
    let mut no_dash = Vec::new();
    no_dash.extend_from_slice(b"/nix/store/");
    no_dash.extend_from_slice(HASH32);
    no_dash.extend_from_slice(b"_pkg/bin"); // underscore instead of dash
    let mut no_pkg = Vec::new();
    no_pkg.extend_from_slice(b"/nix/store/");
    no_pkg.extend_from_slice(HASH32);
    no_pkg.extend_from_slice(b"-/foo"); // dash then immediate slash, no pkg char
    let cases: &[(&[u8], &[u8])] = &[
        (b"/nix/storage/foo", b"/nix/storage/foo"), // 'a' is not '/'
        (b"/Nix/Store/abc", b"/Nix/Store/abc"),     // case-sensitive
        (&short_hash, &short_hash),                 // hash too short
        (&no_dash, &no_dash),                       // wrong separator
        (&no_pkg, &no_pkg),                         // empty pkg
        (b"nix/store/whatever", b"nix/store/whatever"), // missing leading /
    ];
    for (input, want) in cases {
        assert_eq!(
            PathRewriter::rewrite_all(input),
            want.to_vec(),
            "input: {:?}",
            input
        );
    }
}

// ----- chunk boundaries --------------------------------------------------

#[test]
fn every_split_point_produces_the_same_output() {
    // Mix of a real match, leading junk, trailing junk, and a near-miss
    // to exercise both commit and bail paths under chunking.
    let mut input = Vec::new();
    input.extend_from_slice(b"prefix /nix/storage/x ");
    input.extend_from_slice(b"/nix/store/");
    input.extend_from_slice(HASH32);
    input.extend_from_slice(b"-pkg-1.0/bin/ls suffix");
    let want = oracle(&input);

    for split in 0..=input.len() {
        let got = feed_with_splits(&input, &[split]);
        assert_eq!(got, want, "split at byte {}", split);
    }
}

#[test]
fn one_byte_at_a_time_matches_one_shot() {
    let input = example_path();
    let want = PathRewriter::rewrite_all(&input);

    let mut r = PathRewriter::new();
    let mut out = Vec::new();
    for &b in &input {
        r.process(&[b], &mut out);
    }
    r.flush(&mut out);
    assert_eq!(out, want);
}

#[test]
fn flush_emits_buffered_candidate_when_stream_ends_mid_match() {
    // Stream ends in the middle of the hash. Buffered bytes must be
    // emitted verbatim, not silently dropped.
    let mut r = PathRewriter::new();
    let mut out = Vec::new();
    r.process(b"hello /nix/store/abcdef", &mut out);
    assert_eq!(out, b"hello "); // partial candidate is held back
    r.flush(&mut out);
    assert_eq!(out, b"hello /nix/store/abcdef");
}

#[test]
fn flush_commits_when_stream_ends_with_complete_pkg() {
    // Stream ends right after the pkg name, with no trailing path.
    let mut input = Vec::new();
    input.extend_from_slice(b"/nix/store/");
    input.extend_from_slice(HASH32);
    input.extend_from_slice(b"-pkg-1.0");

    let mut r = PathRewriter::new();
    let mut out = Vec::new();
    r.process(&input, &mut out);
    // Nothing emitted yet: the package name may still go on.
    assert!(out.is_empty());
    r.flush(&mut out);
    assert_eq!(out, b"nix:");
}

#[test]
fn rewriter_can_be_reused_after_flush() {
    let mut r = PathRewriter::new();
    let mut out = Vec::new();
    r.process(b"/nix/sto", &mut out);
    r.flush(&mut out);
    assert_eq!(out, b"/nix/sto");

    out.clear();
    let mut input = Vec::new();
    input.extend_from_slice(b"/nix/store/");
    input.extend_from_slice(HASH32);
    input.extend_from_slice(b"-pkg/bin");
    r.process(&input, &mut out);
    r.flush(&mut out);
    assert_eq!(out, b"nix:/bin");
}

// ----- bounds ------------------------------------------------------------

#[test]
fn candidate_buffer_is_bounded() {
    // Pathological input: an unbounded stream of hash chars after the
    // prefix. The buffer must not grow without limit.
    let mut input = Vec::new();
    input.extend_from_slice(b"/nix/store/");
    input.extend(std::iter::repeat(b'a').take(MAX_CANDIDATE_LEN * 2));

    let mut r = PathRewriter::new();
    let mut out = Vec::new();
    r.process(&input, &mut out);
    assert!(
        r.buffered() <= MAX_CANDIDATE_LEN,
        "buffer grew to {}",
        r.buffered()
    );
    r.flush(&mut out);
    // And all input must have been emitted verbatim.
    assert_eq!(out, input);
}

#[test]
fn buffer_fills_up_to_the_cap_and_no_further() {
    let mut r = PathRewriter::new();
    let mut out = Vec::new();
    let path = path_of_len(MAX_CANDIDATE_LEN);
    r.process(&path[..MAX_CANDIDATE_LEN - 1], &mut out);
    assert_eq!(r.buffered(), MAX_CANDIDATE_LEN - 1);
    r.process(&path[MAX_CANDIDATE_LEN - 1..], &mut out);
    assert_eq!(r.buffered(), MAX_CANDIDATE_LEN);
    assert!(out.is_empty());
    r.process(b"p", &mut out);
    assert_eq!(r.buffered(), 0);
    assert_eq!(out.len(), MAX_CANDIDATE_LEN + 1);
}

#[test]
fn store_paths_around_the_cap() {
    // Below the cap: collapsed, with or without something behind it.
    let below = path_of_len(MAX_CANDIDATE_LEN - 1);
    assert_eq!(PathRewriter::rewrite_all(&below), b"nix:");
    let mut with_rest = below.clone();
    with_rest.extend_from_slice(b"/bin");
    assert_eq!(PathRewriter::rewrite_all(&with_rest), b"nix:/bin");

    // Just filling the cap: collapsed just the same.
    let full = path_of_len(MAX_CANDIDATE_LEN);
    assert_eq!(PathRewriter::rewrite_all(&full), b"nix:");
    let mut with_rest = full.clone();
    with_rest.extend_from_slice(b"/bin");
    assert_eq!(PathRewriter::rewrite_all(&with_rest), b"nix:/bin");

    // Beyond the cap: left alone.
    let beyond = path_of_len(MAX_CANDIDATE_LEN + 1);
    assert_eq!(PathRewriter::rewrite_all(&beyond), beyond);
    let mut with_rest = beyond.clone();
    with_rest.extend_from_slice(b"/bin");
    assert_eq!(PathRewriter::rewrite_all(&with_rest), with_rest);
}

#[test]
fn full_buffer_is_committed_by_the_byte_that_ends_the_name() {
    let mut r = PathRewriter::new();
    let mut out = Vec::new();
    r.process(&path_of_len(MAX_CANDIDATE_LEN), &mut out);
    assert!(out.is_empty());
    assert_eq!(r.buffered(), MAX_CANDIDATE_LEN);
    r.process(b"/", &mut out);
    assert_eq!(out, b"nix:");
    assert_eq!(r.buffered(), 1);
    r.process(b"nix/x", &mut out);
    assert_eq!(out, b"nix:/nix/x");
}

#[test]
fn full_store_path_between_others() {
    let full = path_of_len(MAX_CANDIDATE_LEN);
    let mut input = full.clone();
    input.extend_from_slice(&full);
    input.push(b' ');
    input.extend_from_slice(&path_of_len(MAX_CANDIDATE_LEN + 1));
    input.extend_from_slice(&full);
    let mut want = b"nix:nix: ".to_vec();
    want.extend_from_slice(&path_of_len(MAX_CANDIDATE_LEN + 1));
    want.extend_from_slice(b"nix:");
    assert_eq!(PathRewriter::rewrite_all(&input), want);
    assert_eq!(feed_with_splits(&input, &[1, 1024, 1025, 3000]), want);
}

#[test]
fn what_is_written_and_held_is_no_longer_than_what_was_seen() {
    let mut input = b"see /nix/nix ".to_vec();
    input.extend_from_slice(&example_path());
    input.extend_from_slice(b" and /nix/sto");
    let mut r = PathRewriter::new();
    let mut out = Vec::new();
    for (i, &b) in input.iter().enumerate() {
        r.process(&[b], &mut out);
        assert!(out.len() + r.buffered() <= i + 1);
    }
    assert_eq!(r.buffered(), 8);
}

// ----- mixed content -----------------------------------------------------

#[test]
fn preserves_ansi_color_sequences_around_match() {
    let mut input = Vec::new();
    input.extend_from_slice(b"\x1b[32m");
    input.extend_from_slice(b"/nix/store/");
    input.extend_from_slice(HASH32);
    input.extend_from_slice(b"-pkg-1/bin");
    input.extend_from_slice(b"\x1b[0m\n");
    assert_eq!(
        PathRewriter::rewrite_all(&input),
        b"\x1b[32mnix:/bin\x1b[0m\n"
    );
}

#[test]
fn ansi_escape_inside_pkg_terminates_match_safely() {
    // If an ANSI escape lands in the middle of what looks like a pkg
    // name, the partial pkg counts (it's >= 1 char) and we commit.
    // The escape sequence and the rest pass through verbatim.
    let mut input = Vec::new();
    input.extend_from_slice(b"/nix/store/");
    input.extend_from_slice(HASH32);
    input.extend_from_slice(b"-pkg\x1b[0mtail");
    assert_eq!(PathRewriter::rewrite_all(&input), b"nix:\x1b[0mtail");
}

#[test]
fn preserves_utf8_multibyte_around_match() {
    let mut input = Vec::new();
    input.extend_from_slice("smörgås ".as_bytes());
    input.extend_from_slice(b"/nix/store/");
    input.extend_from_slice(HASH32);
    input.extend_from_slice(b"-pkg/bin");
    input.extend_from_slice(" krydda".as_bytes());

    let mut want = Vec::new();
    want.extend_from_slice("smörgås ".as_bytes());
    want.extend_from_slice(b"nix:/bin");
    want.extend_from_slice(" krydda".as_bytes());

    assert_eq!(PathRewriter::rewrite_all(&input), want);
}

#[test]
fn binary_payload_passes_through_unchanged_when_no_match() {
    let mut payload = Vec::new();
    for b in 0u8..=255 {
        payload.push(b);
    }
    // 256 distinct bytes cannot hold `/nix/store/`, so they are unchanged.
    assert_eq!(PathRewriter::rewrite_all(&payload), payload);
}

#[test]
fn other_bytes_part_the_stream() {
    // Text left and right of a byte that no store path holds is rewritten
    // apart.
    let path = example_path();
    for sep in [b' ', b'\n', b'\x1b', b':', 0xc3u8] {
        let mut input = path.clone();
        input.push(sep);
        input.extend_from_slice(b"/nix/store/abc-pkg");
        let mut want = b"nix:/bin/ls".to_vec();
        want.push(sep);
        want.extend_from_slice(b"/nix/store/abc-pkg");
        assert_eq!(PathRewriter::rewrite_all(&input), want, "byte {}", sep);
    }
}

// ----- store paths that open inside a failed candidate -------------------

#[test]
fn store_path_right_after_part_of_the_prefix_is_collapsed() {
    let path = example_path();
    for cut in 0..=PREFIX.len() {
        let mut input = PREFIX[..cut].to_vec();
        input.extend_from_slice(&path);
        let mut want = PREFIX[..cut].to_vec();
        want.extend_from_slice(b"nix:/bin/ls");
        assert_eq!(oracle(&input), want, "cut at {}", cut);
        assert_eq!(PathRewriter::rewrite_all(&input), want, "cut at {}", cut);
        for split in 0..=input.len() {
            assert_eq!(feed_with_splits(&input, &[split]), want);
        }
    }
}

#[test]
fn store_path_that_shares_a_slash_with_a_failed_one_is_collapsed() {
    // The second prefix opens at the last `/` of `/nix/` or `/nix/store/`.
    let mut input = b"/nix".to_vec();
    input.extend_from_slice(&example_path());
    assert_eq!(PathRewriter::rewrite_all(&input), b"/nixnix:/bin/ls");
    let mut input = b"/nix/store".to_vec();
    input.extend_from_slice(&example_path());
    assert_eq!(PathRewriter::rewrite_all(&input), b"/nix/storenix:/bin/ls");
    // Nothing is held back for longer than needed.
    let mut r = PathRewriter::new();
    let mut out = Vec::new();
    r.process(b"/nix/store/nix/", &mut out);
    assert_eq!(out, b"/nix/store");
    assert_eq!(r.buffered(), 5);
    r.process(b"store/!", &mut out);
    assert_eq!(out, b"/nix/store/nix/store/!");
}

#[test]
fn near_overlaps_are_left_alone() {
    let cases: &[&[u8]] = &[
        b"/nix/nix/nix/",
        b"/nix/n",
        b"/nix/no",
        b"/nix/store/ni/store/",
        b"/nix/store/nixx/store/",
        b"/nix/store/nix/store",
        b"/nix/store/nix/store/nix/store/",
        b"/nix/store/nix-/x",
        b"/nix/store/abc/nix/store/",
    ];
    for c in cases {
        assert_eq!(PathRewriter::rewrite_all(c), *c, "input: {:?}", c);
    }
}

#[test]
fn all_short_streams_agree_with_the_oracle() {
    // Pieces from which prefixes, overlaps and store paths are put together.
    let mut full = b"/nix/store/".to_vec();
    full.extend_from_slice(HASH32);
    let pieces: Vec<Vec<u8>> = vec![
        b"/nix".to_vec(),
        b"/store".to_vec(),
        b"/".to_vec(),
        b"nix".to_vec(),
        full,
        b"-p".to_vec(),
        b" ".to_vec(),
    ];
    let n = pieces.len();
    for code in 0..n * n * n * n * n {
        let mut c = code;
        let mut input = Vec::new();
        for _ in 0..5 {
            input.extend_from_slice(&pieces[c % n]);
            c /= n;
        }
        let want = oracle(&input);
        assert_eq!(PathRewriter::rewrite_all(&input), want, "{:?}", input);
        let half = input.len() / 2;
        assert_eq!(feed_with_splits(&input, &[half]), want, "{:?}", input);
    }
}

// ----- the rest of the interface -----------------------------------------

#[test]
fn default_is_a_fresh_rewriter() {
    let mut r = PathRewriter::default();
    assert_eq!(r.buffered(), 0);
    let mut out = Vec::new();
    r.flush(&mut out);
    assert!(out.is_empty());
}

#[test]
fn a_clone_goes_its_own_way() {
    let mut r = PathRewriter::new();
    let mut out = Vec::new();
    r.process(b"/nix/sto", &mut out);
    let mut twin = r.clone();
    assert_eq!(twin.buffered(), 8);
    let mut twin_out = Vec::new();
    twin.process(b"x", &mut twin_out);
    r.flush(&mut out);
    assert_eq!(twin_out, b"/nix/stox");
    assert_eq!(out, b"/nix/sto");
}

#[test]
fn character_classes_are_exactly_the_documented_ones() {
    for b in 0u8..=255 {
        assert_eq!(
            is_hash_char(b),
            b.is_ascii_digit() || b.is_ascii_lowercase(),
            "byte {}",
            b
        );
        assert_eq!(
            is_pkg_char(b),
            b.is_ascii_alphanumeric() || b"._+-".contains(&b),
            "byte {}",
            b
        );
    }
}

#[test]
fn output_is_never_longer_than_input() {
    let mut shortest = b"/nix/store/".to_vec();
    shortest.extend(std::iter::repeat(b'0').take(MIN_HASH_LEN));
    shortest.extend_from_slice(b"-p");
    assert_eq!(PathRewriter::rewrite_all(&shortest).len(), 4);
    shortest.pop();
    assert_eq!(PathRewriter::rewrite_all(&shortest).len(), shortest.len());
}

// ----- pseudo-random -----------------------------------------------------

#[test]
fn random_payload_round_trips_through_oracle() {
    let mut data: Vec<u8> = Vec::with_capacity(10_000);
    let mut state: u32 = 0x1234_5678;
    for i in 0..10_000 {
        state ^= state << 13;
        state ^= state >> 17;
        state ^= state << 5;
        // Bias towards printable ASCII so failures are readable, but
        // keep some non-ASCII bytes too.
        let byte = if state & 0xff < 200 {
            (32u8 + (state & 0x5f) as u8).min(126)
        } else {
            state as u8
        };
        data.push(byte);
        if i % 137 == 0 {
            // Embed a real store path.
            data.extend_from_slice(b"/nix/store/");
            data.extend_from_slice(HASH32);
            data.extend_from_slice(b"-coreutils-9.5/bin/ls ");
        }
        if i % 211 == 0 {
            data.extend_from_slice(b"/nix/stor"); // proper prefix only
        }
        if i % 311 == 0 {
            data.extend_from_slice(b"/nix/storage/x"); // near miss
        }
        if i % 419 == 0 {
            // Almost a store path but with a too-short hash.
            data.extend_from_slice(b"/nix/store/abc-pkg/bin");
        }
    }
    let want = oracle(&data);
    assert_eq!(PathRewriter::rewrite_all(&data), want);

    // Same payload, but fed in pseudo-random chunks.
    let mut r = PathRewriter::new();
    let mut out = Vec::new();
    let mut i = 0;
    while i < data.len() {
        state ^= state << 13;
        state ^= state >> 17;
        state ^= state << 5;
        let take = ((state % 23) as usize + 1).min(data.len() - i);
        r.process(&data[i..i + take], &mut out);
        i += take;
    }
    r.flush(&mut out);
    assert_eq!(out, want);
}
