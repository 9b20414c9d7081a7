# nix-pretty

`nix-pretty` runs a shell (by default `bash`) in a pseudo-terminal and
collapses every Nix store path that scrolls past to `nix:`, plus whatever
followed the package name:

```
before: /nix/store/3p5l9d7v3w7nq2x9jk8m5a7s8b1234567-coreutils-9.5/bin/ls
after:  nix:/bin/ls
```

A store path is the literal `/nix/store/`, at least 32 lowercase alphanumeric
characters, a `-`, and one or more characters from `[A-Za-z0-9._+-]`. All other
bytes pass through untouched, however the stream is cut into chunks. At most
1024 bytes are held back at any time; a candidate that would need more is
passed through as it is.

## Layout

* `src/` is the library, verified with [Verus](https://github.com/verus-lang/verus):
  * `grammar.rs`: what a store path is, and what rewriting a text means;
  * `rewriter.rs`: the streaming rewriter, `PathRewriter`;
  * `pipe.rs`: how a stream is pumped through it, as a state machine;
  * `session.rs`: command line, argument vector, window size, exit code;
  * `laws.rs`: what holds for every input; `lemmas.rs`: what the proofs share.
* `app/` is the program around it: the pseudo-terminal, reading and writing.
* `tests/` runs the library on concrete streams.
