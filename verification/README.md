# tinylisp

A small Lisp interpreter whose evaluator is verified with Verus.

## Layout

- `src/text.rs`: characters and decimal text of integers.
- `src/parser.rs`: the tokeniser and the parser, each proved against a
  definition of what it computes (`tokenise_spec`, `parse_spec`).
- `src/value.rs`, `src/context.rs`: values, scopes and their models.
- `src/host.rs`: the protocol between the interpreter and its host.
- `src/semantics.rs`: the meaning of programs, as spec functions over the
  models of values, scopes and host replies.
- `src/eval.rs`, `src/builtins.rs`: the evaluator and the builtins, proved to
  compute what `semantics.rs` defines.
- `src/ffi.rs`: C type names. The checks on foreign-call arguments are in
  `src/eval.rs` (`check_ffi_call`, `call_ffi_function`).
- `src/laws.rs`: properties of every program: replies are read in order,
  outer scopes survive every evaluation, a name bound by `setq` reads back
  its value, dictionary lookup after insertion, dictionaries keep distinct
  keys, parenthesising balanced tokens or source text nests its parse, and
  formatting two self-evaluating values joins their texts.
- `app/main.rs`: the program around the library: command line, prompt, files,
  standard streams, floating-point arithmetic, and foreign calls through
  libloading and libffi.

## The host protocol

The evaluator never performs input, output, floating-point arithmetic or a
foreign call itself. When it needs one, it stops with a `Request`. The host
performs it, appends the `Reply` to a `Transcript`, and runs the same
evaluation again from the same context; the evaluation reads the earlier
replies in order and goes further. `law_eval_replies_and_scopes` shows that
this replay is sound: replies are read in order, and a finished evaluation is
unchanged by extra replies.

A `fuel` argument bounds the depth of evaluation so that every function
terminates; the program passes `u64::MAX`.
