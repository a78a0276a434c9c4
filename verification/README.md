# minilang

A tokenizer, parser and type inference for a small functional language:

```
Type Option = Some () | None ();
Let x: () -> () = |y| ();
Let z: () = (|f| f(()))(|y| ());
```

- `src/tokenizer.rs`: text to tokens. `spec_tokenize` states the token
  sequence (or the first error) for every text.
- `src/parser.rs`: tokens to type and constant definitions. The grammar is
  stated as spec functions (`spec_parse_definitions` and the functions it
  calls); `parse_definitions` returns exactly what they give.
- `src/typer.rs`: type inference with unknowns that are bound by comparing
  types (`spec_matches`), and the state that tracks names in scope and
  bindings. `type_definition` returns exactly what `spec_type_consts` gives.
- `tests/`: scenarios for each stage.
- `app/main.rs`: runs the three stages on an example and prints each result.

All three stages are verified with Verus; the `lemma_*` proof functions state
properties of the whole (a blank only separates tokens, a successful parse
always moves forward, comparing types does not depend on their order and is
plain equality on types without unknowns, typing a value keeps the bindings
made before it, a constant that type-checks has its declared type, ...).
