# rustuna_sampler

An NSGA-II sampler for multi-objective optimization whose core is verified with Verus.

- `src/` is the library. Every function states what it returns or changes, and Verus proves it.
  Laws that relate several functions are public proof functions whose names start with `law_`.
- `app/` puts the library behind the locks and the storage of a study, and does the arithmetic on
  floats: sums of constraint violations, crowding distances, and draws from ranges of floats.
- `tests/` runs the library with the real `rand` and `serde_json`.

The library holds floats by their encoding (`number::Number`): it orders them and hands them on.
Randomness comes from the `StdRng` of `rand`, whose draws are named in `src/random.rs`; JSON is read
and written by `serde_json`, in `src/json.rs`. The contracts in these two files are believed, not
proved.
