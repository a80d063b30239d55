# fast-natord

Natural ordering for strings — numeric runs inside strings compare by value,
so that `"rfc2"` sorts before `"rfc10"` — with every comparator proved
correct against a mathematical specification by Verus.

```rust
let mut files = vec!["rfc2086.txt", "rfc822.txt", "rfc1.txt"];
files.sort_by(|&a, &b| fast_natord::compare(a, b));
assert_eq!(files, ["rfc1.txt", "rfc822.txt", "rfc2086.txt"]);
```

## Layout

* `src/` — the verified library.
  * `compare` — case-sensitive natural order; its result is
    `natural_order` of the two strings' bytes.
  * `compare_ignore_case` — the same with ASCII letters compared by their
    lowercase and other characters by their lowercase mappings.
  * `compare_iter` — natural order over any items, with the skip, order
    and digit rules given as closures.
  * `normalizer` — Unicode normalization (NFC, NFD, NFKC, NFKD) and case
    folding before comparison, through the `simd-normalizer` crate.
  * `byte_utils`, `unicode`, `order`, `text` — byte scanning, UTF-8
    decoding, three-way order values and the few standard-library calls
    whose behaviour the proofs take from their documentation.
  * `laws` — properties proved for all inputs: `compare` is reflexive,
    antisymmetric and transitive, and strings it finds equal compare
    alike against every string (it is the lexicographic order of token
    sequences); `compare_ignore_case` has the same properties on valid
    UTF-8 and is the lowercase compare on ASCII; digit runs order by
    numeric value; `compare_iter` and the case-folding `Normalizer` agree
    with the byte comparators; UTF-8 decoding round-trips.
* `tests/` — tests on concrete values, including one per law.
* `app/` — `compare_iter` over iterators and `FnMut` closures, collected
  into slices for the library.

## Behaviour worth knowing

* ASCII whitespace (space, tab, newline, form feed, carriage return) is
  skipped on both sides, and it ends a digit run: `"12 3"` sorts before
  `"12a"` (byte `3` against byte `a`), while `"123"` sorts after `"12a"`
  (the run that goes on is the longer number).
* A digit run that starts with `0` compares digit by digit, as a fractional
  part; other runs compare by length first, then digit by digit.
