# negotiator

HTTP content negotiation for the `Accept`, `Accept-Charset`, `Accept-Encoding` and
`Accept-Language` request headers, written in Verus. Every public function carries a
contract that pins its result down exactly, and the properties of the negotiation as a
whole are proved in `src/laws.rs`.

## Layout

- `src/text.rs`: character classes, scanning, trimming and quote-aware splitting of header text.
- `src/quality.rs`: `q` values, read as `parseFloat` reads them (rounded to the nearest
  double) and compared as numbers.
- `src/bignum.rs`: natural numbers of any size, as decimal digits, for that rounding.
- `src/rank.rs`: choosing the best match per option and ordering the accepted options.
- `src/common.rs`: `key=value` parameters and the `q` parameter of an entry.
- `src/charset.rs`, `src/encoding.rs`, `src/language.rs`, `src/media_type.rs`: one module per header.
- `src/lib.rs`: the public entry points and the `Negotiator` type.
- `src/laws.rs`: proved properties (exactly the acceptable options are returned, in order of
  preference; an absent header accepts everything; an empty header accepts nothing; the
  implicit `identity` encoding; taking an option away leaves the others in order; a
  server-preferred encoding list only reorders, and so on).

## Quality values

A `q` parameter is read as JavaScript's `parseFloat` reads it: the longest leading decimal
literal, rounded to the nearest double (ties to even), with underflow to zero and overflow
to infinity. The rounding is done exactly, on the decimal digits, with the big-number
arithmetic of `src/bignum.rs`; a double is held as its number of units of `2^-1074`.
