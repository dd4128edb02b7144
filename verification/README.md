# tracking_numbers

Identifies the courier and service of a parcel tracking number and checks
its check digit.

- `src/` is the verified library:
  - `text.rs`: characters, unsigned-integer parsing as `str::parse` does it,
    Unicode whitespace, and filling the `%s` placeholder of a tracking URL;
  - `validators.rs`: the check-digit schemes (mod 7, mod 10, sum of
    products, S10, Luhn, ISO 7064 mod 37/36);
  - `pattern.rs`: assembling and anchoring a courier's pattern, and the
    PCRE2 calls that match it;
  - `courier.rs`: couriers, kinds of tracking number, and `track`, which
    finds the first kind that accepts a number.
- `app/` embeds the couriers' JSON definitions from
  `tracking_number_data/couriers/`, reads them once, and offers `track` on a
  tracking number alone.
- `tests/` runs the library on sample couriers and numbers.
