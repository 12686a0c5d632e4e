# bitx

Structures with bit-precise fields, big-endian and MSB-0, defined with the
`bits!` macro:

```text
bits! {
    pub enum State: u3 {
        0         => Inactive,
        1         => Active,
        2 | 6..=7 => Error,
        _         => Unknown,
    }
}

bits! {
    pub struct Header: u36 {
        0.0;01 pub is_active,
        0.1;03 pub state: State,
        1.0;20 pub(crate) payload,
        3.4;08 checksum,
    }
}
```

## Layout

- `src/` is the library, verified with Verus:
  - `tt`: the macro input as plain tokens, attributes, visibility and field
    placements;
  - `ast`: reading a definition, and the pattern values of enum variants
    (intervals, their normalisation, overlap and gap detection);
  - `hir`: the checks (widths, defaults, overlaps, coverage, field bounds)
    and the read plan of every field;
  - `cg`: what the generated constructors and getters compute, with the
    proof that every getter's plan returns exactly the bits of its field,
    and the tokens of every generated item: the enum or packed struct, its
    `Bits` impl, `__from_mask`, `from_array`, `from_slice`, and each getter
    (its size check, return type and body, built from that plan);
  - `off`, `field`, `data`, `lit`, `reader`: the offset syntax
    (`byte.bit name: uN`), whose literals are read by `syn`, and the tokens
    of its getters;
  - `text`, `num`: hexadecimal text of values and integer helpers.
- `app/` turns `proc_macro2` tokens into the library's tokens and back, and
  points refusals at the input.
- `tests/` runs the library on concrete definitions.
