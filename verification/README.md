# evm_tools

Small tools around Ethereum clients, with their logic verified by Verus.

- `src/` is the verified library:
  - `keys`, `sort`, `set_diff`: the byte-wise order of names, a sort, and the
    ordered difference of two collections of names (`diff`, `it_diff`);
  - `bls_field`, `bls_points`, `eip2537`: reading EIP-2537 test vectors and
    checking them against BLS12-381 group operations of the `paired` crate;
  - `hex_quantity`, `evm_trace`: prefixed hexadecimal quantities and the
    step-by-step comparison of two EVM traces;
  - `state_roots`: post-state root mismatch reports of two clients, read line
    by line and compared test by test;
  - `contract_scrape`, `contract_list`: the set of contracts seen on chain,
    the text it is saved in, and how that text is read back;
  - `asm_source`: where the assembler's source comes from, and the
    hexadecimal form of its output.
- `app/` is the command-line front end: files, network calls, JSON, timing
  and printing.
- `tests/` runs the library on concrete values.
