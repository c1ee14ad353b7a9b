# cts

Bookkeeping for the WebGPU conformance test suite (CTS), verified with Verus:

- which tests to run, which to skip, and what to print of them (`run`);
- the `.lst` files that list tests, and the patterns in them (`list`, `pattern`);
- whether the lists account for every selector of the CTS, and a report on those
  that they do not, with wildcard patterns that cover them (`accounting`,
  `wildcards`, `report`).

`src/` is the verified library. Each public function states in its contract what it
returns; the public proof functions whose names begin with `law_` state what holds
across functions. The only code believed without proof is in `src/search.rs`, which
calls `regex_lite`. `app/` is the command line around the library: arguments, files,
and the CTS process.
