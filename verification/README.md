# apmc

The macOS equivalent of `perf stat`, with its logic verified by Verus.

- `src/` is the library. It reads Apple's event database, assigns events to counter slots,
  decides which calls program the counters and what their replies mean, and writes listings and
  reports. Its functions are verified against their contracts, but for the few wrappers of
  outside calls named below.
- `app/` is the program `apmc` around it: it asks the system what the library wants to know,
  makes the calls that it decides on, and prints what it says.
- `tests/` runs the library on concrete values.

## Usage

```bash
# List all available PMC events for your CPU, or those that match a keyword
apmc list
apmc list cache

# Measure hardware counters for a command (requires root)
sudo apmc stat -- sleep 1

# Choose specific events
sudo apmc stat -e L1D_CACHE_MISS_LD,BRANCH_MISPRED_NONSPEC -- ./my_program

# System-wide counting (includes background activity)
sudo apmc stat -s -- ./my_program

# Load the library for a program that marks regions to measure
sudo apmc stat --region -- ./my_program

# Disable colored output (or set NO_COLOR)
sudo apmc stat --no-color -- ./my_program
```

By default a command is measured alone, by a library that is injected into it. The program uses
the library whose path `KPC_INJECT_DYLIB` held when it was built; built without one, it always
counts system-wide.

## What is taken on trust

The `plist` crate reads the database files. It panics on an XML document in which it comes to a
date behind the year 9999 in UTC; `src/xml.rs` tells those documents, and no others, by following
the markup as the crate does, and they are refused instead. `str::to_lowercase` folds case for the
keyword filter. The contracts believed of them, of `String::push` and of `std::str::from_utf8`
stand in `src/property_list.rs`, `src/text.rs` and `src/xml.rs`.

## Requirements

- macOS on Apple Silicon
- SIP disabled (`csrutil disable` from Recovery Mode)
- Root privileges for `apmc stat`
