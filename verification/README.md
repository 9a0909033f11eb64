# ripquerier

Reads the delegation statistics files that the regional internet registries
publish (`registry|cc|type|start|value|date|status`) and prints the IPv4
ranges as CIDR blocks, IPv6 ranges as prefixes and AS numbers, selected by
country code, status and kind of resource.

- `src/` is the library, verified with Verus:
  - `ipv4.rs`: dotted-quad text to number and back, the highest set bit,
    and the CIDR blocks that cover a range; `ipv4_laws.rs` proves the round
    trips of address text and that the blocks tile the range.
  - `reader.rs`: header, summary and record lines from their fields
    (dates through chrono).
  - `opt.rs`, `processor.rs`: conditions, their evaluation on a record, and
    the lines that a record is printed as.
  - `decimal.rs`, `text.rs`: decimal numbers and text comparison.
- `app/` is the command-line tool: arguments (clap), reading the file (csv),
  printing.
