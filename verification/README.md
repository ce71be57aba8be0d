# whohere

`whohere` runs on a router and tells who is on its network and what these devices
are. It listens rather than asks: DHCP fingerprints, multicast announcements, DNS
queries, the first packets of connections and the connection table each know
something, and none of them knows enough alone. Rules turn what was seen into
signals, and the signals are weighed against each other.

- `src/` is the library, verified with Verus: parsing what the collectors read,
  finding the rules that fit, keeping the devices, drawing conclusions.
- `app/` is the program around it: sockets, files, outside commands, the command
  line, JSON on disk, and the floating point arithmetic of the weights.
- `tests/` runs the library on concrete inputs.

## What is proved

Every function of the library states what it returns for every input it accepts, over
`Seq<char>` for texts, `Seq<u8>` for bytes, and the views of the library's own types.
On top of that stand laws, each a public proof function whose name starts with `law_`.
Some of them:

- the packet filter accepts exactly the packets it is meant for, and its jumps stay
  inside the program (`bpf`)
- addresses survive being written and read back, and an EUI-64 address reveals the
  hardware address it was made from (`util`)
- names that a device asks for are not kept, and the store does not depend on them
  beyond the rule that they fit (`daemon`)
- writing to disk is never put off by more traffic, and what is kept of a device stays
  bounded (`daemon`)
- weak evidence decides nothing and changes no conclusion that other evidence does not
  share, a forwarder does not inherit the names it forwards, and only names with a
  positive weight are left (`score`)
- a query reads back as the name it was written for, and a message that is cut off keeps
  the records before the cut (`dnsmsg`)
- a user's own rules come before the built-in ones, and the longest ending wins
  (`rules`)

## What is believed

`String::push` and `String::from_utf8_lossy` of the standard library (`src/text.rs`),
and `from_str`, `Value::get`, `Value::as_str`, `Value::as_array` and `Value::as_u64`
of `serde_json` (`src/json.rs`) have contracts that are not proved. How invalid bytes
are replaced, and what JSON text holds which value, is left to names without a
definition.
