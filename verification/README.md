# ipscan

Finds devices on a link that carry a static IPv4 address outside the range the
network expects: by listening, by enumerating the link over IPv6, and by an ARP
sweep, held against DHCP leases.

- `src/` is the library, verified with Verus: addresses and networks, the readers
  of frames, DHCP messages and lease files, the inventory of devices, the flags
  and how findings are ordered, the targets and the plan of a sweep, the layers of
  a scan, the reports, and the state of the terminal interface with its keys and
  screens. It does no I/O.
- `app/` is the program around it: arguments, interfaces, raw sockets, threads,
  files and the terminal. It performs what the library decides and hands back what
  happened.
- `tests/` runs the library on concrete values, and beside `pnet` and `ipnet`
  where both read or write the same thing.

What holds of the library as a whole is stated by public proof functions, many of
them at the end of a module under a heading that begins with "What holds of".
What is believed without proof of outside code is marked in `src/text.rs`,
`src/addr.rs`, `src/net.rs`, `src/dhcp.rs` and `src/ndp.rs`, with a comment that
names the outside function.
