# serport

Two peers exchange text of binary digits over a pair of serial ports. Three
programs share this library:

- bit stuffing: each packet of up to sixteen characters goes out as a frame that
  starts with the flag `01110111`; where the pattern `0111011` occurs in it, the
  sender stuffs a `0` after it, and the receiver marks the stuffed symbol with `b`
  and leaves it out of the data;
- Hamming: frames carry the Hamming check bits of their data and the parity of
  their data; the receiver distorts the data at random (none, one or two flipped
  characters), corrects a single error and reports two;
- CSMA/CD: the message goes out one character at a time, with collisions drawn at
  random and an exponential back-off.

## Layout

- `src/` — the verified library (Verus):
  - `text.rs` — characters and strings;
  - `packet.rs` — the packet and its serialised form;
  - `stuffing.rs` — bit stuffing and the receiver's marking, with the law that the
    marking undoes the stuffing;
  - `hamming.rs` — check bits, the receiver's decoding and the line's distortion;
  - `hamming_laws.rs` — the laws of the decoding: an undistorted frame decodes
    cleanly, a single flipped character is corrected, two are found;
  - `framing.rs` — cutting a message into packets and the received stream into
    frames, with the laws on both;
  - `stuffing_link.rs`, `hamming_link.rs` — the sending and receiving sides of the
    two framed programs;
  - `csma.rs` — the CSMA/CD sender's decisions;
  - `connection.rs` — the search for a free pair of ports;
  - `screen.rs` — what the window keeps and how it shows a frame;
  - `outside.rs` — the calls into `num` and `rand`.
- `tests/` — tests of the library.
- `app/` — the programs: ports, threads and the window (`eframe`). Run with
  `bitstaffing` (the default), `hamming` or `csma` as the first argument.
