# mpx

Companion CLI of Multiplex: `mpx bind` offers a machine to the app and enrolls
the app's SSH key, `mpx unbind` lists and removes what was enrolled.

The library under `src/` holds the formats, the handshake and the rules, with
contracts that Verus proves:

- `payload`: the string that QR code and clipboard carry.
- `frame`, `cbor`, `crypto`: the sealed channel, its frames and their bodies.
- `server`: the exchange with a peer as a state machine, and the session around
  it.
- `authkeys`, `sshkey`: editing of authorized_keys and reading of public keys.
- `hostinfo`, `announce`, `clip`, `qr`, `bind`: what the machine says of itself,
  and what the commands say and decide.
- `text`, `bytes`, `util`: the pieces these are made of.

What is computed by another crate stands behind a function whose doc comment
begins with the call it makes and says what is trusted of it.

The program under `app/` does the I/O: sockets, files, the terminal, the clock
and the announcement.
