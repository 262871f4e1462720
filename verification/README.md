# xmip-core-transport-bluetooth

Bluetooth transport: RFCOMM over L2CAP. A Stream is the information of one data
link connection, opened with SABM, carried in UIH frames and closed with DISC; a
loopback radio stands in for the controller.

## Layout

- `src/` is the library, verified with Verus. `l2cap` and `rfcomm` are the two
  frame formats, `packet` is one inside the other, `session` is the server's
  state, `radio` is the trait a controller implements and the loopback radio,
  `transport` is the client and the server on a radio. `client`, `server` and
  `conversation` say what a connection looks like from the radio, and prove that
  what a client writes the server takes whole.
- `tests/` runs the library on concrete packets and Streams.
- `app/` is ordinary Rust around it: radios that are shared between transports,
  and the `Transport` and `Loopback` traits of the estate.

## What is trusted

Two functions of the standard library have contracts that are not proved:
`Duration::from_secs` in `transport`, and the quoting of a string by `Debug` in
`text`. What is proved of a transport holds on a radio that keeps to the
contract of the `Radio` trait, as the loopback radio is proved to. A radio
outside the proofs may leave out the trait's ghost functions; nothing is proved
of one that does.
