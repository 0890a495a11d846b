# flexinput_btle

A Bluetooth host stack for USB dongles, for the controllers that an operating system's own
stack will not talk to: Joy-Con over Bluetooth LE and gamepads over classic Bluetooth.

`src/` is the library: the packets, exchanges, stores and rules, without I/O. Verus checks
all of it:

- packets: `hci`, `acl`, `l2cap`, `bytes`, `text`;
- exchanges, each a machine that takes what arrived and says what to send: `link`,
  `pairing`, `channels`, `accept`, `connect`, `att`, `watch`;
- the dongle and those who share it: `dongle`, `transport`, `radio`, `commands`, `error`;
- what is kept on disk: `keystore`, `recording`;
- controllers and what they send: `joycon`, `controller`, `survey`, `fields`, `cadence`,
  `classic`, `probe`;
- starting the window: `renderer`.

`app/` is the program around it: USB transfers, files, clocks, the window, and the analysis
of motion in floating point. `tests/` runs the library on concrete values.
