# connection_manager

The logic of a small Wi-Fi / Bluetooth connection manager for Linux that
drives `nmcli` and `bluetoothctl`, verified with Verus.

The library never runs a tool. The program around it (`app/`) runs
`nmcli` / `bluetoothctl`, hands the outcome (`command::CommandOutput`, or
why the tool could not be started) to the library, and the library parses
the tool's text, decides what happens next and keeps a model of the window
(`window::Window`).

- `src/text.rs` — lines, `nmcli -t` fields (escaped `:`), whitespace-separated words,
  trimming and `u8` parsing, each proved against a spec of the std function
  it mirrors.
- `src/command.rs` — the outcome of a command, lossy UTF-8 decoding (the one
  trusted wrapper), error messages.
- `src/wifi.rs` — radio state, toggling, active and saved networks,
  joining known and new networks.
- `src/scan.rs` — the list of networks that can be joined: weak, unnamed
  and unreadable lines skipped, one entry per SSID, any SSID marked in use
  left out, strongest first; the list does not depend on line order.
- `src/bluetooth.rs` — adapter state, MAC address checks, paired and nearby
  device lists, the connect-then-trust sequence for a new device.
- `src/handlers.rs` — what the window's callbacks show once a command's
  outcome is known.
- `app/main.rs` — a command-line front end.
