# esp_midi

Verified core of a Bluetooth MIDI pedal controller's front ends.

- `src/command.rs`: a pedal command, its five-byte wire form and its text
  form `PC<num>` / `CC<num>|<ac>,<deac>|c<channel>`, with the proof that the
  text form reads back as the command.
- `src/config.rs`: the pedal configuration (pedal number to command text)
  held in an `IndexMap`, and ordering it by pedal number.
- `src/controller.rs`: the editor's state: configuration and aliases, the
  configuration received from and sent to the board.
- `src/connection.rs`: link status, protocol messages, and the decisions of
  the task that keeps the Bluetooth link up.
- `src/midi_front.rs`: the one-byte-per-pedal protocol of the console front
  end, its text forms, and the device choice.
- `src/text.rs`: decimal numbers, substrings and splitting over characters.

`app/` holds the window, the Bluetooth I/O, file dialogs and JSON files.
