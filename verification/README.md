# i3more

The decision logic of the i3More desktop helpers for the i3 window manager,
written in Verus and proved against its contracts.

- `src/` — the verified library:
  - `linbus/` — a D-Bus wire codec: type signatures, marshalling and
    unmarshalling of values and messages (with the proofs that what is
    written reads back), bus addresses, authentication lines, reply
    matching and the dispatcher's routing and property store.
  - `ipc`, `i3tree`, `model`, `sequencer`, `renames`, `layout_cmd`, `auto_unmax`,
    `mru`, `navigator`, `bar`, `placement` — the i3 side: IPC framing, the
    workspace snapshot the bar draws, sequential workspace numbering (and
    the proof that no rename targets a name in use),
    layout cascades, maximize reverts, window history and window placement.
  - `notify/` — notification history, ids, grouping, markup filtering,
    image hints, popups and do-not-disturb.
  - `audio`, `devices`, `panel`, `speech`, `keyhint`, `launcher`, `icon`,
    `icon_cache`, `fa`, `lock/` — the audio, control panel, speech-to-text,
    keybinding, launcher, icon and lock-screen helpers.
- `tests/` — tests of the library on concrete values.
- `app/` — a command-line front end that does the I/O (i3's socket,
  `pactl`, D-Bus, files) and leaves the decisions to the library.
