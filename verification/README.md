# uclip_daemon

A Wayland clipboard history daemon (`ext_data_control_v1`), written as a Verus
library with a thin executable around it.

- `src/` is the verified library: MIME selection (`mime`), one-copy payload
  sets (`clipboard::blobs`), classification of a copy into Text / Image /
  Mixed content (`clipboard::content`), the bounded history with
  consecutive-duplicate suppression (`clipboard::history`), the event-loop
  bookkeeping of offers, selection and owned source (`clipboard::state`),
  read outcomes (`clipboard::io`), global binding (`clipboard::registry`),
  rendering (`display`), errors (`error`), and the IPC model: protocol types,
  the snapshot mirror and the socket path (`daemon`). Properties that span
  calls are proved in `clipboard::laws`, `clipboard::payload_laws` and
  `daemon::snapshot`.
- `app/` is the executable: Wayland connection and dispatch, pipe reads,
  logging, the socket server stub, and serde / thiserror copies of the
  library's protocol and error types.
- `tests/` exercises the library.
