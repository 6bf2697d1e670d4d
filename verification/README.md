# question_desk

The verified core of Question Desk, a small desktop app in which a ministry worker
logs the hard questions they are asked, keeps them in a local `questions.json` and
asks an AI model for a first draft of an answer with a checklist of things to verify.

- `src/` — the library, verified with Verus:
  - `text.rs`: Unicode white space, trimming, decimal digits, the order of texts;
  - `model.rs`: the `Draft` and `Question` records and their views;
  - `store.rs`: listing newest first, finding, removing, attaching a draft, adding a
    question with an id that is unique within the store, reading a store file's contents;
  - `draft.rs`: the model and key checks, the message sent to the model, the reading of its reply, error messages;
  - `clock.rs`: UTC text stamps of an instant, from `chrono` (the clock itself is read in `app/`).
- `app/` — the Tauri commands, the file I/O, the serde records and the HTTP call.
- `tests/` — tests of the library.
