# sms-notifier

A tray program that receives verification codes, over a local HTTP interface or from mailboxes,
shows them, and pastes them into the focused window.

The library under `src/` holds what the program decides and computes, written and proved with
Verus. It does no I/O: whoever uses it owns the sockets, the files, the clock and the keyboard.

- `text`, `lines`, `number`: characters, lines and numbers.
- `unicode`: what is taken from the standard library.
- `code`, `sms`: codes in texts, and what is done about a message.
- `http`, `logs`, `push`: the HTTP service, the log, and pushing the log to those who follow it.
- `args`, `browser`, `keyboard`, `notification`, `platform`: the command line and the desktop.
- `mail::config`, `mail::interval`, `mail::interval_laws`: the configuration file.
- `mail::imap_lines`, `mail::imap_client`, `mail::imap_laws`, `mail::session`, `mail::listener`,
  `mail::dates`, `mail::start`: the dialogue with a mail server.
- `mail::message`, `mail::plain`, `mail::mime`, `mail::transfer`, `mail::charset`, `mail::words`,
  `mail::html`: from the bytes of a message to its text.

`app/` is the program around the library, and `tests/` runs the library on concrete values.
