# aside

Record meetings with a timestamped notepad running alongside.

The library under `src/` holds the program's logic, each function with a contract.
Verus proves the contracts, but for those of the few functions that call chrono, rtrb,
ratatui or the standard library, which it believes; each of these says what is claimed
of the call. The program under `app/` holds what touches the outside: the
terminal, files, the clock and audio devices.

## Library

| module | what it holds |
| --- | --- |
| `text`, `text_helpers` | strings as characters and as bytes; character and word boundaries |
| `clock` | instants, the time between them, and how they are written |
| `page` | what the editor's operations mean, and the laws they obey |
| `app` | the editor's state, with every operation tied to `page` |
| `memo`, `parser` | the memo format: writing it, reading it back, and the round trip |
| `session` | session metadata, opening and resuming sessions, the list of sessions |
| `publish` | templates, file names and links of vault notes |
| `tui`, `notes` | keys, mouse, what is shown; the same without a recording |
| `recorder` | samples through a ring buffer: peaks, drops, silence, stereo frames |

## Usage

```
aside standup           # new session: opens the editor and starts recording
aside --resume standup  # resume an existing session
aside --list            # list all sessions
notes [output.md]       # take notes without a recording
```

Each line gets a `[MM:SS]` timestamp when you start typing it. Edit a line later and it
shows `[MM:SS ~MM:SS]`. (`notes` gives a line its time with Enter.) Sessions are kept in `.aside/` as WAV segments and JSON
metadata; the memo is `<name>.md`. Recording needs macOS.

On quit the memo is published to an Obsidian vault if `.aside/config.toml` names one:

```toml
[vault]
path = "~/obsidian"
folder = "inbox"
filename = "{{date:%Y-%m-%d-%-H-%M-%S}}"
open_in_obsidian = true
```

A template at `.aside/template.md`, or at the path that `template` gives, controls the
note format. It may use `{{name}}`, `{{memo}}`, `{{date:FORMAT}}` and `{{duration}}`.
