# web_app_hub

The verified core of Web App Hub, a manager for web apps that run in the
user's browsers with their own icon and isolated profile.

- `src/` is the library, checked by Verus:
  - `gtk_css` builds the managed block that gives Chromium `--app` windows a
    native-height title bar and merges it into a `gtk.css`; `merge_laws`
    proves what merging keeps, that it leaves a single managed block, and
    exactly when merging twice changes nothing.
  - `launch` splits the arguments of the `launch` subcommand, reads the PID out
    of a `SingletonLock` target and tells whether a process command line runs
    on a profile.
  - `json` and `placement` restore a saved window placement from the text of a profile's
    `Preferences` as browser flags.
  - `locale` picks the translation for the user's language.
  - `text` and `decimal` hold the character and number primitives.
- `app/` is the program around it: reading and writing files, `exec`ing the
  browser, logging and locale set-up.
- `tests/` runs the library on concrete inputs.
