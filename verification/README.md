# clicky

Grouped environment-variable configurations for a desktop switcher: groups
hold environments, environments hold variables, and one environment at a time
is applied to the user's persistent environment.

- `src/` is the verified library. `model` and `strmap` describe a
  configuration; `editing`, `variables`, `checks` and `listing` are the
  operations on it; `merge` and `transfer` export and import; `storage` turns
  a configuration into database rows and back; `apply`, `shell`, `launchctl`,
  `appliers` and `platform` decide what applying does on each system, and
  `idea` renders the IDE environment file; `recent`
  and `tray` keep the quick-switch list; `logs` names and expires log files;
  `lite` holds the rules of the lite desktop build; `laws` states and proves
  the properties that tie the operations together.
- `app/` is the desktop program around the library: the Tauri window and tray,
  SQLite, YAML files, processes, the registry and the log files.
- `tests/` runs the library on concrete values.
