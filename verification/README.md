# gsm-windrose

Lifecycle tool for the Windrose dedicated server, with its configuration
logic verified in Verus.

- `src/` is the verified library:
  - `json`: the JSON value type, its mathematical model and well-formedness;
  - `json_text`: reading JSON text into a `JsonValue` and writing it out,
    done by `serde_json` behind trusted wrappers;
  - `merge`, `merge_laws`: the append-only deep merge and what holds of it
    (idempotence, key preservation, well-formedness);
  - `equiv`: JSON values that are the same up to the order of object
    members;
  - `path`, `env_value`, `settings`, `settings_laws`: how environment
    variables become JSON fragments and are merged into a document, and
    what holds of that (unrelated keys kept, settings read back, applying
    twice changes nothing, the order of parting entries does not matter);
  - `server_settings`: the Windrose variable table and password flag;
  - `report`: the server metadata lines drawn from `ServerDescription.json`;
  - `launch`: launch and install arguments.
- `app/` is the command-line program: file I/O, reading floats, logging, the
  server instance and the scheduler.
- `tests/` exercises the library on concrete values.
