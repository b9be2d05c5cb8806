# opencode-model-config

A desktop editor for the agents and providers of an `opencode.json` configuration file,
with its editing model verified by Verus.

- `src/` is the verified library:
  - `json` — the JSON document model (objects keep their key order; a write keeps an
    existing key in place, a removal keeps the other entries in order);
  - `text` — characters, trimming, integer and float texts, comma lists, the order of texts;
  - `decimal` — the decimal value of a float text, and whether it is too large for an `f64`;
  - `util` — reading and writing fields of a JSON object, WSL and configuration paths;
  - `model` — agent, model and provider rows: read from an object, written back to it;
  - `document` — loading the rows of a document and saving them into it;
  - `editing` — search, reordering, copying, adding rows, the model choices of an agent,
    variant selection, the expand-all state and combo-box filtering;
  - `ui` — moving a card within its list, and the drag of a card with its highlight;
  - `roundtrip` — what a read gives back of a write, and a write of a read.
- `app/` is the egui window, file and WSL access, and the conversion between
  `serde_json` values and the library's JSON model.
- `tests/` exercises the library on concrete documents.
