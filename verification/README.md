# image_processor

An image processor that runs filter plugins over RGBA8 frames, with its
filters and decisions verified with Verus.

- `src/` is the verified library:
  - `frame`: layout of an RGBA8 frame and its byte length;
  - `blur`: the box blur (one pass, repeated passes) and its laws;
  - `mirror`: left-right and top-bottom mirrors and their laws;
  - `plugin_loader`: library file names, the steps of loading a plugin
    library, the interface version check and the reading of a plugin's status;
  - `error`: the processor's error type.
- `app/` is the command-line program around it: argument parsing, PNG
  decoding and encoding, reading the parameters file, opening plugin
  libraries and calling into them, and the C entry points of the two plugins.
- `tests/` exercises the library on concrete frames.
