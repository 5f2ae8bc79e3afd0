# audiobook

Turns the downloaded chapters of a book into audio files with a speech service.

- `src/` holds the rules, each function with a contract that Verus proves: reading the settings,
  cleaning a chapter, cutting it into requests, joining the audio that comes back, converting the
  cover, planning the files, and deciding what a worker and the work as a whole do next. Functions
  named `law_…` state what holds of several functions together.
- `tests/` runs the library on concrete values.
- `app/` is the program around it: files, threads, the connection to the service, progress bars and
  log messages.

What is believed without proof stands in the items marked `external_body` or
`assume_specification`: `String::push`, the replacement by regular expressions in `sanitize`, and
the decoding and encoding of images in `cover`.
