# pictagger

The verified core of PicTagger, a browser tool that collects images,
tags them and plots their measured frequencies against their IB value.

- `src/` is the library, checked by Verus: tag normalisation and labels
  (`models`), the browser-storage and cache-archive formats with their
  export and import (`storage`), the bookkeeping for uploads (`upload`),
  the tag editor, gallery and scatter-plot rules (`gallery`), string
  helpers (`text`), and the contracts of the calls into `uuid`, `base64`
  and `zip` (`bindings`). Floating-point values are held as their `f64`
  bit patterns.
- `app/` is the Leptos front end around it: components, local storage,
  file reading, downloads, serde forms of the records, and the
  floating-point parts (colours, axis limits, IB filtering).
- `tests/` runs the library on concrete values.
