# custom_driver

Rules for installing, listing and selecting custom Vulkan drivers on
Android devices with Adreno GPUs, verified with Verus.

- `src/` is the verified library: archive entry limits (`archive`),
  metadata validation and refusal messages (`metadata`, `error`), driver
  identifiers (`driver_id`), relative-path safety and path joining (`path`),
  the installed-driver list and the driver picker (`listing`), and the
  start-up decision (`platform`).
- `app/` reads and writes the drivers directory, decodes zip archives and
  `meta.json`, and calls the Android loader; it hands plain values to the
  library and acts on its answers.
- `tests/` runs the library on concrete inputs.
