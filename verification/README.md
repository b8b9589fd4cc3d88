# subnet_calc

An IPv4 subnet calculator whose computing core is verified with Verus.

- `src/` is the verified library: address and mask parsing and printing
  (`ip`, `mask`), input clean-up (`normalize`), subnet analysis (`subnet`),
  containment, overlap and route aggregation (`aggregate`), VLSM allocation
  (`vlsm`), CSV and Markdown exports (`export`), the named fields of the
  JSON exports (`fields`), the history of analysed
  inputs (`history`), and what each screen of the program decides
  (`panels`). `text` holds the character-level specifications the others are
  stated in.
- `app/` is the desktop program around it: the egui screens, file dialogs,
  the history file under `$HOME/.subnet-calc/`, and the writing of the JSON
  exports from the library's fields.
- `tests/` runs the library on concrete inputs.
