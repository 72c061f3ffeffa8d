# pcb_schematic

Generates human-readable KiCad schematics from an evaluated design: it reads components, nets and
roles, plans the sheets, places and routes every sheet, and hands out each document as an
s-expression tree. The library under `src/` is verified with Verus; `app/` holds the command line
and the files.

Lengths are whole internal units of a ten-thousandth of a millimetre.

| Step | Modules |
| --- | --- |
| Input and basic types | `units`, `config`, `text`, `names`, `order`, `sexpr`, `schematic`, `model`, `warning` |
| Reading the design | `geometry`, `symbols`, `roles`, `extract`, `netlist` |
| Sheets | `sheets`, `hierarchy` |
| Placement | `anchors`, `compose`, `keepout`, `arrange`, `columns`, `band`, `filters`, `orientation`, `place`, `manual` |
| Texts | `glyphs`, `texts`, `textplan`, `textpass` |
| Routing | `wiring`, `registry`, `canvas`, `pins`, `subsets`, `tree`, `grow`, `treelabel`, `signals`, `nets`, `labels`, `power`, `rails`, `supply`, `zones`, `outline`, `blocks`, `align`, `route` |
| Documents | `uuid`, `nodes`, `writer`, `document`, `generate`, `project`, `erc`, `wording` |
| What holds throughout | `apart`, `contacts` and `pulled` (a wire that asks what is free makes no contact with another net; contacts are left to wires of last resort), `linked`, `served` and `powered` (no pin is left out), `repeat` (repeated runs agree), `manual`, `hierarchy` |
