# eqmap_netlist

Maps gate-level netlists to the expressions that a rewriting engine works on,
and puts rewritten expressions back. The library under `src/` is verified with
Verus; `app/` is the command-line program around it.

- `ident`, `level`, `param`, `primitive`, `cell`: names, logic values,
  parameters, and the primitive cells that netlists are made of
- `part`, `netlist`: what can be instantiated, and netlists, held by the
  `safety_net` crate
- `lang`, `func`: the languages of expressions, and how cells and nodes of
  expressions correspond
- `order`: the order in which the nets behind some roots are read
- `reading`, `places`, `leaves`, `mapper`, `mapping`: from nets to expressions
- `rewrite`: from expressions back to gates
- `restored`, `roundtrip`, `again`: what rewriting keeps, that what was read
  can be put back, and that it is then read the same again
- `request`: what the options of a run ask of the rewriting engine

A net is named by a plain `DrivenNet`. Where `safety_net` counts references to
nets, functions take the nets that are held on to as an argument, and say where
they are afterwards. To rewrite several mappings of one netlist in turn, hold on
to the nets of the others with `rewrite_holding`, and move those mappings along.

Primitive cells drive one net each. Other cells are known by their ports alone,
are leaves of expressions, and may drive several nets.

The contracts of `safety_net`, `egg` and `bitvec` functions are stated, not
proved. Each stands on a small function marked `external_body`, with a comment
that names the function that it calls.

The program reads Verilog and writes Verilog. It links no rewriting engine, so
the logic that it writes is the logic that it read, in terms of the cells that
the expressions have.
