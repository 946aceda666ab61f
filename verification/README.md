# Combinational-loop analysis

A verified library that finds out which bits of a module's variables depend on which others, and
under which conditions. Dependencies are kept by position: an edge says by how many array elements
and packed bits a position moves, so that shifting a value through itself is no loop.

## How a module is analysed

1. `collect` gathers every access of the procedures, connections and functions of a module;
   `partition` splits the variables at the ends of these accesses into nodes.
2. `targets`, `snapshots`, `flows` and `project` say, node by node, what an assignment takes from the
   variables, calls and literals of its expression; `realize` and `assign` turn that into versions.
3. `ssa` is a store of versions with conditions, kept apart by branches (`state`), exits
   (`revision`), imports (`imports`) and repeated transfers (`repeated`, `lift`). `procedure`
   evaluates the statements, expressions and calls of `ir` over it: `machine` is the state of an
   evaluation, and `values`, `steps`, `assigning` and `calling` are its single steps. `bounds` and
   `selection` decide how loops and cases are evaluated, `predicates` says which conditions are
   alike, and `sequence` and `branches` bring branches, loops and bodies together again.
   `analysis` evaluates a procedure from its start and lowers it to a graph.
4. `lower` writes what a procedure does as a graph; `summarize` makes the summary of a function.
   `calls`, `apply` and `frames` say how a summary is applied at a call; an evaluation takes the
   body of a function in place. `looping`, `runtime` and `exits` enter and leave loops whose
   iterations are not known. `graph` joins the graphs of procedures, and `instance`, `requests`,
   `feedthrough` and `through` add what runs through instances. `connecting` evaluates the actuals
   of an instance, `wiring` connects its ports, and `module` builds the graph of a whole module from
   its procedures, its instances and the summaries of the modules built before.

Conditions are sets of choices (`path`), stored once in an arena (`arena`, `conjoin`, `remap`).
`write_count`, `self_reads` and `ff_table` look at single blocks: how often a bit is written, which
reads of a block may see its own writes, and which elements need a register.

## Reading the contracts

Every operation states its result over mathematical values: sets of bits, sequences of choices, maps
from keys to versions. Operations that change a store say how the new store follows from the old one;
where several steps follow one another, a predicate names the states on the way. Laws that relate
several operations stand beside the types that they are about, as public proof functions.

`app/` holds what writes to a log, and the walk over the modules.
