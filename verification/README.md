# svod_schedule

Verified pieces of a compiler pass that turns graphs of tensor operations into
kernels. Everything under `src/` is written in Verus: each function states in
its contract what it returns, and what holds of several functions together is
stated in public lemmas.

A graph is a list of nodes, each with an operation, a type and earlier nodes as
sources; two equal nodes are one node. Contracts speak of a graph as a sequence
of nodes, and of what an index expression means as a whole number.

| modules | what they are about |
| --- | --- |
| `graph`, `builders`, `helpers`, `topo`, `scope`, `subst`, `idlist`, `text` | graphs, walks, scopes, substitution |
| `meaning`, `bounds`, `fold`, `algebra`, `rounding`, `words`, `values` | numbers, and what expressions mean |
| `encodings`, `storage`, `carried`, `stored_words`, `fp8` | floats held in another type |
| `short`, `halves`, `quotients`, `longs` | numbers of 64 bits as two words |
| `passes` | rewriting a graph by one rule |
| `dce`, `late`, `lift`, `symbolic`, `commit`, `demote`, `divide`, `decomps` | arithmetic rules |
| `reduce`, `collapse`, `window`, `accumulate`, `group`, `ranged` | reductions |
| `lanes`, `expand`, `coordinates`, `product`, `product_shape`, `broadcast`, `scalarize`, `settled`, `fixed`, `shaped`, `finish` | values of several lanes |
| `early`, `movement`, `views`, `shape`, `address`, `indexing`, `disjoint` | views, and the indices that they become |
| `realize`, `bufferize`, `folding`, `limits`, `local`, `writes`, `merge` | storage |
| `ends`, `flatten`, `narrow`, `split`, `contexts`, `context`, `resolve`, `params` | kernels and calls |
| `devices`, `multi` | several devices |
| `scheduler`, `opts`, `heuristics`, `tiling`, `shift`, `pad`, `kernel_shape`, `kernel_info`, `naming` | optimizing a kernel |
| `cfg`, `phi`, `lines`, `keys`, `args`, `heads`, `sort`, `linearize`, `ranked` | the order of instructions |
| `config`, `env` | settings |

`app/` reads the environment and does what needs floating point. `tests/` runs
the library.
