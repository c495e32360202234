# luminal_python

An importer for ONNX models. It reads a model, translates its nodes into a
graph of tensor operations, computes ahead of time what is already known, and
hands the graph over to `luminal`, which runs it.

The library under `src/` is written in Verus: every function states what it
returns and changes. Verus proves it of all but a few small functions that only
call `onnx_protobuf`, `luminal` or the standard library. They are marked
`external_body`, their contracts are believed without proof, and the comment above
each names what it calls and what is claimed of it. They stand in `decode`, `lower`
and `nodes`.

| module    | what it holds                                                        |
|-----------|----------------------------------------------------------------------|
| `bits`    | single-precision numbers as their bits                               |
| `shape`   | sizes of axes, repetition by the rules of numpy, places in memory    |
| `graph`   | the graph, and what a tensor of it stands for                        |
| `compose` | operations that are made of others, such as products of matrices     |
| `names`   | names, messages, decimal numbers, and maps that keep their order     |
| `proto`   | the parts of a model, and the numbers in them                        |
| `wire`    | how deeply groups are nested in the bytes of a model                 |
| `decode`  | models as they are stored, read with `onnx_protobuf`                 |
| `fold`    | values that are computed while the graph is built                    |
| `reading` | positions of elements in tensors, and whole numbers there            |
| `parts`   | lists that are parted along an axis, and put together again          |
| `state`   | what is known at some point of an import                             |
| `ops`     | the import of each kind of node                                      |
| `nodes`   | the import of all nodes, one after the other                         |
| `runtime` | the data that the nodes are given                                    |
| `model`   | the import of a whole model                                          |
| `lower`   | the graph as a graph of `luminal`                                    |

What a node's import does is a relation between what is known before and after
it, named `..._step`: how it ends, what the output stands for, which names
changed, which data was added and which values became known. An import ends in
one of three ways: it is done, it fails with a message, or the node is one that
its operation does not admit (`Rejected`). Functions named `parse_...` and
`process_onnx_nodes` ask that the last does not happen; those named `try_...` take
every node.

Arithmetic on floating-point numbers is handed in through the trait
`FloatMath`. `app/` implements it with the arithmetic of the machine, reads the
files, runs the graph and offers all of it to Python.
