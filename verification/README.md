# nanoplaid_kernels

Verified kernels for late-interaction retrieval: the MaxSim score of an int8
query with documents compressed to sign bits (1 bit a dimension) or to residual
codes (4 bits a dimension).

    score(Q, D) = sum over query rows i of max over tokens j of Q[i] . D[j]

The library computes the integer part of every score and proves each kernel
against the same few lines of specification, so that all of them agree exactly:

| module | what it holds |
|--------|---------------|
| `model`, `sums` | what a score is: dot products with signs and with looked-up weights, and their maxima |
| `binary32` | floats as bit patterns: order, sign, rounding half to even |
| `query` | quantization to codes, row sums, and the layouts of the fused kernels |
| `signs` | packing to sign bits and back |
| `scalar` | the portable binary kernels, by `2P - T` |
| `residual` | the residual reference kernel and the best score of each row |
| `neon`, `x86` | the fused kernels for 128 dimensions, on lane-by-lane vector operations |
| `dispatch` | the choice of a kernel by processor features |
| `docs` | batches of documents: what is asked of the arrays, and the cut into documents |
| `laws` | what holds beyond any one function |
| `joins` | documents as bags of tokens; joined documents, batches and queries |

`app/` holds what needs a floating-point unit (dividing by scales, joining and
adding scores), the detection of processor features, and the Python bridge.

`dim` is a multiple of eight throughout. Sign bits are packed most significant
first; the table index of an even dimension is in the high nibble.
