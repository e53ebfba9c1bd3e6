# softmax_rows

Row-wise softmax on single-precision matrices, in four shapes:

| module  | shape                                                                  |
|---------|------------------------------------------------------------------------|
| `simt`  | one block per row, one thread per element                              |
| `simt2` | one block per row, two elements per thread, half a row apart           |
| `simt3` | one block per row, two elements per thread, side by side               |
| `tile`  | tiles of any size, reduced row by row                                  |

Every kernel takes the maximum of a row, the exponentials of the distances to it, their sum, and
the quotients. They differ in which thread takes which element and in the order of the reductions,
and so in how they round.

The library runs the kernels on the host, thread by thread, on numbers held as bit patterns. Its
contracts say to the bit what comes out; the exponential is a parameter, and the contracts speak of
whatever it answers. The `_laws` modules prove what follows: that the maximum is one, that the
exponential is never asked above zero, that a row comes out as probabilities which add up to one
(within one part in a million for the three kernels with threads and for tiles whose reduction rounds
as rarely, in fifty thousand for the sequential reference and for tiles that are added up one by one),
how far a kernel can be from
the sequential reference when the device's exponential differs a little from the host's, that results
keep the order of their row, that moving a row exactly changes nothing and rearranging it next to
nothing, what a NaN or an infinity does, that no element is written twice, no shared slot is raced
for, and the threads may come in any order. For exponentials with the few properties that they name,
they also prove that what the kernels with threads make of the two matrices of `input` passes the
tests of `report`, and that the rows of the tile kernel pass the test of their sums.

`app/` holds the device code of the same kernels and the program that launches, checks and measures
them. It needs a CUDA device.
