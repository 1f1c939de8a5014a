# arm-quant-gemm

int8 GEMM kernels in the shape of the AArch64 `SDOT` and `SMMLA` instructions, verified with Verus.

Every kernel -- naive and tiled `SDOT`, 4x4, blocked and 8x8 `SMMLA`, and either of them shared out
over columns -- is proved to leave in `C` the entries of `A * B` modulo 2^32, and to leave the rest
of `C` alone. All of them therefore agree with the scalar triple loop on every shape, odd sizes and
tails included, and for any number of workers. Below 131072 terms to a sum the entries are exact.

The vector instructions are computed lane by lane in portable code (`src/neon.rs`), with the lane
equations as contracts.

## Layout

```
src/math.rs        sums, arithmetic modulo 2^32
src/model.rs       entries of a product, regions of C, and what filling a region means
src/neon.rs        SDOT, SMMLA and the loads and stores around them, lane by lane
src/pack.rs        operand layouts: B transposed, and 2x8 tiles
src/scalar.rs      the reference
src/sdot*.rs       SDOT kernels
src/smmla*.rs      SMMLA kernels
src/partition.rs   sharing columns out among workers
src/dispatch.rs    which kernel for which M
src/fill.rs        reproducible operands
src/harness.rs     every kernel on the same operands, and their comparison
src/roofline.rs    loop bodies of the issue-rate measurement
src/laws.rs        what holds of all of these together
app/               benchmarks, on real threads
```
