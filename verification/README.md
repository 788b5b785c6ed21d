# cpubrrr

A CPU-only inference runtime for mixture-of-experts language models. The library in
`src/` is proved with Verus; `app/` holds what touches files, threads and floats.

## Numbers

The kernels and the steps between them are written over two traits. `scalar::Scalar`
has sums, products and fused products; `analytic::Analytic` adds division, order,
rounding, roots and exponentials. Contracts fix every operation and the order in which
it is applied, and leave the rounding of each to the type. Where the engines add up a
row in different orders, each order has a specification of its own, and the choice is a
value: `lanes::Chain` for rows in 8-bit blocks, `kmat::Grain` for K-quant rows. 32-bit
integers are one such type of numbers; `app/real.rs` has single-precision floats.

## Layout of `src/`

- `arith`, `bits`, `half`, `number`, `text`, `fields`: integers, bit patterns and text.
- `pack`, `gemm`, `tile`, `sme`: dense matrix products, packed and in tiles.
- `lanes`, `q4`, `q8`, `q4k`, `q6k`, `mxfp4`, `kmat`, `quantize`: quantized rows.
- `dense`, `norm`, `softmax`, `attention`, `attend`, `activation`, `yarn`: the steps of
  a layer.
- `gptoss`, `qwen`: the layers of the two models; `gptoss_pass`, `qwen_pass`: what each
  work item of a pass writes; `batch`, `batch_steps`, `batch_store`, `batch_pass`: many
  tokens at once.
- `exact`, `exact_rows`, `exact_mx`: rows on numbers that do not round.
- `schedule`, `work`, `access`, `piece`, `barrier`, `pool`, `partition`, `even`,
  `weighted`, `routing`: how workers share a pass without locks; `order`,
  `gptoss_order`, `qwen_order`: why the order of their work does not matter.
- `rng`, `select`, `sampling`, `decode`: the choice of the next token.
- `config`, `tensors`, `tokenizer`, `chat`, `request`: files, vocabularies and requests.

## Laws

Public proof functions state what holds across functions. Among them:

- items that no barrier parts never meet (`access`) and do not disturb each other
  (`gptoss_pass`, `qwen_pass`);
- a whole pass, in which the experts are those that the router's numbers choose, leaves
  the same contents in the buffers in every order of its items that keeps the barriers
  (`gptoss_order`, `qwen_order`);
- no worker passes a barrier before all have come (`barrier`), and each unit of work is
  done by one worker (`work`);
- slices cover every item once and are balanced (`partition`, `even`, `weighted`), and
  the runs of a norm make up the norm (`norm`);
- a row in 8-bit blocks, a Q4_K, Q6_K or MXFP4 row has the value of its dequantized
  weights, in whatever chains it is added up, where arithmetic is exact (`exact`,
  `exact_rows`, `exact_mx`);
- dense products do not depend on the order of the loops where arithmetic is exact, nor
  on the number of workers (`gemm`); integer products are the same with the bias folded
  out (`q4`);
- from the same levels and the same choice of experts, the experts of a batch leave in a
  token's stream what the steps of a pass leave in it, number by number (`batch_store`,
  `batch_pass`);
- encoded text decodes to itself (`tokenizer`).
