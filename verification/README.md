# einsum_matmul

Rewrites einsums into matrix products.

There are proofs that these rewrites keep what a model computes on tensors of
integers:

- adding an axis to an einsum, of any number of inputs, quantized or not;
- exchanging the operands of an einsum of two inputs without quantization;
- the decomposition of such einsums into matrix products, where the axes of the
  einsum are those of such a product (`becomes_product`);
- the product by a kernel on packed operands, where no input has a label twice, the
  dimensions that are summed over agree, and the kernel computes the product along
  the axes that it is told (`kernel_suits`);
- dequantization, where also the zero points are single ones, and the operators
  compute what they are described to (`dequant_suits`).

All of them keep the inputs of the model and the facts of its outputs.

`src/` is the verified library.

- `labels`, `axes`, `axis_ops`, `axis_values`: expressions such as `amk,akn->amn`,
  their axes, the axis operators that a mapping of one input and one output comes
  to, and what these make of tensors.
- `tensor`, `product`, `meaning`, `matmul`, `eval`: tensors of integers, what
  einsums and a batched matrix product of them are, and the evaluation of the
  latter.
- `dim`, `ops`, `model`, `patch`, `compact`, `run`: dimensions, operators and what
  they derive about their outputs, models, patches of models, models without what
  no output needs, and what models compute.
- `roles`, `optimize`, `dequant`, `kernels`: which axes are the rows, the sums
  and the columns of a matrix product; the next rewrite of an einsum on its way
  to one; quantized einsums; products by kernels.
- `as_matmul`: the decomposition of an einsum into a matrix product.
- `preserve`, `packed`, `centered`, `requantized`, `rewrites`: what the rewrites
  keep of a model, and what they give the einsum.
- `progress`, `swaps`, `direct`, `vectors`, `forms`, `facts`: that the rewrites
  come to an end, for which expressions the decomposition is sure to succeed, and
  that tensors are as their facts say.

`app/` has the product on arrays of any scalar type, floating point among them.
