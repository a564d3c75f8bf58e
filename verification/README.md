# arcface_hrx

ArcFace w600k_r50 face embedding on the host, around a device that runs the network. The library in
`src/` is verified with Verus.

- `src/` is the verified library.
  - `alignment`: bilinear sampling of aligned 112 by 112 RGB crops.
  - `similarity`: cosine similarity of embeddings.
  - `arcface`, `loading`, `runs`, `batches`, `inference`, `tensor`, `error`: which requests a model
    takes, how they are cut into batches, and what is kept of the device's answers.
  - `bytes`: numbers in the byte order of the machine and of the wire.
  - `number`, `encoding`, `arithmetic`, `conversion`, `division`: IEEE 754 arithmetic under
    rounding to nearest, stated over integers and computed in integers, bit for bit.
  - `rounding`, `whole`: facts about rounding.
- `tests/` runs the library, against the machine's own floating point where it can.
- `app/` connects the library to a device runtime, which it takes through the trait `Device`.

Two functions of `bytemuck` are called through trusted wrappers in `bytes`. Everything else in
`src/` is proved. What `app/` does is not: among it are fitting landmarks to the template and
inverting the fitted transform, which the device runtime computes on the host.
