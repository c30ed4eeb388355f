# rs_tfhe

The TRGSW layer of a TFHE implementation over the discretised torus
(`u32`, standing for `x / 2^32`), with its integer logic verified by Verus.

- `src/` — the verified library:
  - `params` — scheme parameters (`N = 1024`, `BGBIT = 6`, `L = 3`, `BASEBIT = 2`, `IKS_T = 8`, level-0 `N = 635`);
  - `torus` — torus arithmetic as integers modulo `2^32`;
  - `tlwe`, `trlwe`, `key` — ciphertext and cloud-key types;
  - `rotation` — multiplication by `X^k` in `T[X]/(X^N+1)` and what blind rotation computes;
  - `gadget` — gadget decomposition and recomposition;
  - `keyswitch` — digits and sums of identity key switching;
  - `trgsw` — `poly_mul_with_x_k`, `decomposition`, the CMux steps, the
    blind-rotation state machine, `TRGSWLv1` and `identity_key_switching`.
- `app/` — the floating-point half: the negacyclic FFT (over `rustfft`),
  FFT-domain TRGSW keys, `external_product_with_fft`, and the loops that run
  CMux and blind rotation through the verified steps.
- `tests/` — tests of the library, with keys and ciphertexts built from a
  deterministic generator and exact (integer) external products.
