# grin-cuckatoo-miner

A standalone Cuckatoo miner for Grin with CPU, portable wgpu and native Metal
backends. Every discovered cycle is checked before it can be submitted.

The logic of the miner is a library whose contracts are proved with Verus. The
program around it moves bytes, runs the devices and waits.

## Layout

- `src/`: the library.
  - `siphash`, `keys`, `graph`, `verify`: what a graph is, and what a proof of
    work is. `verify_cycle` accepts exactly the simple cycles of a graph.
  - `solver/cpu_lean`, `search`, `peel`, `radix`, `d2`: trimming on the CPU and
    the exact searches of what is left. An answer with a proof passes the check,
    and where a search says that there is no cycle, there is none.
  - `solver/gpu_wgpu`, `gpu_rounds`, `gpu_fine`, `gpu_diagnostics`: what the
    portable backend allocates, and the commands of its rounds.
    `device` says what the commands do to the edges, and proves that the rounds
    trim as the CPU does. `portable` follows a whole trim: the survivors do not
    depend on the way of marking.
  - `solver/gpu_metal`, `metal_device`, `self_check`: the same for native Metal,
    with the checks that a device passes before it is used.
  - `solver/verdict`: the answer for a graph that a GPU has trimmed.
  - `stratum`, `link`, `coordinator`, `gate`, `cli`: the protocol, the decisions of a
    mining run and of an offline run, and the choice of a backend.
- `tests/`: tests of the library. The plans of both GPU backends run there on
  devices that are simulated word by word.
- `app/`: the program.

## Running

```bash
grin-cuckatoo-miner gate --backend auto --trimming slean \
  --edge-bits 32 --pre-pow 00 --nonce-start 45 --count 1
grin-cuckatoo-miner mine --backend auto --trimming slean \
  --node-host 127.0.0.1 --node-port 13416 --login m1-testnet
```

The complete range of nonces `0..99` for the header `00` must find exactly the
nonces `45` and `74`.

The wgpu backend reads its shader from `lean.wgsl`, or from the file that
`GRIN_MINER_SHADER` names. The scratch layout in `app/gpu/mod.rs` has to agree
with it.

## Trusted calls

Five calls leave the verified code: BLAKE2b (`keys`), hexadecimal decoding
(`hex_text`), the parsing and quoting of JSON (`stratum`) and the sort of the
standard library (`verify`). The contract of each stands with its wrapper.
