# finality_jasmine

The block chain that drives the Jasmine finality gadget's voter in tests, verified with Verus.

- `src/testing/chain.rs`: the chain (`DummyChain`), its blocks and quorum certificates (`QC`).
- `src/testing/model.rs`: the mathematical model of the chain (`ChainView`), what each operation
  does to it, and the laws that hold of it (`law_*`).
- `src/testing/names.rs`: the hashes of generated blocks.
- `src/environment.rs`: the data a voter and a round are created with.
- `app/`: the environment around the chain: the lock it sits behind and the finality listeners.
