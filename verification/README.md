# wave_viewer

Logic of a serial-port signal viewer (scrolling plot, triggered
oscilloscope, pulse-density spectrum) and of its companion signal
generator's serial console, written in Verus with contracts and proofs.

- `src/` — the verified library:
  - `decode` — byte streams to samples: single-bit and 2-in-3-bytes packed
    12-bit decoding, framing-phase estimation, chunk-independence laws.
  - `filter` — decimation and moving-average filters over a settings
    snapshot; the decimation law; running a filter over a sequence.
  - `dsp::cic` — integer CIC decimator and pulse-density input, output-rate
    and chunking laws; `dsp::spectrum` — integer settings of the spectrum view.
  - `viewer` — the plot's sample window; `viewer::scope` — trigger search,
    frame capture and persistence.
  - `params`, `speed`, `clock` — shared parameters, byte-rate meter, and the
    clock calls they rest on.
  - `command`, `music` — the generator's frequency console (parsing,
    formatting, line editing, round-trip law) and tone arithmetic.
- `tests/` — tests of the library on concrete values.
- `app/` — the viewers' GUI, serial I/O, threads and floating-point DSP
  (FIR design, FFT), which use the library.
