# rs-deesser

A de-esser for 16-bit mono 44100 Hz WAV files, implemented as a streaming
pipeline around a verified library.

```text
rs-deesser [--bypass] [-q] <input.wav> <output.wav>
rs-deesser --bands
```

| Option | Meaning |
|---|---|
| `--bypass` | connect the source straight to the sink: copies the file |
| `--bands` | print the designed filter bank and exit |
| `-q`, `--quiet` | do not draw the progress indicator |
| `-h`, `--help` | usage |

Input files that are not 16-bit PCM, mono and 44100 Hz are rejected with a
message; nothing is converted or resampled.

## The algorithm in one paragraph

The range 2500..8000 Hz is split into ten logarithmically spaced bands. Each
band is isolated by a band-pass FIR and the peak magnitude of the filtered
signal is measured over 10 ms blocks. A run of blocks above -20 dBFS is an
event; the corresponding excerpt of the audio is passed through a cascade of
peaking EQ filters, one per band that fired, each cutting exactly the number of
dB by which that band exceeded the threshold. The difference between the
filtered and the unfiltered excerpt is faded in and out over 5 ms and added back
into the signal, so only the detected regions and only the offending bands are
touched.

## Layout

| Path | Contents |
|---|---|
| `src/` | the library, verified with Verus |
| `src/wav.rs` | RIFF/WAVE headers and samples |
| `src/progress.rs` | the progress line |
| `src/deesser.rs` | the de-esser: detection, grouping, repair |
| `src/dsp.rs` | FIR and biquad filters |
| `src/band.rs`, `src/event.rs`, `src/ring.rs` | parts of the de-esser |
| `src/schedule.rs` | the mathematical model of the de-esser |
| `src/safety.rs`, `src/accounting.rs` | what is proved of the model |
| `src/command.rs`, `src/text.rs` | command line, decimal notation |
| `app/` | the program: files, terminal, clock, filter design in floating point |
| `tests/` | tests of the library |

## What is proved

* A file is accepted if and only if it is well formed and in the required format;
  the size in its first header and chunks of other kinds do not matter. A file
  that is written reads back as the same samples, and a copy holds the same bytes
  of samples.
* Every sample is heard by every band-pass filter, and the tail is analysed as if
  silence followed.
* The de-esser hands out exactly as many samples as it takes, and no correction
  ever reaches a sample that has been handed out.
* Every loud block of every band is repaired, the last one even if it is not
  complete; every repair is made of such blocks, and samples further away from
  them than a crossfade are unchanged.
* The look-ahead always fits into a ring buffer of fixed size, and the number of
  events to remember is bounded.
* Redrawing the progress line leaves exactly the new text on screen, and clearing
  it leaves nothing.
