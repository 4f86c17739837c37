# quran-asr-api

The logic of a service that transcribes recitations of the Quran and finds the
verses that are recited, verified with Verus, and the service around it.

Audio comes in as files or as a live stream. A transcriber turns it into words;
this crate finds the verses: it proposes stretches of the reference text,
aligns the words with each of them at weighted costs, splits a recitation that
jumps into spans, and tells verse by verse what was recited when. For streams it
keeps a window of words and decides which verse a listener is told.

## Layout

- `src/`: the library. Every function has a contract that Verus proves. What is
  believed instead are the contracts of the few functions that call other
  crates; each says so in its comment.
  - texts: `chars`, `text`, `json`, `tree`
  - alignment: `npy`, `assets`, `confusion`, `dp`, `candidates`, `scoring`,
    `timed`, `spans`, `alignment_v2`, `multispan`, `clock`, `fx`, `sorting`
  - streams: `ring`, `wav`, `rolling`, `grouping`, `stability`, `streaming`,
    `session`, `events`, `tokens`
  - the service: `config`, `net`, `access`, `replies`, `state`, `jobs`,
    `results`, `reports`, `cleanup`, `demo`, `transcriber_pool`, `versions`,
    `guessing`
  - corrected times of recordings: `transcripts`, `retiming`
- `tests/`: tests of the library.
- `app/`: the service itself, with its sockets, files, clocks and databases, and
  the tool that corrects recorded times (`retime`).

The public demonstration measures uploads with `ffmpeg`, which has to be installed
next to the service.

## Numbers

Scores, costs and times are numbers of a type that implements `scalar::Scalar`.
The library states its results over that trait's operations. The service uses
floating-point numbers; `scalar::Thousandths` counts thousandths exactly.

Functions named `law_…` state what holds of several functions together.
