# daboss

The part of a small browser that scripts talk to: the document and its elements, events and
timers, navigation, forms, files, storage, keys, compression, drawing, animation and sound.

## Layout

- `src/` is the library, written in Verus. What each function does is stated in its `requires` and
  `ensures` clauses over mathematical values, and proved. Public proof functions state what holds
  of several functions together.
- `app/` binds the library to the script engine `boa_engine` and to the rest of the browser: it
  reads the arguments of scripts, does input and output, and computes with floating-point numbers.
- `tests/` runs the library on examples.

## Modules

| Modules | What they are about |
| --- | --- |
| `text`, `number`, `bytes`, `base64`, `sort`, `pairs`, `registry`, `calendar`, `color` | values that the others are made of |
| `tree`, `dom`, `selector`, `mutate`, `markup`, `style`, `class_list`, `scripts`, `bindings` | the document |
| `events`, `timers`, `engine`, `observers`, `abort`, `performance`, `permissions` | what happens in a page |
| `address`, `history`, `fetch` | where a page is and what it loads |
| `forms`, `pattern`, `formdata`, `dialog`, `clipboard` | what people do with a page |
| `file`, `fontloading`, `idb`, `opfs`, `compression`, `crypto` | bytes that scripts keep and change |
| `canvas`, `pixels`, `offscreen`, `paint_worklet`, `animations`, `intl` | what a page shows |
| `media`, `mse`, `audio_ctx`, `atomics` | sound, video and shared numbers |

## What is trusted

A few functions call crates that are not verified: `url`, `flate2`, `ring`, `tiny-skia`, `png` and
`image`, and a few functions of std. Each is marked `external_body` or is an
`assume_specification`, and says above it what is believed of the function that it calls.
