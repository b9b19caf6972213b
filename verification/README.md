# moq_relay

The decisions of a media-over-QUIC relay, verified with Verus: which tracks a subscriber gets, which
objects pass, whom to tell of what is published, and who may do what.

## Layout

- `src/`: the library. Every function states its contract, and Verus proves it. Functions whose
  names begin with `law_` state what holds across functions.
  - `filter/`: filters on tracks and objects, and the selection of the best tracks.
  - `dts_tracker`, `dts_service`, `bandwidth`, `catalog_dts`: switching between the qualities of a
    track as bandwidth changes.
  - `top_n_tracker`, `top_n_events`, `subscriber_registry`, `session_publisher`: rankings of tracks
    and subscriptions to namespaces.
  - `local`, `consumer`, `producer`, `relay`, `quic_stats`: serving tracks.
  - `auth/`: decisions by Common Access Tokens. `privacypass/`: decisions by Privacy Pass tokens.
  - `chat`, `demo`: what the two small clients compute.
  - `namespace`, `text`, `bytes`: shared types and helpers.
- `app/`: ordinary Rust around the library: clocks, channels, averages, printing and the hooks for
  a transport. A transport comes in through the traits of `app/serve.rs`.
- `tests/`: tests of the library with the outside crates linked.

## Conventions

- Callers pass the time in, in milliseconds or seconds. The one clock that is read is that of the
  outside crate which validates Common Access Tokens.
- Values that are averages of floating-point numbers are computed by the caller and held by their
  bits, which order like the numbers as long as those are not negative.
- Calls into outside crates stand behind small functions marked `external_body`. Their comments
  say what is taken from the crate without proof.
