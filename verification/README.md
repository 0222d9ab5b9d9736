# MangoChill

An input-driven dynamic FPS limiter for Linux. Input devices are watched for activity,
and the limit that a running game gets follows that activity: it ramps up while the
devices are busy and tapers off once they are idle.

- `src/` is the library. Its functions have contracts, and Verus proves them. What is
  not proved are a few calls into std, `regex` and `chrono`; each says what it relies on.
  - `scratch`, `input_parsing`: from the bytes of a device to the times of activity.
  - `ewm`, `double`, `order`: how the envelope of a device moves in each tick.
  - `fps_limiter`: subscribers, their ticks, and what is sent to them.
  - `replay`: playing recorded times back.
  - `debounce`, `supervisor`, `server`: which devices are watched, when they are read,
    and what raw subscribers are told.
  - `raw_export`: recorded times in wall clock time.
  - `client`, `gamescope`, `decimal`: where limits are passed on to, and how.
  - `bootstrap`: the services that a connection starts from.
- `tests/` runs the library on concrete values.
- `app/` holds the programs around it: the server, the client, the exporter, the replay
  tool and the browser playground. The envelope's level and the limits are floating
  point numbers, so `app/envelope.rs` computes them, from the steps that `ewm` decides.

The programs need two generated pieces of code: the RPC interface that the Cap'n Proto
schema compiler writes, and the client side of gamescope's control protocol.
