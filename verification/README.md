# gazelle_aggregate

A driver that presents several audio interfaces to a DAW as one device, and the calibration that
measures what is left over between them, written in Verus: the rules are stated as contracts and
proved.

## Layout

- `src/` is the verified library.
  - `config` is the configuration file's values and everything that is refused about them.
  - `plan` works out the aggregate from what the drivers report: the master, the channels, their
    names, the buffer sizes, and how far each device is held back so that every path lines up.
  - `aggregate` is the aggregate a DAW opens, over the devices of `devices`: its plan, the
    buffers it makes at the DAW's block, starting and stopping; and the rules it answers by: which
    drivers to open, the channels asked for, and the order devices start and stop in.
  - `ring`, `delay` and `stream` are the audio path: the rings a block crosses between two
    devices' callbacks, the delays that line the devices up, and what every callback does.
  - `phase` measures a follower's capture phase over the digital cable and decides what to do
    with the measurement.
  - `status` is what a session says about itself; `watch` is what a changed configuration does.
  - `registration` is what registering the driver writes, and `guid`, `names` and `text` are the
    small things everything else is said with.
  - `rig`, `trim`, `session` and `run` are the calibration: the cabling, the trim a measurement
    implies, what a run refuses before it drives a converter, and the run itself as the decisions
    between the things it asks of the PC.
- `tests/` runs the library on concrete values.
- `app/` is what stands around the library: the machine's clock, the file on disk, the registry,
  the environment, and the calibration's arithmetic on samples held as floating point.
