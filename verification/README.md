# wallpaper_processor

The image processor of a wallpaper daemon, written in Verus.

A request names outputs and something to show on them: an image, an animation, or
the frames that a program writes. The library works out which outputs are meant,
groups those that need the same frames, brings images to the size of the outputs,
and computes the frames of transitions, animations and streams.

- `src/outputs.rs`, `src/groups.rs`: the outputs of a request, and their groups.
- `src/resize.rs`: bringing an image to size, with the `image` crate.
- `src/codec.rs`: the pair of functions that pack and unpack frames.
- `src/transition.rs`: fading from one image to the next.
- `src/animation.rs`: decoding an animation and playing it over and over.
- `src/stream.rs`: the frames of a child process.
- `src/dispatch.rs`: who gets a frame, and when an animation has to end.
- `src/processor.rs`: requests, and the animations that are running.
- `app/`: channels, threads, files and child processes.

The frame codec is a parameter: callers hand in the two functions of it, and what is
proved of the frames holds for every pair. Where a property needs the codec to lose
nothing, the property says so.
