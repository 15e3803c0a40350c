# galahad2lcd

Driver for the LCD panel of the Lian Li Galahad II cooler: it transcodes a
video or GIF to a 480x480 H.264 stream and plays it to the panel over USB,
in a loop, as a system service.

- `src/` is the verified library (Verus): USB packet framing (`usb`),
  repacking and rotation of decoded pictures (`picture`, `rotation`), the
  transcoding decisions and encoder options (`encode`), the choice of the
  video packets (`demux`), the streaming loop's decisions (`playback`), the
  search for the panel on the bus (`device`), and the service configuration
  line (`config`, `text`).
- `app/` is the command-line program around it: argument parsing, FFmpeg
  decoding and encoding, USB transfers, signals, files and `systemctl`.
- `tests/` exercises the library on concrete values.
