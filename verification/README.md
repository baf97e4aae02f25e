# aria

The verified core of Aria, an application that makes songs with a local
music model. `src/` is a Verus library holding the logic: the PNG and zlib
encoders, WAV and MP3 cutting, the engine's multipart replies and job
states, the supervisor's recovery decisions, model tiers and downloads,
lyric cleaning and model choice, export naming and playlists, and the
loopback audio server's routing and byte ranges. Each public function
states its result in its contract, and the laws that span functions are
proved as public proof functions.

`app/` is the program around it: the command line, the engine process,
HTTP, the SQLite index, files, ffmpeg, and the floating-point cover art
and lyric scoring. `tests/` runs the library on concrete inputs.
