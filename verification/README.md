# overlay_music

Planning background music for spoken audio, verified with [Verus](https://github.com/verus-lang/verus).

A directory of audiobook or podcast files is normalized (EBU R128, two passes), mixed with
background music that plays on seamlessly from file to file, and encoded. ffmpeg and ffprobe do
the audio work; this library decides what they are called with and what follows from what they
report. Every decision has a contract that Verus proves.

| Module | What it decides |
| --- | --- |
| `plan`, `plan_laws` | which piece of which music track plays when |
| `ffmpeg`, `ffmpeg_laws`, `stderr` | how ffmpeg is called, and what its output says |
| `pipeline`, `pipeline_laws` | what is done next with each file |
| `music_norm` | which music is normalized, and where to |
| `cli`, `cli_laws`, `assembly` | settings, items, outputs, and how the work is shared |
| `cache`, `chapters`, `json` | what ffprobe found, and what need not be asked again |
| `discovery`, `images`, `cover` | which files are audio or images, and covers |
| `path`, `path_laws`, `number`, `number_laws`, `text`, `order`, `time` | paths, numbers, texts, orders, dates |
| `log`, `progress`, `limits` | what is reported |

Times are whole microseconds, factors whole millionths, and a loudness has eighteen digits behind
the point; all arithmetic is on integers. Paths are text with `/` between components.

`app/` is the command line program around the library: it parses arguments, walks directories,
runs the tools, and draws progress bars. `tests/` runs the library on concrete values.
