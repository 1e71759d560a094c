# check_av1_encode

Finds, for each clip cut out of a video, the AV1 CRF at which its
SSIMULACRA2 score is 90, then encodes the whole video at the smallest (or the
average) of those CRFs.

- `src/` is the library, verified with Verus: the encoder settings and the
  command lines of the tools (`settings`), the splitting of a command line into
  process arguments (`args`), the cutting of the video into clips (`clips`),
  the reading of the tools' output (`ssim2`, `decimal`), the configuration file
  (`paths`), and the CRF search and summaries (`crf`), on top of character-level
  text helpers (`text`).
- `app/` is the command-line program around it: argument parsing, the file
  system, starting the tools, and running the clips in parallel.

The tools' paths are read from `paths.json` in the working directory, with the
keys `av1an`, `ssim2`, `arch`, `ffmpeg`, `ffprobe` and `encoding_settings`; the
encoding settings use the placeholders `INPUT`, `SPEED`, `CRF`, `WORKER_NUM`
and `OUTPUT`.
