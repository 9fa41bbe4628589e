# Whisper Relay

Full-meeting and live transcription with local audio capture and a remote
transcription backend, with its logic verified by Verus.

- `src/` is the library: the messages between client and server, the session on
  either side, WAVE files, voice activity detection and chunking, transcripts,
  configuration, tokens, audio streams, recording and the terminal. Everything in
  it has a contract that Verus proves. Calls into other crates and into parts of
  the standard library that have no specification stand behind small functions
  whose doc comments say what is taken for granted.
- `app/` holds the two programs around the library: files, sockets, processes,
  the terminal, and the forms in which messages and files are serialized.
- `tests/` runs the library on concrete values.

## How a meeting becomes a transcript

1. The client records the selected streams. When streams appear, disappear or are
   toggled it begins a new segment (`meeting`); at the end it merges all segments
   into one WAVE file (`wav`).
2. It sends the file in frames of 64 KiB (`client`, `exchange`). The server collects them up
   to its limit (`session`).
3. The server decides how the recording is transcribed (`request`): with speaker
   labels as a whole, otherwise in chunks of speech (`vad`, `chunking`), each a
   WAVE file of its own.
4. It brings the answers into one form, puts their times on the timeline of the
   recording, sorts them and takes out what overlapping chunks repeat
   (`transcript`).
5. The client writes every piece of the transcript to its Markdown file and to its
   list of events (`client`, `time`).

In live mode the client sends chunks as they are captured (`live`), and the server
transcribes each when it comes.
