# Kotha

Offline dictation for the way Bangladeshis actually talk: Bangla in Bengali script, English in Latin
script. The library under `src/` is verified with Verus; `app/` is ordinary Rust around it.

| Module | What it holds |
|---|---|
| `segment`, `intake`, `chunks` | cutting a stream of audio into utterances without losing a sample |
| `mel`, `capture` | windows for the spectrogram, what to ask of the microphone, the level meter |
| `transcript` | repetition loops, fused words, the transcript of an utterance |
| `correct`, `dictionary`, `distance` | the spelling corrector, which never touches Bengali |
| `text`, `number`, `unicode` | words, whitespace, decimal numbers, character classes |
| `output` | the clipboard as it is borrowed and returned, the paste chord, the routes to a keyboard |
| `session` | one dictation from the microphone to the last word, and the worker around it |
| `settings`, `tray` | the settings file, the tray menu, rebinding the hotkey |
| `manifest`, `download`, `checksum` | what the model's manifest asks for, fetching and verifying it |
| `pill`, `wav` | where the pill stands, and what an audio file holds |

A contract speaks of mathematical values: a text is a sequence of characters, a recording a sequence
of frames. Proof functions whose names begin with `law_` state what holds across functions. What is
believed without proof is std's Unicode tables and `String::push`, `serde_json`, `global-hotkey`,
`hound` and `sha2`; each such item says what is claimed of it.
