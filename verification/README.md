# viper

A vim-keybound chiptune step sequencer for the terminal, whose logic is
verified with Verus.

`src/` is the library: songs and the `.vip` text format, pattern generators,
styles, MIDI import and export, reading music back out of a register log,
lowering songs to driver events, the transport, sprite sheets and modulation
expressions, the modal editor and the command line. Every executable function
there has a contract over a mathematical model of its data, and the `law_*`
proof functions state what holds of the library as a whole: a saved song loads
as it was, undoing takes back any change, a folded song plays the same rows.

`app/` is the program around it: the terminal, the audio device and its
floating-point synthesizer, files, and the subcommands.

`tests/` runs the library on concrete songs, files and key presses.

Levels, duties and volumes of instruments are held in thousandths, and sample
waves in millionths, so that the library needs no floating point.
