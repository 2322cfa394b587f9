# fastwc

Newline, word, character and byte counts and the longest line of a text, as
`wc` prints them.

`src/` is a library whose behaviour is stated in contracts and proved with
Verus. `app/` is the program around it: it reads the command line, the files
and standard input, and prints.

| module | what it holds |
|---|---|
| `text` | what a text is: its characters and stray bytes, and the counts of them |
| `ws` | white space, the decoder, display widths |
| `bits`, `simd` | the counting kernel on lanes of 32 bytes |
| `simd_scalar` | the same kernel byte by byte |
| `count` | counts, and the reader that measures columns |
| `parallel` | counting in chunks across threads |
| `stream` | counting a text that arrives in pieces |
| `options` | the command line |
| `names` | lists of file names |
| `strings`, `report` | numbers, names, widths and rows |
| `session` | a run over all inputs |
| `help` | the help page and the version line |
| `laws` | what holds of all this as a whole |

The contracts that are taken on trust belong to `rayon` (threads), `clihelp`
(the layout of the help page) and three functions of the standard library
(`String::push`, `String::from_utf8_lossy`, `u32::count_ones`).
