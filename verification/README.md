# netmon

A terminal network monitor for Linux, with a verified core.

`src/` is the library: everything the program decides or computes, written in
Verus. `app/` is the program around it: it reads `/proc`, runs `ss`, looks up
names, paints the screen and hands keys to the library.

| Module | What it holds |
| --- | --- |
| `text`, `table` | scanning and writing text; a map kept in a vector |
| `double`, `rounding` | non-negative binary64 numbers with exact rounding, and what rounding keeps |
| `rate` | amounts per second and shares of processor time |
| `procfs`, `ss` | the text files of the kernel and the output of `ss -tunpi` |
| `conns` | connections, their rates, filtering, grouping by process |
| `rank`, `rows` | stable sorting, and the columns rows are sorted by |
| `show` | speeds, times and numbers as people read them |
| `history`, `wave`, `axis` | bounded histories, braille curves and the time axis |
| `layout`, `top`, `panel` | areas of the screen and what stands in them |
| `state`, `keys` | the active interface, sampling, automatic switching, keys and clicks |
| `laws` | what holds of the program as a whole |

Times inside the library are nanoseconds of one monotonic clock, so every
decision is a function of its arguments. Arithmetic on rates is that of binary64
numbers, carried out on integers and proved to round to nearest, ties to even.

What is taken on trust is marked `external_body` or `assume_specification`: how
`ratatui` divides an area and insets a border, `String::push`, and
`char::from_u32`.
