# bms_rs

Computes the events of a BMS chart: where each object stands along the chart, and when the
playhead reaches it.

A chart is a `bms::Bms`: tempos, stops, spacings, scroll speeds, track lengths, notes and the
other objects of a file. `process::BmsProcessor::parse` checks its definitions and gives a
`chart::Chart`, or the first thing that is wrong.

| Module | Holds |
| --- | --- |
| `rounding`, `num` | double-precision numbers on their bit patterns, rounded to the nearest |
| `text` | numbers written as text |
| `time`, `channel`, `event`, `bms`, `chart` | the data |
| `ordered`, `position`, `sorting` | maps in order, lists by position, sorting by position |
| `y_memo` | positions: track lengths, fractions of tracks, spacing |
| `measure` | where tracks start, and how positions grow with time |
| `note`, `events` | the events of the notes and of all other objects, and the measure lines |
| `inventory` | that no sound is lost or doubled |
| `timeline` | the times: tempos and stops, on positions without spacing |
| `delay` | what one more stop does to the times |
| `error`, `process` | what makes a chart unplayable, and the way from a file to a chart |
| `base_bpm` | the tempo that scroll speeds are measured against |

Floating-point results are exact: each operation gives the pattern of the number nearest to
the true result, ties going to the even one, and an infinite result is told apart.
`app/` converts numbers and times to those of `strict-num-extended` and `gametime`.
