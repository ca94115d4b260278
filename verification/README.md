# tick

Loads the daily archives of aggregate trades of Binance USD-M futures into one
file of JSON rows, `s,a,p,q,f,l,T,m` in this order, one row per trade.

`src/` is the verified library:

| module     | what it holds                                                        |
|------------|----------------------------------------------------------------------|
| `options`  | the command line: options, defaults, settings                        |
| `select`   | which symbols a run is for                                           |
| `index`    | links and symbols in the index page of the archive                   |
| `symbols`  | names of symbols, and sets of them in order                          |
| `calendar` | dates, day numbers, ranges of dates                                  |
| `clock`    | the time of day, and yesterday in UTC                                |
| `archive`  | addresses and names of files                                         |
| `plan`     | the course of a run, from event to next task                         |
| `course`   | what a run as a whole writes, given what the archive holds           |
| `checksum` | the check of a downloaded file                                       |
| `trade`    | trades and the rows they are read from                               |
| `json`     | output rows, and single fields read back from them                   |
| `seen`     | the keys of rows that are there already                              |
| `ingest`   | lines to rows: each key once, no more rows than asked for            |
| `number`   | decimal numerals                                                     |
| `text`     | trimming, splitting, searching and ordering of text                  |

Functions named `law_..` state what holds of the library as a whole. Among them:
a date is found again from its day number; a row determines its trade; each key
is written once; a limited run writes the first rows of an unlimited one; and a
resumed run adds exactly what is missing.

`app/` is the program around it: processes, files and output. `tests/` runs the
library on concrete values.
