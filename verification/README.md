# strata

Git code archaeology: strata samples the history of a repository, blames every
file of every sampled commit, and writes how the lines are spread over the
quarters or years in which they were written and over their authors. A web
frontend shows the result as a chart.

The library is written in Verus. What its functions return is stated in their
contracts and proved; what the chart as a whole promises is stated in the
functions named `law_*`.

| Module | What it holds |
|--------|---------------|
| `text`, `sort`, `fx`, `sealed` | strings, stable sorting, hash tables and their keys |
| `types` | the data that goes from step to step |
| `repo`, `ssh` | where a repository comes from, and with which credentials |
| `history`, `sample` | the commits of the project, and those to look at |
| `tree`, `globs`, `files` | the files of a commit, and those that count |
| `blame`, `cache`, `period`, `tally` | the lines of a blob by period and author |
| `aggregate`, `authors`, `series`, `snapshot` | the lines of each commit, and the chart |
| `tags` | version tags and how far they stand out |
| `output`, `serve`, `profile` | what is written, what is served, and the profile of a run |

`app/` is the program around the library: the command line, git, the file
system, the cache on disk, the thread pool and the web server. It reads the
frontend from `web/`.

Calls into other crates stand behind small functions whose doc comments say what
is taken for granted of them: `chrono` in `period`, `regex` in `tags`, `globset`
in `globs`, `bincode` in `cache`, `serde_json` in `output`, and the tables of
`rustc-hash` in `fx`.
