# healthstatus

A terminal dashboard of machine health (CPU, memory, disks, network,
processes, battery, GPU and WSL host details), split in two:

- `src/` is the library, verified with Verus: the parsers of the text that
  `/proc`, `/sys`, `df`, `nvidia-smi`, PowerShell and `netsh` hand over,
  the ranking of processes, the calendar behind WMI dates, JSON and CSV
  escaping, the plain-text page layout, and the live view's key and
  refresh decisions. Each public function states its result exactly over
  spec functions; the proof functions state the laws (escaping reads
  back, a day count has one date, processes have one ranking, and so on).
- `app/` is the program around it: reading files, running commands, the
  terminal user interface (`crossterm`, `ratatui`), and everything that
  computes with floating-point numbers (percentages, rates, sizes).

`tests/` runs the library on concrete inputs.
