# sze_rs

A small CPU frequency daemon for Linux and Android. It watches the CPU load
(`/proc/stat`) and temperature (the CPU's thermal zone under
`/sys/class/thermal`), reads the cpufreq policies under
`/sys/devices/system/cpu/cpufreq/`, and keeps a log.

- `src/` is the library, verified with Verus: the text syntax of the kernel
  files (words, lines, trimming, decimal integers), the load counters and
  their deltas, the load and temperature levels, the policy files and the
  frequency list, and the layout of the log lines.
- `app/` is the program around it: files, directories, the log file, and the
  floating-point load percentage.
- `tests/` runs the library on concrete inputs.
