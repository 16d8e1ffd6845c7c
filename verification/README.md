# pot2dict

Turns hashcat/john `.pot` files and plain wordlists into a deduplicated, optionally
frequency-sorted password dictionary. Input sets may be much larger than memory: counting and
sorting each have a memory budget, spill sorted runs to disk beyond it, and merge the runs when the
dictionary is written.

* `src/` is the library, written in Verus. Every function states what it computes and is proved to
  do so; functions of other crates that it calls are declared with the facts it relies on.
* `app/` is the program around it: the command line, files and mappings, threads and progress bars.
* `tests/` runs the library on concrete inputs.

## What is proved

Passwords do not depend on how the input is cut into chunks and batches. No count is lost when
counts are spilled. Runs read back as they were written. Merging runs, in groups first or all at
once, adds up the counts of equal passwords and gives them in order. Sorting in chunks gives what
sorting in memory gives. So the dictionary made from spilled runs is, byte for byte, the one made in
memory: every password of the input once, in alphabetical order, or with the most common first.

Counts are kept modulo 2^64. A run stores the length of a password in 32 bits, so the statements on
runs are for passwords shorter than 4 GiB; the order by frequency is for counts below 2^63.

## Input format

Each line is a plain password, or a pot-style `hash:password` line. The password is what follows the
last `:`. Lines that end in a bare `:` are skipped, unless `--keep-trailing-colon` makes them
passwords themselves.
