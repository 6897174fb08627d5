# ssh_tui_rs

A keyboard-first browser for OpenSSH configuration, written in Verus.

The library (`src/`) reads a configuration line by line into hosts and
groups, builds the foldable, sorted host tree, searches it, keeps the
browser's state (selection, scrolling, reachability, the embedded session)
and decides what every key and mouse event does. Each public function
states its result in its contract; the laws that span several operations
are proved in `visibility.rs` (folding, searching, revealing, selection),
`tree_laws.rs` (where groups and hosts end up in the tree), `scan_laws.rs`
(what reading a configuration keeps, which hosts a `Host` line lists),
`host_options.rs` (host patterns) and `console.rs` (double clicks, the
error summary, the captured error stream).

The program (`app/`) reads the files, runs the terminal with ratatui and
crossterm, probes hosts on worker threads, and runs `ssh`, either in the
terminal or inside the details pane.
