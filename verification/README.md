# freeocd

A command-line debugger for ARM Cortex-M microcontrollers over CMSIS-DAP, split in two: a library
whose contracts Verus proves, and a thin program around it that does the input and output.

- `src/` is the library. It decides everything that the debugger does.
- `app/` is the program: the command line (clap), the embedded target definitions (serde), the debug
  probe (probe-rs), the progress bars (indicatif) and the RTT terminal.
- `tests/` runs the library against scripted devices.

## How the contracts speak of a device

A device is free to answer as it likes, and nothing is assumed of it. A connection (`dap::io::DapIo`)
has a ghost log, to which each operation adds itself and its answer. What an operation of the library
does is stated as a function of that log (`dap::run`): it walks over the events that the operation
consists of, and says what was returned, what was reported, and where the events end. So a
contract covers every behaviour of a device, failures included.

`dap::memory` adds a model of a device that keeps what is written to it. With it the laws say what
operations mean: a programmed image verifies, a verified image is in memory, a payload that RTT
takes is appended to what is pending.

## Modules

| Module | Contents |
| --- | --- |
| `text`, `util` | white space, integers in digits, numbers as users write them |
| `hex` | Intel HEX records, and the image that they make up |
| `json` | JSON documents, as `serde_json` reads them |
| `targets` | target definitions, the list of targets, the list of probe vendors |
| `dap` | probe selection, retries, sessions and their logs, the memory model |
| `platform` | progress and warnings, the handler contract, and the Nordic handler: recover, flash, verify, reset |
| `rtt` | SEGGER RTT: the scan for the control block, ring buffers |
| `cli`, `ops` | what the command line asks for, and what each subcommand does |
| `error` | what can go wrong, and what is said of it |

Proof functions named `law_...` state what holds of the library as a whole.

## What is not proved

The contracts of these items are taken as they are stated: reading HEX records (`ihex`), reading and
inspecting JSON documents (`serde_json`), reading a probe selector (`probe-rs`), and sorting (the
standard library). `DapIo` and `ProgressFn` are for users to implement: that an operation adds itself,
and nothing else, to the log is what the library asks of an implementation.
