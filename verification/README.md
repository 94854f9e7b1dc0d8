# Windows telemetry

A Windows desktop telemetry program with two front ends: a window with the
curves of the last 60 seconds, and a page of cards. Both share the sampling,
the data model and the choice of devices.

- `src/` is the verified library: what the readings of the system mean, how
  samples are made of them, what the history keeps, and what the front ends
  show and do. It makes no system call. `src/lib.rs` says what each module is for.
- `app/` is the program around it: the Win32 calls, the sampling thread, the
  drawing of the window (`windows-canvas`, `windows-window`) and of the page
  (`windows-reactor`). The modules of the two front ends are compiled on
  Windows only, as are the crates that they use. The page runs if the
  executable is named `telemetry-reactor`, the window under any other name.
- `tests/` runs the library; the number tests compare its arithmetic and its
  decimal forms with those of the machine.

## Options

```text
--list-network          lists the network interfaces
--list-disks            lists the NVMe disks
--interface NAME        chooses a physical WLAN interface
--disk PATH             chooses an NVMe disk, such as \\.\PhysicalDrive0
--help                  shows the help
```

Of each kind of device, the only candidate is chosen by itself. Where there is
none, or more than one, or the enumeration fails, the other readings are still
shown. A device that was asked for and is not there is an error.
