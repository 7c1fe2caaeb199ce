# insysin_lib

The back end of a desktop system monitor: it reads the machine (memory, CPUs, processes, disks,
network interfaces, open sockets, the local network and the internet connection), keeps a
history in SQLite and answers a front end over a local WebSocket.

The part that decides and computes is a library verified with Verus (`src/`):

- `texto` — the text primitives the parsers are built from (trim, split, lines, integer
  parsing and printing), each proved equal to a mathematical definition;
- `services::hardware_service` — grouping processes by name and keeping the fifteen that use
  the most memory, core layout and classification, disk and network sums, GPU choice;
- `services::memory_service` — reading `vm_stat` output into a memory breakdown;
- `services::history_service` — the history queries, with the sort column taken only from a
  fixed set;
- `commands::network` — reading `lsof` output, connection counts, the processes with the most
  connections, listening services sorted by port, the traffic summary;
- `commands::wifi` — addresses, masks, network ranges and broadcast addresses, and the parsers
  for `ifconfig`, `ip`, `ipconfig`, `arp`, `netstat`, `scutil`, `resolv.conf` and the SSID tools;
- `ws_bridge`, `menu` — which command a request names, which event a menu item sends.

`app/` is the program around it: it runs the system commands, talks to SQLite, the network and
the WebSocket clients, does the floating-point work (CPU shares, temperatures, speeds) and hands
plain values to the library. `tests/` exercises the library on concrete inputs.
