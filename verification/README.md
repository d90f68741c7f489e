# ephmem

Bookkeeping for ephemeral memory: consumer VMs receive memory that donor VMs
do not use, as dynamic capacity of an emulated CXL device, and donors can take
it back.

`src/` is the verified library (Verus):

- `allocation` — the donation granularity and the allocation record.
- `consumer` — a consumer's device: reserving a range for a request (first gap
  that fits, else the first largest gap), releasing and shrinking ranges;
  consumer commands and connection lines; the consumer's CID from its socket
  name; the search for its dynamic-capacity device.
- `donor` — donatable regions: lending, booking a donor's grant (paying off
  revoked memory first, then keeping whole 256 MiB granules and giving the
  rest straight back), taking memory back.
- `path` — socket paths compared and ordered by their components, as
  `std::path::Path` compares them, and their file names and stems.
- `vm_list` — all VMs by QMP socket path: registering and forgetting VMs,
  choosing the next donor in path order, the steps of serving a request and
  of undoing one, one vsock connection per consumer.
- `search` — what a whole donor search, round after round, does to the
  donors' counts.
- `qmp`, `qmp_types` — sorting and checking QEMU monitor messages and the
  steps of the monitor's read loop; memory backends and their donatable
  regions.
- `text` — string helpers the above are proved with (decimal numbers,
  dictionary order, substrings, white space).
- `experiment` — the computations of the experiment runner (sed scripts,
  balloon polling intervals and guest sizes, authorized SSH keys, VM
  addresses).

`app/` is the program around it: the QMP and vsock connections, the socket
directory watch, the threads, and the experiment runner's SSH sessions.
