# ddnsfw

Keeps a dedicated iptables chain in step with hosts whose addresses change. Each configured port is
open to the addresses of its hosts and blocked for everyone else; ports that are not configured are
not affected.

- `src/` is the library, verified with Verus. It holds no input or output: a run is a state machine
  (`sync.rs`) that asks for commands, files and names and is handed what came of them.
- `app/` is the program around it: it runs `iptables` and `systemctl`, reads and writes files, asks
  for names over HTTPS and talks to the terminal.
- `tests/` runs the library against a small machine made of plain values.

| Module | What it holds |
|--------|---------------|
| `text`, `text_facts`, `lists`, `addr` | Texts, lists without repetition, addresses and rules in their notations |
| `config`, `cache`, `chain`, `dns` | The configuration file, the cache file, listings of chains, responses to questions for addresses |
| `command` | The arguments of the commands |
| `plan`, `plan_laws` | What a run decides to add, block and delete, and what these decisions guarantee |
| `run`, `sync` | The course of a run, and the code that follows it |
| `firewall` | The chain and `INPUT` in the kernel: how commands change them, what they let through, how they are listed |
| `progress` | Every run keeps to its limits and ends |
| `safety` | Whatever fails, no run blocks a configured port for everyone, and no rule for a configured port is removed, from the chain or from `INPUT`, unless the chain goes on admitting somebody to the port |
| `convergence` | When nothing fails, the chain ends up as it is to be |
| `idempotence` | A second run with the same addresses leaves everything alone |
| `recovery` | An interrupted run is taken up again from the cache file |
| `system`, `setup`, `install` | Paths and modes, the lock, the dialogue, the installation |
