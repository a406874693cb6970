# austral_cranelift_bridge

The module host of the Austral/unfer kernel: it decodes compiled CPS modules and
lowers them to Cranelift instructions, authorizes kernel calls against module
manifests, Cedar policies and threshold-signed delegation certificates, keeps
the registry of loaded modules and instances, and guards the capability
loopback through which ECMAScript modules (run in workerd sidecars) reach the
kernel.

## Layout

- `src/` is the library, verified with Verus:
  - `cps`, `cps_decode`: the CPS byte format and its decoder;
  - `codegen`: the lowering of a decoded function to a plan of Cranelift
    builder calls, and the proof that every plan it produces is well formed;
  - `auth`, `policy`, `arctic`, `engines`: the authorization engines, their
    registry, and the loading of manifests into it;
  - `module`: manifests, the swap rule, and the module and instance registry;
  - `ecma`: egress matching, the loopback's request parsing and call gates, the
    generated workerd configuration;
  - `jit`, `symbols`, `arith`, `sandbox`, `federation`, `tidepool_mod`, `text`:
    the smaller pieces the host needs.
- `tests/` runs the library on concrete inputs.
- `app/` is the unverified host around it: the C ABI, the JIT itself, process
  spawning and supervision, sockets, the OS sandbox, and the `modhost` command.
