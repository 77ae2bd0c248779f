# Canopy

A web-like native UI runtime with no JavaScript runtime. A guest builds its interface with op
batches, the host keeps the tree behind opaque handles, and everything the two say to each other
is bytes that either side checks.

The library is written in Verus: every function states what it computes, and the statements are
proved.

## Layout

- `src/` is the verified library: the protocol, the retained tree, the reconciler, styles, layout,
  scenes, events, animation, accessibility and the developer command. The crate documentation in
  `src/lib.rs` goes through the modules.
- `app/` is ordinary Rust around it: the `canopy` command, the C interface, the bridge to the
  Taffy flexbox engine, panels and file watching.
- `tests/` runs the library, with the real outside crates linked.

## What is proved

Beside the contract of each function there are laws, public proof functions whose names begin with
`law_`. The central ones:

- whatever ops a guest sends, the tree stays free of cycles, an op on a handle that the guest was
  never given is refused, and a refused op changes nothing; as long as no live node is created
  again, every listed node is live, is listed once, and records the list's owner (`tree`);
- over the life of an emitter each string is sent once, before its first use (`emitter`);
- ops, events and scenes read back as they were written, and a stream that was cut short is
  refused (`protocol`, `displaylist`, `abi`);
- mounting a description builds that tree on the host, and diffing brings it up to date, whatever
  the next description is: the new tree stands where the old one stood, in order, and every node
  outside is as it was (`mirror`);
- a build that is run again onto the tree it has built changes nothing, so that a reload makes its
  edits and no more (`rebuild`);
- inline styles win over a stylesheet's, only the inherited properties flow down, and styling
  leaves the tree alone (`cascade`);
- a panel paints inside the region it was given and nowhere else, also where that region begins
  outside the frame (`panel`);
- a snapshot has one line for each node, whatever the nodes hold (`snapshot`);
- a repeating tween never finishes, and a finished one stands on its end (`anim`).

## What is taken on trust

The contracts of the outside functions that the library calls: three of std on strings in `text`,
and those of AccessKit in `a11y`. Each says in its comment what it claims.
