# zed-workspace-dock

`zwd` opens multi-project Zed sessions from `.code-workspace` files, either
by handing the folders to Zed or by building a *dock*: a cache directory
holding one symlink per folder and a lock file that records who owns it.

The rules of the tool live in a library verified with Verus (`src/`):

- `paths`: a model of Unix paths held as text (components, joining, file
  names, extensions, parents, component-wise equality).
- `workspace`: workspace files, link and workspace names, folder
  resolution, registered workspaces, generated names.
- `dock`: dock names and roots, slugs, lock checking, removal and
  reconciliation plans, with laws on ownership and convergence.
- `edit`: adding folders to and removing folders from a workspace, and the
  steps that write the edited file and keep its dock in line.
- `install`: where Zed's tasks live, the bundled task templates, and how
  they are made ready and merged.
- `lifecycle`: the steps of deleting a workspace.
- `encoding`, `order`, `text`, `error`: helpers and the error type.

`app/` is the command line around it: argument handling, the file system,
JSON documents, and launching Zed. `tests/` exercise the library.
