# handoff

The deciding half of handing a local agent conversation off to a cloud agent, verified with Verus.

- `conversation`, `extraction`, `extraction_laws`: the paths that a conversation touched, from its
  500 most recent tool calls and the working directories of its exchanges.
- `paths`, `path_list`: paths as text by the Unix rules, their components, parents and joins, and
  lists in which no path occurs twice.
- `disk`, `git_root`, `workspace`: the git working trees and loose files that the paths belong to.
- `git`, `github`: what is asked of git, and the repository that a remote URL names.
- `environments`: the cloud environment that holds the most of the touched repositories.
- `orchestrator`: what is uploaded, and what the cloud agent is started with.
- `text`: trimming, prefixes and suffixes.

`app/` runs git and drives the upload.

Three questions go to the file system (is it a directory, is it a regular file, is there anything).
Nothing is assumed of the answers; contracts say what follows from the answers that were given.
