# forgedrive

A small web file manager: users log in, browse, download, upload and delete
files below their own root directory, and admins manage the users.

The decisions of the server are a library verified with Verus (`src/`):

- `path_model`, `path_utils`: the lexical model of Unix paths and the
  resolution of a requested path below a user's root, with the proof that a
  resolved path stays under the root and is canonical.
- `auth`: the session user and the session cookie (decimal user ids, with
  the proof that a cookie reads back as the id it was written for).
- `listing`, `sorting`, `size`: breadcrumbs, parent directories, listing
  entries, upload names and targets, download headers, the listing order and
  the unit a size is shown in.
- `handlers`: permissions, refusals and their status codes and messages,
  login, user creation and deletion rules.
- `password`: bcrypt, reached through two trusted wrappers.

`app/` is the HTTP server around it (axum, SQLite through sqlx, askama
templates, tokio file I/O).  It expects the askama templates under
`templates/` and the SQL migrations under `migrations/`.
