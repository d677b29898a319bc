# spargel

A small blog engine: posts are text files (title line, date line `Y-m-d H:M`, a
comma-separated tag line such as `:post,:hide,:travel`, then markdown), listed eight to
a page, with an RSS feed, a generated `robots.txt` and an upload area for images.

- `src/` is the library, verified with Verus: reading post files (`helpers`), paging
  and looking up posts (`pagination`), the feed (`feed`), the decisions of the HTTP
  routes (`routes`), character-level text functions (`text`) and the calls into the
  markdown, md5, chrono, slugify, regex and rss crates (`outside`).
- `app/` is the Rocket server around it: configuration, files, the page cache,
  templates and image resizing.
- `tests/` exercises the library on concrete values.
