# tw-migrate

Plans the migration of static React, Vue 3 SFC and HTML stylesheet usage to
Tailwind CSS v4 utilities. Supports CSS, SCSS, Sass, Less and CSS Modules.

`src/` is the library, verified with Verus. It reads trees and texts, decides
which rules become utilities, and answers with edits, deletions, reports and
warnings. It does no I/O.

- `batch`, `batch_snapshot`, `batch_conflicts`: several stylesheets that share
  files and one Tailwind entry.
- `planner`, `decisions`, `consumption`, `reports`: one stylesheet.
- `css`, `css_plan`, `request_rules`, `stylesheet`, `css_directives`,
  `animations`, `source_map`, `vue`: stylesheets.
- `js_rewrite`, `js_imports`, `html_rewrite`, `html_live`, `html_attribute`,
  `consumer`: the sources that use them.
- `jsx_extract`, `jsx_graph`, `relationships`: proofs that a selector
  relationship holds for every rendered element. `jsx_outcome`: what holds of
  the outcomes.
- `media`, `media_gate`, `theme`, `arbitrary`, `number`: names and values of
  utilities. `media_scan`, `media_values`, `media_keys`: that the key of a media
  condition is canonical.
- `source_analysis`, `syntax`, `tree`: scripts and their trees.
- `edit`, `text`, `names`, `position`, `path`, `order`: shared building blocks.
- `snapshots`, `staging`: documents of end-to-end cases.

The parser of stylesheets and Tailwind's own answers are handed in as tables
(`Knowledge`). Where planning needs the tree of a text that it was not given, it
stops with that text, and the caller tries again with one more entry.

`relationships` and `jsx_graph` prove selector relationships of rules, but no
rule that `css_plan` reads carries one: a CSS Module selector that relates two
classes has no key and stays with a warning. The width bounds of media
conditions come from the caller too (`Utilities::bounds`), by the keys that
`media` writes.

What is promised of the library as a whole stands in `src/` as public proof
functions, next to what they speak of: applying edits and tracing offsets back
(`edit`), that a rule is deleted only where no reference to it is left
(`reports`), that a rule that stays is explained by a warning (`reports`), that
a deleted CSS Module is unused (`planner`), that a path is never both written
and deleted (`batch`), that a rule that goes exposes no retained one (`shadow`),
that a second run adds nothing to class lists and templates (`js_rewrite`),
that a proven child is a proven descendant (`jsx_outcome`), that reading the key
of a media condition again changes nothing (`media_keys`), and others.

`app/` holds the JSON entry points and the snapshot harness, in ordinary Rust.
`tests/` runs the library.
