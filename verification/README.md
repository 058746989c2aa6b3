# changesets

Changes to packages, recorded as Markdown files with a front matter of
`package: change type` lines, and bundled into releases.

- `src/text.rs`: white space, trimming, line splitting and joining, and the
  order of strings, stated over `Seq<char>`.
- `src/versioning.rs`: change types and the versioning of a change (sorted by
  package name, never empty).
- `src/change.rs`: unique ids, the change file format (reading and writing),
  and the law that a written change reads back as itself.
- `src/changeset.rs`: grouping changes into one release per package.
- `app/lib.rs`: reading and writing change files on disk.
