# rove

The logic of Rove, a dual-pane file explorer, as a Verus library. The functions in
`src/` carry contracts that Verus proves; the few that call into std or the `image`
crate (marked `#[verifier::external_body]`) are trusted, and their doc comments say
what is assumed of them.

- `size`, `base64`, `text`: file sizes for display ("1.5 KB"), base64, decimal text.
- `paths`, `copies`: file names, extensions and stems; the names that copies get
  ("a - Copy.txt", "a - Copy (2).txt", ...): a search that asks the file system about
  each candidate in turn and takes the first free one.
- `order`, `entries`, `drives`: directory listings (folders first, then by
  lower-cased name, stable), hidden entries, the drive list.
- `fsplan`, `paste`: plans of file operations for pasting, copying and merging
  folders, source by source, and the conflicts a merge meets; a copy paste never
  removes anything, and a cut removes a file only right after copying it.
- `fsmodel`: what those plans do to the files of a file system: a copy or merge gives
  each transferred file its source's contents and changes nothing else, a cut removes
  exactly the files it moved, and a merge stopped anywhere loses no file.
- `tree`: folder statistics over a whole folder tree, sub-folders largest first at
  every level, and the steps of the walk that reads it (cancelled, it stops).
- `watch`: the set of watched folders and the folders to refresh on a change.
- `clipboard`, `win_clipboard`: the in-app clipboard, and the Windows file-list and
  drop-effect formats (wide or narrow lists), which read back what was written.
- `rename`, `icons`: accepted new names; icon pixels, PNG `data:` URLs and their cache.

`app/` holds the shell around the library: file-system and OS access, the
watcher, the background scan, and the JSON shapes sent to the front end.
`tests/` runs the library on concrete cases.
