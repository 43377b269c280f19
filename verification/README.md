# cat_trim

Finds the security catalogs (`.cat`) of an offline Windows image that list the hash of no
executable and no `.inf` file in the image, and moves or deletes them.

The library under `src/` is verified with Verus:

- `asn1`, `catalog`, `catalog_laws`: reading ASN.1 values, and which digests a catalog lists;
- `digest`, `digest_set`: SHA-1 and SHA-256 digests and sets of them;
- `hashing`, `pe`: the hashes of a file, and the Authenticode hashes of an executable, from the
  parts of the file that are asked for one after the other;
- `path`, `order`, `sort`: paths, their order, and sorting;
- `report`, `report_laws`: what the catalogs and the files of an image come to;
- `scan`, `scan_laws`: scanning an image, step by step and all at once;
- `operations`, `output`, `text`: moving and deleting, and what is printed;
- `cli`: the command line.

`app/` is the program around it: it walks the image, reads the files on several threads, and
prints. `tests/` runs the library on concrete values.
