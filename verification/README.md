# wiivci

`wiivci` turns a Wii or GameCube disc image into an installable Wii U Virtual Console package.
The rules that it goes by are a library, `wiivci_core`, written in Verus: every function states
what it returns, and the statement is proved.

## Layout

* `src/` is the library.
  * `input`, `disc_patch`, `video`: what is read of a disc, which hash groups are stored, the
    patches of `main.dol`, and the hash tree above them.
  * `nfs`: the NFS image of a disc: its header, its encrypted sectors and the files that they are
    split into.
  * `package`: how staged files become contents, the file system table, the hash tree and
    encryption of a content, `title.tmd`, `title.tik` and `title.cert`, and how a title is
    extracted again.
  * `meta`, `assets`, `nincfg`, `fwimg`: `app.xml` and `meta.xml`, boot textures, Nintendont's
    configuration, the patches of `fw.img`.
  * `base`, `nus`, `keys`, `cli`, `pipeline`: what is decided about the base title, the update
    server, the keys, the command line and the order of the steps.
* `app/` is the program: the command line, files, disc containers and the network.
* `tests/` runs the library on concrete values.

## What is proved

Functions are exact about their results and their errors. On top of them stand laws, public proof
functions whose names begin with `law_`. The main ones:

* reading an NFS image back gives the sectors of the disc, with the planned patches in them
  (`nfs::read_back`);
* every byte of the boot structures and of the files is stored; what trimming leaves out is zero
  (`input::law_data_is_stored_or_zero`);
* the files of an NFS image, joined, are the stream that was written, however it was cut up
  (`nfs::split::law_files_are_the_stream`);
* a rebuilt hash group passes verification, keeps its data, and depends on its data alone
  (`disc_patch::law_rebuilt_group_verifies`, `disc_patch::law_tree_depends_on_the_data`);
* every staged file stands in the planned contents once, the files of a content follow one
  another, and the contents of the game come last and keep to their size limit
  (`package::placement`, `package::game_contents`);
* the file system table of a plan describes its contents
  (`package::content::law_table_describes_the_contents`);
* the records that are read back from a built package's TMD are true of its files
  (`package::pack::law_built_package_reads_back`);
* extracting a built package gives back the files that it was made of
  (`package::pack::law_built_package_extracts`, `package::round_trip`);
* an extraction reads no content that it does not need, and none but the table's twice
  (`package::extract::law_contents_are_read_once`);
* a parsed file system table is the one that was serialised (`package::fst::law_fst_round_trip`).

## What is taken on trust

Ciphers, digests, PNG decoding, XML parsing and the reading of a disc's file system table are
done by other crates. Each of those calls stands behind one small function whose contract says
what is assumed of it; most name the result without saying what it is. The traits through which
the library reads and writes (`ReadSeek`, `ByteReader`, `ByteWriter`, `FileSource`,
`PackageSink`, `ContentReader`, `ExtractSink`) have contracts too, which the program's own streams
have to keep.
