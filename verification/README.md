# envtools

Tools to read, set and extend environment variables of the current process,
the user and the system: `add2path` adds a directory to `PATH`, `catenv`
prints a variable, `putenv` sets one.

The decisions are a Verus-verified library under `src/`:

- `path_list`: normalising a directory and adding it to a `PATH` list unless
  an entry already equals it (ignoring ASCII case);
- `env_file`: reading and rewriting assignments in the text of
  `/etc/environment`, with the proof that a value written is read back;
- `add_to_path`: what the process, user or system store holds after adding a
  directory to its `PATH`;
- `win_string`: the UTF-16 bytes of a registry string;
- `text`: the string operations these rely on, specified over `Seq<char>`.

`app/` holds the executable: argument parsing, the file, registry and process
environment access, and the dispatch between the three programs by the name
the executable is started under.
