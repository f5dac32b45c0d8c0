use crate::text::{chars_of, is_empty_text, owned};
use vstd::prelude::*;

verus! {

/// What the command line asks for: whether to remove metadata (or read
/// it), the file to read and where to write the result of a removal.
#[derive(Debug, PartialEq, Eq)]
pub struct Options {
    pub delete: bool,
    pub destination: Option<String>,
    pub source: String,
}

/// The state of reading the command line: removing metadata (`-d`),
/// replacing the file (`-r`), options still read (before `--`), the file
/// and the destination (`-o`) met so far.
pub struct Reading {
    pub delete: bool,
    pub replace: bool,
    pub options: bool,
    pub source: Option<Seq<char>>,
    pub destination: Option<Seq<char>>,
}

/// An argument that reads as an option: one that starts with a dash.
pub open spec fn dashed(a: Seq<char>) -> bool {
    a.len() > 0 && a[0] == '-'
}

/// Reading the arguments from the `i`-th on in state `s`: the state at
/// their end, or `Err` for an argument that is not accepted.
pub open spec fn read_arguments(args: Seq<Seq<char>>, i: int, s: Reading) -> Result<Reading, ()>
    decreases args.len() - i,
{
    if i >= args.len() || i < 0 {
        Ok(s)
    } else {
        let a = args[i];
        if a == "-d"@ {
            read_arguments(args, i + 1, Reading { delete: true, ..s })
        } else if a == "-r"@ && s.delete {
            read_arguments(args, i + 1, Reading { replace: true, ..s })
        } else if a == "-o"@ && s.delete {
            if i + 1 < args.len() && args[i + 1].len() > 0 {
                read_arguments(args, i + 2, Reading { destination: Some(args[i + 1]), ..s })
            } else {
                Err(())
            }
        } else if a == "--"@ {
            read_arguments(args, i + 1, Reading { options: false, ..s })
        } else if s.options && dashed(a) {
            Err(())
        } else if s.source is None {
            read_arguments(args, i + 1, Reading { source: Some(a), ..s })
        } else {
            Err(())
        }
    }
}

/// What a command line (the program's name first) asks for: the flag that
/// asks for removal, the file, and the destination, which `-r` sets to the
/// file itself; `None` where the command line is not accepted: no file, a
/// second file, an unknown option, `-o` without a name, or both `-o` and
/// `-r`.
pub open spec fn command(args: Seq<Seq<char>>) -> Option<(bool, Seq<char>, Option<Seq<char>>)> {
    let r = read_arguments(args, 1, initial());
    if r is Err {
        None
    } else {
        let s = r->Ok_0;
        if s.source is None || (s.delete && s.replace && s.destination is Some) {
            None
        } else if s.delete && s.replace {
            Some((s.delete, s.source->Some_0, s.source))
        } else {
            Some((s.delete, s.source->Some_0, s.destination))
        }
    }
}

/// The state before any argument is read.
pub open spec fn initial() -> Reading {
    Reading { delete: false, replace: false, options: true, source: None, destination: None }
}

/// An optional text as plain text.
pub open spec fn opt_text(o: Option<String>) -> Option<Seq<char>> {
    match o {
        Some(t) => Some(t@),
        None => None,
    }
}

/// The arguments as plain text.
pub open spec fn texts(arguments: Seq<String>) -> Seq<Seq<char>> {
    arguments.map_values(|a: String| a@)
}

/// Whether a text starts with a dash.
fn starts_with_dash(text: &String) -> (r: bool)
    ensures
        r == dashed(text@),
{
    let chars = chars_of(text.as_str());
    chars.len() > 0 && chars[0] == '-'
}

/// Reads a command line (the program's name first).
pub fn parse(arguments: &Vec<String>) -> (r: Result<Options, ()>)
    ensures
        match command(texts(arguments@)) {
            None => r is Err,
            Some((delete, source, destination)) => r matches Ok(o) && o.delete == delete && o.source@ == source
                && match destination {
                    None => o.destination is None,
                    Some(t) => o.destination matches Some(x) && x@ == t,
                },
        },
{
    let ghost args = texts(arguments@);
    let mut delete = false;
    let mut replace = false;
    let mut options = true;
    let mut source: Option<String> = None;
    let mut destination: Option<String> = None;
    let n = arguments.len();
    let mut i: usize = if n > 0 { 1 } else { 0 };
    let ghost start = initial();
    assert(read_arguments(args, 1, start) == read_arguments(args, i as int, start));
    while i < n
        invariant
            args == texts(arguments@),
            start == initial(),
            n == arguments@.len(),
            i <= n,
            ({
                let s = Reading {
                    delete,
                    replace,
                    options,
                    source: opt_text(source),
                    destination: opt_text(destination),
                };
                read_arguments(args, 1, start) == read_arguments(args, i as int, s)
            }),
        decreases n - i,
    {
        let a = &arguments[i];
        assert(args[i as int] == a@);
        let ghost s = Reading {
            delete,
            replace,
            options,
            source: opt_text(source),
            destination: opt_text(destination),
        };
        if *a == owned("-d") {
            delete = true;
            i += 1;
        } else if *a == owned("-r") && delete {
            replace = true;
            i += 1;
        } else if *a == owned("-o") && delete {
            if i + 1 < n && !is_empty_text(&arguments[i + 1]) {
                assert(args[i + 1] == arguments@[i + 1]@);
                destination = Some(arguments[i + 1].clone());
                i += 2;
            } else {
                return Err(());
            }
        } else if *a == owned("--") {
            options = false;
            i += 1;
        } else if options && starts_with_dash(a) {
            return Err(());
        } else if source.is_none() {
            source = Some(a.clone());
            i += 1;
        } else {
            return Err(());
        }
    }
    match source {
        None => Err(()),
        Some(file) => {
            if delete && replace && destination.is_some() {
                return Err(());
            }
            if delete && replace {
                destination = Some(file.clone());
            }
            Ok(Options { delete, destination, source: file })
        },
    }
}

impl Options {
    /// Reads a command line (the program's name first) into the options it
    /// asks for.
    pub fn parse(arguments: &Vec<String>) -> (r: Result<Options, ()>)
        ensures
            match command(texts(arguments@)) {
                None => r is Err,
                Some((delete, source, destination)) => r matches Ok(o) && o.delete == delete && o.source@ == source
                    && match destination {
                        None => o.destination is None,
                        Some(t) => o.destination matches Some(x) && x@ == t,
                    },
            },
    {
        parse(arguments)
    }
}

} // verus!
