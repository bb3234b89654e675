use vstd::prelude::*;

use crate::text::chars_of;

verus! {

/// The extension of the source files read.
pub open spec fn source_ext() -> Seq<char> {
    seq!['.', 'p', 'y']
}

/// Whether `s` names a single source file.
pub open spec fn is_source_file(s: Seq<char>) -> bool {
    s.len() >= 3 && s.skip(s.len() - 3) == source_ext()
}

/// Whether `s` ends with the source-file extension.
pub fn ends_with_source_ext(s: &String) -> (r: bool)
    ensures
        r == is_source_file(s@),
{
    let cs = chars_of(s.as_str());
    let n = cs.len();
    let r = n >= 3 && cs[n - 3] == '.' && cs[n - 2] == 'p' && cs[n - 1] == 'y';
    proof {
        if n >= 3 {
            assert(r == (cs@.skip(n - 3) =~= source_ext()));
        }
    }
    r
}

/// What the command line asks for: a single file or a directory of them, and
/// an optional class to centre the graph on.
pub struct CommandLineConfig {
    pub file_path: Option<String>,
    pub module: Option<String>,
    pub class: Option<String>,
}

impl CommandLineConfig {
    /// Reads the arguments, program name first: a path, then optionally a
    /// class name. A path ending in `.py` is a single file, any other a
    /// directory.
    pub fn new(args: &[String]) -> (r: Self)
        requires
            args.len() == 2 || args.len() == 3,
        ensures
            r.class.deep_view() == if args.len() == 3 { Some(args[2]@) } else { None },
            is_source_file(args[1]@) ==> r.file_path.deep_view() == Some(args[1]@) && r.module is None,
            !is_source_file(args[1]@) ==> r.file_path is None && r.module.deep_view() == Some(args[1]@),
    {
        let class = if args.len() == 3 {
            Some(args[2].clone())
        } else {
            None
        };
        let (file_path, module) = if ends_with_source_ext(&args[1]) {
            (Some(args[1].clone()), None)
        } else {
            (None, Some(args[1].clone()))
        };
        CommandLineConfig { file_path, module, class }
    }
}

/// The texts of the source files found under a directory.
pub struct ReadModule {
    pub files: Vec<String>,
}

impl ReadModule {
    /// A reader that holds no text yet.
    pub fn new() -> (r: Self)
        ensures
            r.files@.len() == 0,
    {
        ReadModule { files: Vec::new() }
    }
}

/// The texts to parse: the single file's text when there is one, else the
/// texts read from the directory.
pub fn extract_file_contents(file_content: Option<String>, module: ReadModule) -> (r: Vec<String>)
    ensures
        r.deep_view() == match file_content {
            Some(c) => seq![c@],
            None => module.files.deep_view(),
        },
{
    match file_content {
        Some(c) => {
            let mut contents: Vec<String> = Vec::new();
            contents.push(c);
            assert(contents.deep_view() =~= seq![contents@[0]@]);
            contents
        },
        None => module.files,
    }
}

} // verus!
