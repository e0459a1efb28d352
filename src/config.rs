//! The configuration of a run, and the naming of output files.
use vstd::prelude::*;
use crate::grammar::{chars_of, QueryLanguage};

verus! {

/// The suffix that marks a template when none is given.
pub const DEFAULT_EXTENSION: &'static str = ".template";

/// What a run works on: the directory to scan, the suffix of template
/// files, and the replacers in the order they run.
#[derive(Debug)]
pub struct Config {
    pub extension: String,
    pub dir: String,
    pub replacers: Vec<QueryLanguage>,
}

/// `name` ends with `suffix`.
pub open spec fn ends_with(name: Seq<char>, suffix: Seq<char>) -> bool {
    suffix.len() <= name.len() && name.subrange(name.len() - suffix.len(), name.len() as int)
        == suffix
}

impl Config {
    /// Reads the arguments of a run: the first (after the program's name) is
    /// the directory to scan, `current_dir` if absent; the second is the
    /// template suffix, `.template` if absent. XML tokens are resolved before
    /// JSON tokens.
    pub fn new(args: &[String], current_dir: String) -> (r: Result<Config, &'static str>)
        ensures
            r is Ok,
            r matches Ok(c) && ({
                &&& c.dir@ == if args@.len() > 1 {
                    args@[1]@
                } else {
                    current_dir@
                }
                &&& c.extension@ == if args@.len() > 2 {
                    args@[2]@
                } else {
                    DEFAULT_EXTENSION@
                }
                &&& c.replacers@ == seq![QueryLanguage::XPath, QueryLanguage::JsonPath]
            }),
    {
        let dir = if args.len() > 1 {
            args[1].clone()
        } else {
            current_dir
        };
        let extension = if args.len() > 2 {
            args[2].clone()
        } else {
            String::from_str(DEFAULT_EXTENSION)
        };
        let replacers = vec![QueryLanguage::XPath, QueryLanguage::JsonPath];
        Ok(Config { extension, dir, replacers })
    }

    /// The name of the file that a template named `file_name` is expanded
    /// into: `file_name` without the suffix, where it ends with the suffix.
    pub fn output_name(&self, file_name: &str) -> (r: Option<String>)
        ensures
            r is Some <==> ends_with(file_name@, self.extension@),
            r matches Some(out) ==> out@ == file_name@.subrange(
                0,
                file_name@.len() - self.extension@.len(),
            ),
    {
        let name = chars_of(file_name);
        let ext = chars_of(self.extension.as_str());
        let n = name.len();
        let m = ext.len();
        if m > n {
            return None;
        }
        let base = n - m;
        let mut k: usize = 0;
        while k < m
            invariant
                name@ == file_name@,
                ext@ == self.extension@,
                n == name@.len(),
                m == ext@.len(),
                base == n - m,
                k <= m,
                forall|j: int| 0 <= j < k ==> name@[base + j] == ext@[j],
            decreases m - k,
        {
            if name[base + k] != ext[k] {
                proof {
                    assert(file_name@.subrange(base as int, n as int)[k as int] != self.extension@[k as int]);
                }
                return None;
            }
            k = k + 1;
        }
        assert(file_name@.subrange(base as int, n as int) =~= self.extension@);
        Some(String::from_str(file_name.substring_char(0, base)))
    }
}

} // verus!
