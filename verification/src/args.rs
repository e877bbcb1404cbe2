//! The command-line surface: one option naming the configuration file.

use vstd::prelude::*;

verus! {

/// The command-line arguments. The one option is the configuration
/// file's path, given as `-c <path>` or `--config-path <path>`.
pub struct Args {
    pub config_path: Option<String>,
}

/// Whether an argument spells the configuration-path option.
pub open spec fn is_path_flag(a: Seq<char>) -> bool {
    a == "-c"@ || a == "--config-path"@
}

/// `second` where it holds a path, else `first`.
pub open spec fn later_or(first: Option<Seq<char>>, second: Option<Seq<char>>) -> Option<
    Seq<char>,
> {
    match second {
        Some(p) => Some(p),
        None => first,
    }
}

/// The configuration path a raw argument list carries: each occurrence
/// of the option takes the argument after it as its value, the last
/// occurrence wins, an occurrence at the very end (with nothing after
/// it) is ignored, and so is every unrelated argument.
pub open spec fn config_path_of(argv: Seq<Seq<char>>) -> Option<Seq<char>>
    decreases argv.len(),
{
    if argv.len() == 0 {
        None
    } else if is_path_flag(argv[0]) && argv.len() >= 2 {
        later_or(Some(argv[1]), config_path_of(argv.skip(2)))
    } else {
        config_path_of(argv.skip(1))
    }
}

/// The view of an optionally held path.
pub open spec fn opt_view(o: Option<String>) -> Option<Seq<char>> {
    match o {
        Some(s) => Some(s@),
        None => None,
    }
}

fn is_path_flag_exec(a: &String) -> (r: bool)
    ensures
        r == is_path_flag(a@),
{
    let c = "-c".to_owned();
    let l = "--config-path".to_owned();
    *a == c || *a == l
}

impl Args {
    /// Reads the configuration path out of the raw argument list, given
    /// without the program's own leading name.
    pub fn get_args(argv: &Vec<String>) -> (r: Args)
        ensures
            opt_view(r.config_path) == config_path_of(argv.deep_view()),
    {
        let ghost whole: Seq<Seq<char>> = argv.deep_view();
        proof {
            assert(whole.skip(0) =~= whole);
        }
        let mut result: Option<String> = None;
        let mut i: usize = 0;
        while i < argv.len()
            invariant
                i <= argv.len(),
                whole == argv.deep_view(),
                whole.len() == argv.len(),
                later_or(opt_view(result), config_path_of(whole.skip(i as int))) == config_path_of(
                    whole,
                ),
            decreases argv.len() - i,
        {
            let ghost rest = whole.skip(i as int);
            proof {
                assert(rest[0] == whole[i as int]);
                assert(whole[i as int] == argv[i as int]@);
            }
            if is_path_flag_exec(&argv[i]) && i + 1 < argv.len() {
                proof {
                    assert(rest.len() >= 2);
                    assert(rest[1] == whole[i + 1]);
                    assert(rest.skip(2) =~= whole.skip(i + 2));
                }
                result = Some(argv[i + 1].clone());
                i = i + 2;
            } else {
                proof {
                    assert(rest.skip(1) =~= whole.skip(i + 1));
                }
                i = i + 1;
            }
        }
        proof {
            assert(whole.skip(argv.len() as int).len() == 0);
        }
        Args { config_path: result }
    }
}

} // verus!
