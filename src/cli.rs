//! The command line: folders, then an optional dataset-layout token.
use vstd::prelude::*;

verus! {

/// The dataset layout a run works on.
#[derive(PartialEq, Eq, Structural, Clone, Copy, Debug)]
pub enum Mode {
    /// One flat folder of images and annotations.
    V4,
    /// Split folders `train`, `valid`, `test`, each with `images/` and `labels/`.
    V8,
}

/// What a command line asks for.
#[derive(Debug)]
pub struct Invocation {
    pub mode: Mode,
    pub folders: Vec<String>,
}

/// Why a command line was refused.
#[derive(PartialEq, Eq, Structural, Clone, Copy, Debug)]
pub enum ArgsError {
    /// Nothing was given.
    NoArguments,
    /// Only a mode token was given.
    NoFolder,
}

/// The mode that a token names: `v4`, `--v4`, `v8` or `--v8`.
pub open spec fn mode_of_token(t: Seq<char>) -> Option<Mode> {
    if t == seq!['v', '4'] || t == seq!['-', '-', 'v', '4'] {
        Some(Mode::V4)
    } else if t == seq!['v', '8'] || t == seq!['-', '-', 'v', '8'] {
        Some(Mode::V8)
    } else {
        None
    }
}

/// The mode that a token names, if it names one.
pub fn mode_token(t: &String) -> (r: Option<Mode>)
    ensures
        r == mode_of_token(t@),
{
    proof {
        reveal_strlit("v4");
        reveal_strlit("--v4");
        reveal_strlit("v8");
        reveal_strlit("--v8");
        assert("v4"@ =~= seq!['v', '4']);
        assert("--v4"@ =~= seq!['-', '-', 'v', '4']);
        assert("v8"@ =~= seq!['v', '8']);
        assert("--v8"@ =~= seq!['-', '-', 'v', '8']);
    }
    if *t == String::from_str("v4") || *t == String::from_str("--v4") {
        Some(Mode::V4)
    } else if *t == String::from_str("v8") || *t == String::from_str("--v8") {
        Some(Mode::V8)
    } else {
        None
    }
}

/// Reads the arguments after the program name: one or more folders, then an optional mode
/// token. Without a token, or where the last argument is no token, the mode is `V4` and every
/// argument is a folder.
pub fn parse_args(args: Vec<String>) -> (r: Result<Invocation, ArgsError>)
    ensures
        args@.len() == 0 ==> r == Err::<Invocation, ArgsError>(ArgsError::NoArguments),
        args@.len() > 0 ==> match mode_of_token(args@.last()@) {
            None => r matches Ok(inv) && inv.mode == Mode::V4 && inv.folders@ == args@,
            Some(m) => if args@.len() == 1 {
                r == Err::<Invocation, ArgsError>(ArgsError::NoFolder)
            } else {
                r matches Ok(inv) && inv.mode == m && inv.folders@ == args@.drop_last()
            },
        },
{
    let mut folders = args;
    let n = folders.len();
    if n == 0 {
        return Err(ArgsError::NoArguments);
    }
    match mode_token(&folders[n - 1]) {
        None => Ok(Invocation { mode: Mode::V4, folders }),
        Some(m) => {
            if n == 1 {
                Err(ArgsError::NoFolder)
            } else {
                folders.pop();
                Ok(Invocation { mode: m, folders })
            }
        },
    }
}

/// The split folders of the split layout, in the order they are taken.
pub open spec fn split_names() -> Seq<Seq<char>> {
    seq![seq!['t', 'r', 'a', 'i', 'n'], seq!['v', 'a', 'l', 'i', 'd'], seq!['t', 'e', 's', 't']]
}

/// The split folder names: `train`, `valid`, `test`.
pub fn splits() -> (r: Vec<String>)
    ensures
        r@.map_values(|s: String| s@) == split_names(),
{
    proof {
        reveal_strlit("train");
        reveal_strlit("valid");
        reveal_strlit("test");
        assert("train"@ =~= split_names()[0]);
        assert("valid"@ =~= split_names()[1]);
        assert("test"@ =~= split_names()[2]);
    }
    let r = vec![String::from_str("train"), String::from_str("valid"), String::from_str("test")];
    assert(r@.map_values(|s: String| s@) =~= split_names());
    r
}

/// Whether a folder name is one of the split names.
pub fn is_split_name(s: &String) -> (r: bool)
    ensures
        r == split_names().contains(s@),
{
    let names = splits();
    let mut i: usize = 0;
    while i < names.len()
        invariant
            i <= names@.len(),
            names@.map_values(|s: String| s@) == split_names(),
            forall|j: int| 0 <= j < i ==> #[trigger] split_names()[j] != s@,
        decreases names@.len() - i,
    {
        assert(split_names()[i as int] == names@[i as int]@);
        if names[i] == *s {
            return true;
        }
        i = i + 1;
    }
    false
}

} // verus!
