use crate::text::{chars_of, int_of, parse_int};
use vstd::prelude::*;

verus! {

/// What a free-form token names.
#[derive(PartialEq, Eq, Structural, Clone, Copy, Debug)]
pub enum Target {
    /// A task, by id.
    Id(i32),
    /// The tasks that carry the token as a label.
    Label,
    /// The tasks of one file.
    File,
    /// The tasks of every file under a directory.
    Dir,
    /// Nothing this tree knows.
    Unknown,
}

pub open spec fn md_suffix(s: Seq<char>) -> bool {
    s.len() >= 3 && s.skip(s.len() - 3) == seq!['.', 'm', 'd']
}

/// An integer names an id; else a token that begins with `@` names a label;
/// else a path that exists names a file (ending in `.md`) or a directory.
pub open spec fn target_of(token: Seq<char>, path_exists: bool) -> Target {
    match int_of(token) {
        Some(v) => Target::Id(v as i32),
        None => if token.len() > 0 && token[0] == '@' {
            Target::Label
        } else if path_exists {
            if md_suffix(token) {
                Target::File
            } else {
                Target::Dir
            }
        } else {
            Target::Unknown
        },
    }
}

/// Resolves a token; `path_exists` tells whether the token, as a path below
/// the root, exists.
pub fn resolve_target(token: &str, path_exists: bool) -> (r: Target)
    ensures
        r == target_of(token@, path_exists),
{
    let cs = chars_of(token);
    match parse_int(&cs, 0) {
        Some(v) => {
            assert(cs@.skip(0) =~= cs@);
            return Target::Id(v);
        },
        None => {
            assert(cs@.skip(0) =~= cs@);
        },
    }
    if cs.len() > 0 && cs[0] == '@' {
        Target::Label
    } else if path_exists {
        let n = cs.len();
        if n >= 3 && cs[n - 3] == '.' && cs[n - 2] == 'm' && cs[n - 1] == 'd' {
            assert(cs@.skip(n - 3) =~= seq!['.', 'm', 'd']);
            Target::File
        } else {
            proof {
                if n >= 3 && cs@.skip(n - 3) == seq!['.', 'm', 'd'] {
                    assert(cs@.skip(n - 3)[0] == cs@[n - 3]);
                    assert(cs@.skip(n - 3)[1] == cs@[n - 2]);
                    assert(cs@.skip(n - 3)[2] == cs@[n - 1]);
                }
            }
            Target::Dir
        }
    } else {
        Target::Unknown
    }
}

/// The name of the archive file, which holds no live tasks.
pub open spec fn archive_name() -> Seq<char> {
    seq!['.', 'd', 'o', 'n', 'e']
}

/// A bookkeeping file, left out when the tree is scanned for tasks.
pub fn is_service_file(file_name: &str) -> (r: bool)
    ensures
        r == (file_name@ == archive_name()),
{
    let cs = chars_of(file_name);
    let r = cs.len() == 5 && cs[0] == '.' && cs[1] == 'd' && cs[2] == 'o' && cs[3] == 'n' && cs[4]
        == 'e';
    proof {
        if r {
            assert(cs@ =~= archive_name());
        } else if cs@ == archive_name() {
            assert(cs@[0] == '.' && cs@[1] == 'd' && cs@[2] == 'o' && cs@[3] == 'n' && cs@[4] == 'e');
        }
    }
    r
}

} // verus!
