use vstd::prelude::*;
use crate::pattern::{is_alnum_word, is_ascii_graphic, regex_is_match, trim_of, trimmed};

verus! {

/// The prompt sent to a new connection.
pub const WELCOME: &'static str = "Welcome to budgetchat! What shall I call you?\n";

/// A valid username: one or more ASCII letters or digits.
pub const USERNAME_PATTERN: &'static str = "^[a-zA-Z0-9]+$";

/// The handshake line was not an acceptable username.
#[derive(Debug, PartialEq, Eq)]
pub struct InvalidUsername {
    /// The line as it stood after trimming.
    pub name: String,
}

/// The username that a handshake line gives, if it is acceptable: the line
/// trimmed, where that is one or more ASCII letters or digits.
pub open spec fn accepted_username(line: Seq<char>) -> Option<Seq<char>> {
    if is_alnum_word(trim_of(line)) {
        Some(trim_of(line))
    } else {
        None
    }
}

/// The username that a handshake line names: the line trimmed, where that is
/// one or more ASCII letters or digits.
pub fn get_username(line: &str) -> (r: Result<String, InvalidUsername>)
    ensures
        r is Ok <==> accepted_username(line@) is Some,
        r matches Ok(n) ==> accepted_username(line@) == Some(n@),
        r matches Err(e) ==> e.name@ == trim_of(line@),
        (line@.len() == 0 || (is_ascii_graphic(line@[0]) && is_ascii_graphic(line@.last())))
            ==> trim_of(line@) == line@,
{
    let name = trimmed(line);
    proof {
        reveal_strlit("^[a-zA-Z0-9]+$");
    }
    match regex_is_match(USERNAME_PATTERN, name.as_str()) {
        Some(true) => Ok(name),
        _ => Err(InvalidUsername { name }),
    }
}

} // verus!
