//! The builtin table and the decision logic of each builtin: dispatch by
//! the first token, the line `echo` prints, the exit code `exit` chooses,
//! the path substitution `cd` applies, and the exact messages the shell
//! prints. Printing, changing directory and process exit happen outside
//! the library.

use vstd::prelude::*;
use vstd::string::StringExecFns;

use crate::text::str_eq;
use crate::text::to_chars;
use crate::text::chars_to_string;

verus! {

/// Where one parsed command line is routed, by its first token.
#[derive(Clone, Copy, PartialEq, Eq, Structural)]
pub enum Action {
    Echo,
    Exit,
    Type,
    Pwd,
    Cd,
    External,
}

/// The routing the dispatcher applies: an exact match on a builtin name,
/// anything else is an external command.
pub open spec fn action_of(name: Seq<char>) -> Action {
    if name == "echo"@ {
        Action::Echo
    } else if name == "exit"@ {
        Action::Exit
    } else if name == "type"@ {
        Action::Type
    } else if name == "pwd"@ {
        Action::Pwd
    } else if name == "cd"@ {
        Action::Cd
    } else {
        Action::External
    }
}

/// Whether a name is one of the recognized builtins.
pub open spec fn is_builtin_name(name: Seq<char>) -> bool {
    action_of(name) != Action::External
}

/// Routes a command name to its builtin, or to external execution.
pub fn dispatch(name: &str) -> (a: Action)
    ensures
        a == action_of(name@),
{
    if str_eq(name, "echo") {
        Action::Echo
    } else if str_eq(name, "exit") {
        Action::Exit
    } else if str_eq(name, "type") {
        Action::Type
    } else if str_eq(name, "pwd") {
        Action::Pwd
    } else if str_eq(name, "cd") {
        Action::Cd
    } else {
        Action::External
    }
}

/// Whether a name is one of the recognized builtins.
pub fn is_builtin(name: &str) -> (r: bool)
    ensures
        r == is_builtin_name(name@),
{
    match dispatch(name) {
        Action::External => false,
        _ => true,
    }
}

/// The arguments joined by single spaces, as `echo` prints them.
pub open spec fn joined_with_spaces(args: Seq<Seq<char>>) -> Seq<char>
    decreases args.len(),
{
    if args.len() == 0 {
        Seq::empty()
    } else if args.len() == 1 {
        args[0]
    } else {
        joined_with_spaces(args.drop_last()) + " "@ + args.last()
    }
}

/// The line `echo` prints for its arguments: the arguments joined by
/// single spaces, with no quoting re-applied.
pub fn echo_line(args: &Vec<String>) -> (r: String)
    ensures
        r@ == joined_with_spaces(args.deep_view()),
{
    let mut r = String::new();
    let mut i: usize = 0;
    while i < args.len()
        invariant
            i <= args@.len(),
            r@ == joined_with_spaces(args.deep_view().take(i as int)),
        decreases args@.len() - i,
    {
        let ghost before = r@;
        let ghost dv = args.deep_view();
        if i > 0 {
            r.append(" ");
        }
        r.append(args[i].as_str());
        proof {
            assert(dv.take(i + 1 as int).drop_last() =~= dv.take(i as int));
            assert(dv.take(i + 1 as int).last() == dv[i as int]);
            if i == 0 {
                assert(r@ =~= dv[0]);
                assert(joined_with_spaces(dv.take(1)) == dv.take(1)[0]);
                assert(dv.take(1)[0] == dv[0]);
            } else {
                assert(r@ =~= joined_with_spaces(dv.take(i as int)) + " "@ + dv[i as int]);
            }
        }
        i = i + 1;
    }
    proof {
        assert(args.deep_view().take(args@.len() as int) =~= args.deep_view());
    }
    r
}

/// Whether a character is one of the ten decimal digits.
pub open spec fn is_digit_char(c: char) -> bool {
    48 <= c as u32 <= 57
}

/// The value of a digit character.
pub open spec fn digit_value(c: char) -> int {
    c as u32 - 48
}

/// The value of a sequence of digit characters, most significant first.
pub open spec fn decimal_value(s: Seq<char>) -> int
    decreases s.len(),
{
    if s.len() == 0 {
        0
    } else {
        decimal_value(s.drop_last()) * 10 + digit_value(s.last())
    }
}

/// Whether every character of the sequence is a decimal digit.
pub open spec fn all_digit_chars(s: Seq<char>) -> bool {
    forall|i: int| 0 <= i < s.len() ==> is_digit_char(s[i])
}

/// What parsing a signed decimal integer yields: an optional `+` or `-`
/// sign, then one or more digits, and a value within the 32-bit signed
/// range; anything else fails.
pub open spec fn parse_i32_spec(s: Seq<char>) -> Option<i32> {
    let negative = s.len() > 0 && s[0] == '-';
    let signed = s.len() > 0 && (s[0] == '-' || s[0] == '+');
    let digits = if signed {
        s.drop_first()
    } else {
        s
    };
    if digits.len() == 0 || !all_digit_chars(digits) {
        None
    } else {
        let v = if negative {
            -decimal_value(digits)
        } else {
            decimal_value(digits)
        };
        if i32::MIN <= v <= i32::MAX {
            Some(v as i32)
        } else {
            None
        }
    }
}

/// Parses a signed decimal 32-bit integer, failing on any other shape and
/// on overflow.
pub fn parse_i32(s: &str) -> (r: Option<i32>)
    ensures
        r == parse_i32_spec(s@),
{
    let chars = to_chars(s);
    let n = chars.len();
    let mut idx: usize = 0;
    let mut negative = false;
    if n > 0 && (chars[0] == '-' || chars[0] == '+') {
        negative = chars[0] == '-';
        idx = 1;
    }
    if idx >= n {
        return None;
    }
    let ghost digits = if idx == 1 { s@.drop_first() } else { s@ };
    proof {
        assert(s@.subrange(idx as int, n as int) =~= digits);
    }
    let mut mag: u64 = 0;
    let mut overflow = false;
    let mut i: usize = idx;
    proof {
        assert(s@.subrange(idx as int, idx as int) =~= Seq::<char>::empty());
    }
    while i < n
        invariant
            idx <= i <= n,
            idx < n,
            n == chars@.len(),
            chars@ == s@,
            idx == (if s@.len() > 0 && (s@[0] == '-' || s@[0] == '+') {
                1int
            } else {
                0int
            }),
            negative == (s@.len() > 0 && s@[0] == '-'),
            digits == (if idx == 1 {
                s@.drop_first()
            } else {
                s@
            }),
            forall|j: int| idx <= j < i ==> is_digit_char(s@[j]),
            !overflow ==> mag == decimal_value(s@.subrange(idx as int, i as int)),
            !overflow ==> mag <= 42949672959,
            overflow ==> decimal_value(s@.subrange(idx as int, i as int)) > 4294967295,
        decreases n - i,
    {
        let c = chars[i];
        let u = c as u32;
        if u < 48 || u > 57 {
            proof {
                assert(digits =~= s@.subrange(idx as int, n as int));
                assert(digits[i - idx] == s@[i as int]);
                assert(0 <= i - idx < digits.len());
                assert(!all_digit_chars(digits));
                assert(parse_i32_spec(s@) is None);
            }
            return None;
        }
        let d = (u - 48) as u64;
        let ghost seen = s@.subrange(idx as int, i as int);
        let ghost seen2 = s@.subrange(idx as int, i + 1 as int);
        proof {
            assert(seen2.drop_last() =~= seen);
            assert(seen2.last() == c);
            assert(decimal_value(seen2) == decimal_value(seen) * 10 + digit_value(c));
        }
        if overflow {
            proof {
                assert(decimal_value(seen) * 10 + digit_value(c) > 4294967295) by {
                    assert(decimal_value(seen) > 4294967295);
                    assert(digit_value(c) >= 0);
                };
            }
        } else if mag > 4294967295 {
            overflow = true;
            proof {
                assert(decimal_value(seen) * 10 + digit_value(c) > 4294967295);
            }
        } else {
            mag = mag * 10 + d;
        }
        i = i + 1;
    }
    proof {
        assert(s@.subrange(idx as int, n as int) =~= digits);
        assert(forall|j: int| 0 <= j < digits.len() ==> is_digit_char(digits[j]));
    }
    if overflow {
        return None;
    }
    if negative {
        proof {
            assert(mag == decimal_value(digits));
        }
        if mag > 2147483648 {
            return None;
        }
        if mag == 2147483648 {
            return Some(i32::MIN);
        }
        return Some(-(mag as i32));
    }
    if mag > 2147483647 {
        return None;
    }
    Some(mag as i32)
}

/// The exit code the `exit` builtin chooses: its first argument parsed as
/// a signed integer, or zero when absent or unparseable.
pub open spec fn exit_code_of(args: Seq<Seq<char>>) -> i32 {
    if args.len() == 0 {
        0
    } else {
        match parse_i32_spec(args[0]) {
            Some(v) => v,
            None => 0,
        }
    }
}

/// The exit code for an `exit` invocation with the given arguments.
pub fn exit_code(args: &Vec<String>) -> (c: i32)
    ensures
        c == exit_code_of(args.deep_view()),
{
    if args.len() == 0 {
        return 0;
    }
    match parse_i32(args[0].as_str()) {
        Some(v) => v,
        None => 0,
    }
}

/// The path with every `~` replaced by the home directory: a naive
/// character-for-character substitution, not limited to a leading `~`.
pub open spec fn home_substituted(path: Seq<char>, home: Seq<char>) -> Seq<char>
    decreases path.len(),
{
    if path.len() == 0 {
        Seq::empty()
    } else {
        home_substituted(path.drop_last(), home) + (if path.last() == '~' {
            home
        } else {
            seq![path.last()]
        })
    }
}

/// Replaces every `~` in the path with the home directory.
pub fn substitute_home(path: &str, home: &str) -> (r: String)
    ensures
        r@ == home_substituted(path@, home@),
{
    let path_chars = to_chars(path);
    let home_chars = to_chars(home);
    let mut out: Vec<char> = Vec::new();
    let mut i: usize = 0;
    proof {
        assert(path@.take(0) =~= Seq::<char>::empty());
    }
    while i < path_chars.len()
        invariant
            i <= path_chars@.len(),
            path_chars@ == path@,
            home_chars@ == home@,
            out@ == home_substituted(path@.take(i as int), home@),
        decreases path_chars@.len() - i,
    {
        let c = path_chars[i];
        let ghost before = out@;
        proof {
            assert(path@.take(i + 1 as int).drop_last() =~= path@.take(i as int));
            assert(path@.take(i + 1 as int).last() == c);
        }
        if c == '~' {
            let mut j: usize = 0;
            while j < home_chars.len()
                invariant
                    j <= home_chars@.len(),
                    home_chars@ == home@,
                    out@ == before + home@.take(j as int),
                decreases home_chars@.len() - j,
            {
                out.push(home_chars[j]);
                proof {
                    assert(before + home@.take(j + 1 as int) =~= (before + home@.take(
                        j as int,
                    )).push(home@[j as int]));
                }
                j = j + 1;
            }
            proof {
                assert(home@.take(home@.len() as int) =~= home@);
            }
        } else {
            out.push(c);
            proof {
                assert(before + seq![c] =~= before.push(c));
            }
        }
        i = i + 1;
    }
    proof {
        assert(path@.take(path@.len() as int) =~= path@);
    }
    chars_to_string(&out)
}

/// The directory `cd` will try: nothing when no argument was given (a
/// no-op, not an error), else the first argument with `~` substituted.
pub fn cd_target(args: &Vec<String>, home: &str) -> (r: Option<String>)
    ensures
        match r {
            None => args.deep_view().len() == 0,
            Some(p) => args.deep_view().len() > 0 && p@ == home_substituted(
                args.deep_view()[0],
                home@,
            ),
        },
{
    if args.len() == 0 {
        return None;
    }
    Some(substitute_home(args[0].as_str(), home))
}

/// The message for an unknown command.
pub fn not_found_message(name: &str) -> (r: String)
    ensures
        r@ == name@ + ": command not found"@,
{
    let r = name.to_owned().concat(": command not found");
    proof {
        assert(r@ =~= name@ + ": command not found"@);
    }
    r
}

/// The message `cd` prints when its target is missing or not a directory.
pub fn cd_error_message(path: &str) -> (r: String)
    ensures
        r@ == "cd: "@ + path@ + ": No such file or directory"@,
{
    let r = String::from_str("cd: ").concat(path).concat(": No such file or directory");
    proof {
        assert(r@ =~= "cd: "@ + path@ + ": No such file or directory"@);
    }
    r
}

/// The message printed when a resolved command fails to spawn, with the
/// underlying cause.
pub fn exec_error_message(name: &str, cause: &str) -> (r: String)
    ensures
        r@ == "Error executing "@ + name@ + ": "@ + cause@,
{
    let r = String::from_str("Error executing ").concat(name).concat(": ").concat(cause);
    proof {
        assert(r@ =~= "Error executing "@ + name@ + ": "@ + cause@);
    }
    r
}

/// What `type` prints for one name: builtins win over resolution, then a
/// resolved (cached or fresh) path, then not found.
pub open spec fn type_message_of(name: Seq<char>, resolved: Option<Seq<char>>) -> Seq<char> {
    if is_builtin_name(name) {
        name + " is a shell builtin"@
    } else {
        match resolved {
            Some(p) => name + " is "@ + p,
            None => name + ": not found"@,
        }
    }
}

/// The line `type` prints for one name, given the outcome of resolution
/// (which is not consulted for builtins).
pub fn type_message(name: &str, resolved: Option<&String>) -> (r: String)
    ensures
        r@ == (match resolved {
            Some(p) => type_message_of(name@, Some(p@)),
            None => type_message_of(name@, None),
        }),
{
    if is_builtin(name) {
        let r = name.to_owned().concat(" is a shell builtin");
        proof {
            assert(r@ =~= name@ + " is a shell builtin"@);
        }
        r
    } else {
        match resolved {
            Some(p) => {
                let r = name.to_owned().concat(" is ").concat(p.as_str());
                proof {
                    assert(r@ =~= name@ + " is "@ + p@);
                }
                r
            },
            None => {
                let r = name.to_owned().concat(": not found");
                proof {
                    assert(r@ =~= name@ + ": not found"@);
                }
                r
            },
        }
    }
}

} // verus!
