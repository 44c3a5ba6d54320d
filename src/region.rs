use vstd::prelude::*;

use crate::input::same_text;

verus! {

/// The decimal digits of a natural number, most significant first, with no
/// leading zero.
pub open spec fn nat_digits(n: nat) -> Seq<char>
    decreases n,
{
    if n < 10 {
        seq![digit_char(n)]
    } else {
        nat_digits(n / 10) + seq![digit_char(n % 10)]
    }
}

/// The character of a decimal digit.
pub open spec fn digit_char(d: nat) -> char {
    ((d + '0' as nat) as u32) as char
}

/// The decimal text of an integer, with a `-` in front of a negative one.
pub open spec fn int_text(n: int) -> Seq<char> {
    if n < 0 {
        seq!['-'] + nat_digits((-n) as nat)
    } else {
        nat_digits(n as nat)
    }
}

/// Name of the region file at region coordinates `x`, `y`: `r.<x>.<y>.mca`.
pub open spec fn region_name(x: int, y: int) -> Seq<char> {
    seq!['r', '.'] + int_text(x) + seq!['.'] + int_text(y) + seq!['.', 'm', 'c', 'a']
}

fn digit_str(d: u64) -> (r: &'static str)
    requires
        d < 10,
    ensures
        r@ == seq![digit_char(d as nat)],
{
    proof {
        reveal_strlit("0");
        reveal_strlit("1");
        reveal_strlit("2");
        reveal_strlit("3");
        reveal_strlit("4");
        reveal_strlit("5");
        reveal_strlit("6");
        reveal_strlit("7");
        reveal_strlit("8");
        reveal_strlit("9");
    }
    let r = match d {
        0 => "0",
        1 => "1",
        2 => "2",
        3 => "3",
        4 => "4",
        5 => "5",
        6 => "6",
        7 => "7",
        8 => "8",
        _ => "9",
    };
    assert(r@ =~= seq![digit_char(d as nat)]);
    r
}

/// Appends the decimal digits of `n` to `out`.
pub fn push_digits(n: u64, out: &mut String)
    ensures
        final(out)@ == old(out)@ + nat_digits(n as nat),
    decreases n,
{
    if n >= 10 {
        push_digits(n / 10, out);
    }
    out.append(digit_str(n % 10));
    proof {
        if n >= 10 {
            assert(nat_digits(n as nat) == nat_digits((n / 10) as nat) + seq![digit_char((n % 10) as nat)]);
        }
    }
    assert(out@ =~= old(out)@ + nat_digits(n as nat));
}

fn push_int(n: i32, out: &mut String)
    ensures
        final(out)@ == old(out)@ + int_text(n as int),
{
    if n < 0 {
        out.append("-");
        let m = (-(n as i64)) as u64;
        push_digits(m, out);
        proof {
            reveal_strlit("-");
        }
        assert(out@ =~= old(out)@ + int_text(n as int));
    } else {
        push_digits(n as u64, out);
    }
}

/// Builds the name of the region file at region coordinates `x`, `y`.
pub fn region_file_name(x: i32, y: i32) -> (r: String)
    ensures
        r@ == region_name(x as int, y as int),
{
    let mut name = String::from_str("r.");
    push_int(x, &mut name);
    name.append(".");
    push_int(y, &mut name);
    name.append(".mca");
    proof {
        reveal_strlit("r.");
        reveal_strlit(".");
        reveal_strlit(".mca");
    }
    assert(name@ =~= region_name(x as int, y as int));
    name
}

/// Exit status of the program when the operator declines to go on.
pub const DECLINED_EXIT_CODE: i32 = 1;

/// Exit status of the program when its setup is refused.
pub const SETUP_EXIT_CODE: i32 = 2;

/// Why the program refuses to start work on a directory.
#[derive(Clone, Copy, Debug, PartialEq, Eq, Structural)]
pub enum SetupError {
    /// The path does not exist or is not a directory.
    NotADirectory,
    /// The path has no last component: it is the root directory.
    RootDirectory,
    /// The directory's name is not `region`.
    WrongName,
    /// The source region file does not exist or is not a regular file.
    MissingRegion,
}

impl SetupError {
    /// Exit status of the program for this refusal.
    pub fn exit_code(&self) -> (r: i32)
        ensures
            r == SETUP_EXIT_CODE,
    {
        SETUP_EXIT_CODE
    }
}

/// The name that the directory of region files must have.
pub open spec fn region_dir_name() -> Seq<char> {
    seq!['r', 'e', 'g', 'i', 'o', 'n']
}

/// Checks the directory given by the operator: it must be a directory, have a
/// last path component, and that component must be exactly `region`.
pub fn check_directory(is_dir: bool, last_component: Option<&str>) -> (r: Result<(), SetupError>)
    ensures
        !is_dir ==> r == Err::<(), SetupError>(SetupError::NotADirectory),
        is_dir && last_component is None ==> r == Err::<(), SetupError>(SetupError::RootDirectory),
        is_dir && last_component is Some && last_component->0@ != region_dir_name()
            ==> r == Err::<(), SetupError>(SetupError::WrongName),
        is_dir && last_component is Some && last_component->0@ == region_dir_name()
            ==> r == Ok::<(), SetupError>(()),
{
    if !is_dir {
        return Err(SetupError::NotADirectory);
    }
    match last_component {
        None => Err(SetupError::RootDirectory),
        Some(name) => {
            proof {
                reveal_strlit("region");
            }
            assert("region"@ =~= region_dir_name());
            if same_text(name, "region") {
                Ok(())
            } else {
                Err(SetupError::WrongName)
            }
        },
    }
}

/// Checks that the source region file exists as a regular file.
pub fn check_source(is_file: bool) -> (r: Result<(), SetupError>)
    ensures
        is_file ==> r == Ok::<(), SetupError>(()),
        !is_file ==> r == Err::<(), SetupError>(SetupError::MissingRegion),
{
    if is_file {
        Ok(())
    } else {
        Err(SetupError::MissingRegion)
    }
}

} // verus!
