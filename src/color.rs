//! Terminal colour decoration: each function wraps a text in a 24-bit
//! foreground colour escape and a reset escape.
use vstd::prelude::*;
use vstd::string::StringExecFns;

verus! {

/// The escape that ends any colour decoration.
pub const RESET: &'static str = "\x1b[0m";

/// The characters of the reset escape.
pub open spec fn reset_code() -> Seq<char> {
    seq!['\x1b', '[', '0', 'm']
}

/// The escape that starts a 24-bit foreground colour with the given channels.
pub open spec fn fg_code(r: Seq<char>, g: Seq<char>, b: Seq<char>) -> Seq<char> {
    seq!['\x1b', '[', '3', '8', ';', '2', ';'] + r + seq![';'] + g + seq![';'] + b + seq!['m']
}

/// `s` decorated with the colour whose escape is `code`.
pub open spec fn decorated(code: Seq<char>, s: Seq<char>) -> Seq<char> {
    code + s + reset_code()
}

pub open spec fn dim_code() -> Seq<char> {
    fg_code(seq!['6', '8'], seq!['6', '8'], seq!['6', '8'])
}

pub open spec fn muted_code() -> Seq<char> {
    fg_code(seq!['1', '2', '0'], seq!['1', '2', '0'], seq!['1', '2', '0'])
}

pub open spec fn cyan_code() -> Seq<char> {
    fg_code(seq!['8', '6'], seq!['1', '8', '2'], seq!['1', '9', '4'])
}

pub open spec fn green_code() -> Seq<char> {
    fg_code(seq!['1', '0', '6'], seq!['1', '5', '3'], seq!['8', '5'])
}

fn wrap(code: &str, s: &str) -> (r: String)
    ensures
        r@ == code@ + s@ + reset_code(),
{
    let mut out = String::from_str(code);
    out.append(s);
    out.append(RESET);
    proof {
        reveal_strlit("\x1b[0m");
        assert(RESET@ =~= reset_code());
    }
    out
}

/// Dim gray, for borders and separators.
pub fn dim(s: &str) -> (r: String)
    ensures
        r@ == decorated(dim_code(), s@),
{
    let code = "\x1b[38;2;68;68;68m";
    proof {
        reveal_strlit("\x1b[38;2;68;68;68m");
        assert(code@ =~= dim_code());
    }
    wrap(code, s)
}

/// Muted gray, for subtle text.
pub fn muted(s: &str) -> (r: String)
    ensures
        r@ == decorated(muted_code(), s@),
{
    let code = "\x1b[38;2;120;120;120m";
    proof {
        reveal_strlit("\x1b[38;2;120;120;120m");
        assert(code@ =~= muted_code());
    }
    wrap(code, s)
}

/// Cyan, for highlights.
pub fn cyan(s: &str) -> (r: String)
    ensures
        r@ == decorated(cyan_code(), s@),
{
    let code = "\x1b[38;2;86;182;194m";
    proof {
        reveal_strlit("\x1b[38;2;86;182;194m");
        assert(code@ =~= cyan_code());
    }
    wrap(code, s)
}

/// Green, for headers and the current branch.
pub fn green(s: &str) -> (r: String)
    ensures
        r@ == decorated(green_code(), s@),
{
    let code = "\x1b[38;2;106;153;85m";
    proof {
        reveal_strlit("\x1b[38;2;106;153;85m");
        assert(code@ =~= green_code());
    }
    wrap(code, s)
}

} // verus!
