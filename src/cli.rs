//! The decisions behind the command line: reading the arguments, and building
//! the table of recent branches.
use vstd::prelude::*;
use crate::color::{decorated, green, green_code};
use crate::table::{Cell, Table};
use crate::text::{chars_of, push_char, same_chars};
use vstd::string::StrSliceExecFns;

verus! {

/// The line printed in list mode when the log holds no transition.
pub const NO_HISTORY: &'static str = "No branch history found";

/// What the command line asks for.
pub struct Args {
    /// How many checkouts to go back.
    pub n: usize,
    /// Print the branch instead of switching to it.
    pub print_only: bool,
    /// List recent branches instead of navigating.
    pub list: bool,
    /// How many branches to list.
    pub list_count: usize,
}

pub open spec fn is_digit(c: char) -> bool {
    '0' <= c <= '9'
}

pub open spec fn digit_value(c: char) -> nat {
    (c as u32 - '0' as u32) as nat
}

/// The number that a run of decimal digits spells.
pub open spec fn digits_value(d: Seq<char>) -> nat
    decreases d.len(),
{
    if d.len() == 0 {
        0
    } else {
        digits_value(d.drop_last()) * 10 + digit_value(d.last())
    }
}

/// The digits of an unsigned number's text: without one leading `+`.
pub open spec fn unsigned_digits(s: Seq<char>) -> Seq<char> {
    if s.len() > 0 && s[0] == '+' {
        s.skip(1)
    } else {
        s
    }
}

/// The unsigned number that `s` spells, if it spells one that fits a `usize`:
/// an optional `+` and at least one decimal digit, nothing else.
pub open spec fn count_value(s: Seq<char>) -> Option<nat> {
    let d = unsigned_digits(s);
    if d.len() > 0 && (forall|i: int| 0 <= i < d.len() ==> is_digit(#[trigger] d[i])) && digits_value(d)
        <= usize::MAX {
        Some(digits_value(d))
    } else {
        None
    }
}

/// The decimal digits of `n`, most significant first.
pub open spec fn decimal(n: nat) -> Seq<char>
    decreases n,
{
    if n < 10 {
        seq![((n + 48) as u8) as char]
    } else {
        decimal(n / 10).push((((n % 10) + 48) as u8) as char)
    }
}

proof fn lemma_digits_prefix(d: Seq<char>, k: int)
    requires
        0 <= k <= d.len(),
    ensures
        digits_value(d.take(k)) <= digits_value(d),
    decreases d.len(),
{
    if k < d.len() {
        let p = d.drop_last();
        lemma_digits_prefix(p, k);
        assert(p.take(k) =~= d.take(k));
        let v = digits_value(p);
        assert(v <= v * 10 + digit_value(d.last())) by (nonlinear_arith);
    } else {
        assert(d.take(k) =~= d);
    }
}

/// The unsigned number that `s` spells, as `str::parse::<usize>` reads it.
pub fn parse_count(s: &str) -> (r: Option<usize>)
    ensures
        r matches Some(v) ==> count_value(s@) == Some(v as nat),
        r is None ==> count_value(s@) is None,
{
    let c = chars_of(s);
    let mut k: usize = 0;
    if c.len() > 0 && c[0] == '+' {
        k = 1;
    }
    let ghost d = unsigned_digits(s@);
    assert(d =~= c@.skip(k as int));
    if k == c.len() {
        return None;
    }
    let mut acc: usize = 0;
    let mut i: usize = k;
    assert(d.take(0) =~= Seq::<char>::empty());
    while i < c.len()
        invariant
            k <= i <= c@.len(),
            d == c@.skip(k as int),
            d == unsigned_digits(s@),
            acc as nat == digits_value(d.take(i - k)),
            forall|j: int| 0 <= j < i - k ==> is_digit(#[trigger] d[j]),
        decreases c@.len() - i,
    {
        let ch = c[i];
        assert(d[i - k] == ch);
        if !('0' <= ch && ch <= '9') {
            assert(!is_digit(d[i - k]));
            assert(!(forall|j: int| 0 <= j < d.len() ==> is_digit(#[trigger] d[j])));
            assert(count_value(s@) is None);
            return None;
        }
        let dv: usize = (ch as u32 - '0' as u32) as usize;
        let ghost t = d.take(i - k + 1);
        assert(t.drop_last() =~= d.take(i - k));
        assert(t.last() == ch);
        assert(digits_value(t) == acc * 10 + dv);
        match acc.checked_mul(10) {
            None => {
                proof {
                    lemma_digits_prefix(d, i - k + 1);
                    assert(acc * 10 > usize::MAX);
                    assert(digits_value(d) > usize::MAX);
                }
                return None;
            },
            Some(m) => match m.checked_add(dv) {
                None => {
                    proof {
                        lemma_digits_prefix(d, i - k + 1);
                    }
                    return None;
                },
                Some(v) => {
                    acc = v;
                },
            },
        }
        i = i + 1;
    }
    assert(d.take(i - k) =~= d);
    Some(acc)
}

/// The flags, as character sequences.
pub open spec fn help_long() -> Seq<char> {
    seq!['-', '-', 'h', 'e', 'l', 'p']
}

pub open spec fn help_short() -> Seq<char> {
    seq!['-', 'h']
}

pub open spec fn list_long() -> Seq<char> {
    seq!['-', '-', 'l', 'i', 's', 't']
}

pub open spec fn list_short() -> Seq<char> {
    seq!['-', 'l']
}

pub open spec fn print_long() -> Seq<char> {
    seq!['-', '-', 'p', 'r', 'i', 'n', 't']
}

pub open spec fn print_short() -> Seq<char> {
    seq!['-', 'p']
}

/// The arguments before any is read: one step back, ten branches listed.
pub open spec fn default_args() -> Args {
    Args { n: 1, print_only: false, list: false, list_count: 10 }
}

/// The reading of one argument, given what was read so far and whether a list
/// flag waits for its count; none once help is asked for.
pub open spec fn read_arg(st: (Args, bool), a: Seq<char>) -> Option<(Args, bool)> {
    let (args, expect) = st;
    if a == help_long() || a == help_short() {
        None
    } else if a == list_long() || a == list_short() {
        Some((Args { list: true, ..args }, true))
    } else if a == print_long() || a == print_short() {
        Some((Args { print_only: true, ..args }, expect))
    } else {
        match count_value(a) {
            Some(v) => if expect {
                Some((Args { list_count: v as usize, ..args }, false))
            } else {
                Some((Args { n: v as usize, ..args }, expect))
            },
            None => Some(st),
        }
    }
}

/// The reading of the arguments in order; none if one of them asks for help.
pub open spec fn read_args(a: Seq<Seq<char>>) -> Option<(Args, bool)>
    decreases a.len(),
{
    if a.len() == 0 {
        Some((default_args(), false))
    } else {
        match read_args(a.drop_last()) {
            None => None,
            Some(st) => read_arg(st, a.last()),
        }
    }
}

/// Reads the command-line arguments (without the program name). Gives none when
/// one of them asks for help.
pub fn parse_arg_list(args: &Vec<String>) -> (r: Option<Args>)
    ensures
        r matches Some(a) ==> read_args(args@.map_values(|s: String| s@)) matches Some((b, e)) && a
            == b,
        r is None ==> read_args(args@.map_values(|s: String| s@)) is None,
{
    let ghost all = args@.map_values(|s: String| s@);
    let help_l = vec!['-', '-', 'h', 'e', 'l', 'p'];
    let help_s = vec!['-', 'h'];
    let list_l = vec!['-', '-', 'l', 'i', 's', 't'];
    let list_s = vec!['-', 'l'];
    let print_l = vec!['-', '-', 'p', 'r', 'i', 'n', 't'];
    let print_s = vec!['-', 'p'];
    assert(help_l@ =~= help_long() && help_s@ =~= help_short() && list_l@ =~= list_long());
    assert(list_s@ =~= list_short() && print_l@ =~= print_long() && print_s@ =~= print_short());
    let mut n: usize = 1;
    let mut print_only = false;
    let mut list = false;
    let mut list_count: usize = 10;
    let mut expect = false;
    let mut i: usize = 0;
    assert(all.take(0) =~= Seq::<Seq<char>>::empty());
    while i < args.len()
        invariant
            i <= args@.len(),
            all == args@.map_values(|s: String| s@),
            help_l@ == help_long() && help_s@ == help_short() && list_l@ == list_long(),
            list_s@ == list_short() && print_l@ == print_long() && print_s@ == print_short(),
            read_args(all.take(i as int)) == Some(
                (Args { n, print_only, list, list_count }, expect),
            ),
        decreases args@.len() - i,
    {
        let ghost t = all.take(i + 1);
        assert(t.drop_last() =~= all.take(i as int));
        assert(t.last() == args@[i as int]@);
        let a = chars_of(args[i].as_str());
        if same_chars(&a, &help_l) || same_chars(&a, &help_s) {
            proof {
                assert forall|m: int| i + 1 <= m <= all.len() implies read_args(#[trigger] all.take(m))
                    is None by {
                    lemma_read_args_stays_none(all, i + 1, m);
                }
                assert(all.take(all.len() as int) =~= all);
            }
            return None;
        } else if same_chars(&a, &list_l) || same_chars(&a, &list_s) {
            list = true;
            expect = true;
        } else if same_chars(&a, &print_l) || same_chars(&a, &print_s) {
            print_only = true;
        } else {
            match parse_count(args[i].as_str()) {
                Some(v) => {
                    if expect {
                        list_count = v;
                        expect = false;
                    } else {
                        n = v;
                    }
                },
                None => {},
            }
        }
        i = i + 1;
    }
    assert(all.take(i as int) =~= all);
    Some(Args { n, print_only, list, list_count })
}

proof fn lemma_read_args_stays_none(all: Seq<Seq<char>>, k: int, m: int)
    requires
        0 <= k <= m <= all.len(),
        read_args(all.take(k)) is None,
    ensures
        read_args(all.take(m)) is None,
    decreases m - k,
{
    if m > k {
        lemma_read_args_stays_none(all, k, m - 1);
        assert(all.take(m).drop_last() =~= all.take(m - 1));
    }
}

/// The decimal digits of `n`.
pub fn decimal_string(n: usize) -> (r: String)
    ensures
        r@ == decimal(n as nat),
    decreases n,
{
    if n < 10 {
        let mut s = String::new();
        push_char(&mut s, ((n as u8) + 48u8) as char);
        s
    } else {
        let mut s = decimal_string(n / 10);
        push_char(&mut s, (((n % 10) as u8) + 48u8) as char);
        s
    }
}

/// The column headers of the branch list.
pub open spec fn list_headers() -> Seq<Seq<char>> {
    seq![seq!['#'], seq!['B', 'r', 'a', 'n', 'c', 'h'], seq!['S', 't', 'a', 't', 'u', 's']]
}

/// The status shown beside the current branch.
pub open spec fn current_status() -> Seq<char> {
    seq!['c', 'u', 'r', 'r', 'e', 'n', 't']
}

/// How many branches the list shows: `count`, or all of them if fewer.
pub open spec fn listed(history_len: nat, count: nat) -> nat {
    if count < history_len {
        count
    } else {
        history_len
    }
}

/// The table of the first `count` branches of `history`: the step number, the
/// branch, and a status that marks the current branch.
pub fn list_table(history: &[String], count: usize) -> (t: Table)
    ensures
        t.header_cells().len() == 3,
        forall|j: int|
            0 <= j < 3 ==> (#[trigger] t.header_cells()[j]).text@ == decorated(
                green_code(),
                list_headers()[j],
            ) && t.header_cells()[j].width == list_headers()[j].len(),
        t.body().len() == listed(history@.len(), count as nat),
        forall|i: int|
            0 <= i < t.body().len() ==> {
                let row = #[trigger] t.body()[i];
                &&& row.len() == 3
                &&& row[0].text@ == decorated(green_code(), decimal(i as nat))
                &&& row[0].width == decimal(i as nat).len()
                &&& row[1].text@ == history@[i]@
                &&& row[1].width == history@[i]@.len()
                &&& i == 0 ==> row[2].text@ == decorated(green_code(), current_status())
                    && row[2].width == current_status().len()
                &&& i > 0 ==> row[2].text@ == Seq::<char>::empty() && row[2].width == 0
            },
{
    let mut table = Table::new(vec!["#", "Branch", "Status"]);
    proof {
        reveal_strlit("#");
        reveal_strlit("Branch");
        reveal_strlit("Status");
        vstd::string::is_ascii_spec_bytes("#");
        vstd::string::is_ascii_spec_bytes("Branch");
        vstd::string::is_ascii_spec_bytes("Status");
        assert(table.header_cells()[0].text@ =~= decorated(green_code(), list_headers()[0]));
        assert(table.header_cells()[1].text@ =~= decorated(green_code(), list_headers()[1]));
        assert(table.header_cells()[2].text@ =~= decorated(green_code(), list_headers()[2]));
    }
    let shown: usize = if count < history.len() {
        count
    } else {
        history.len()
    };
    let mut i: usize = 0;
    while i < shown
        invariant
            i <= shown,
            shown == listed(history@.len(), count as nat),
            table.header_cells().len() == 3,
            forall|j: int|
                0 <= j < 3 ==> (#[trigger] table.header_cells()[j]).text@ == decorated(
                    green_code(),
                    list_headers()[j],
                ) && table.header_cells()[j].width == list_headers()[j].len(),
            table.body().len() == i,
            forall|k: int|
                0 <= k < i ==> {
                    let row = #[trigger] table.body()[k];
                    &&& row.len() == 3
                    &&& row[0].text@ == decorated(green_code(), decimal(k as nat))
                    &&& row[0].width == decimal(k as nat).len()
                    &&& row[1].text@ == history@[k]@
                    &&& row[1].width == history@[k]@.len()
                    &&& k == 0 ==> row[2].text@ == decorated(green_code(), current_status())
                        && row[2].width == current_status().len()
                    &&& k > 0 ==> row[2].text@ == Seq::<char>::empty() && row[2].width == 0
                },
        decreases shown - i,
    {
        let digits = decimal_string(i);
        let digits_width = digits.as_str().unicode_len();
        let num = Cell::colored(green(digits.as_str()), digits_width);
        let branch = &history[i];
        let branch_cell = Cell::colored(branch.clone(), branch.as_str().unicode_len());
        let status = if i == 0 {
            let word = "current";
            proof {
                reveal_strlit("current");
                assert(word@ =~= current_status());
            }
            Cell::colored(green(word), 7)
        } else {
            Cell::colored(String::new(), 0)
        };
        table.add_row(vec![num, branch_cell, status]);
        i = i + 1;
    }
    table
}

} // verus!
