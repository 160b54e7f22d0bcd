//! The line oriented command language of the container: tokenizing, the
//! decimal age field, the commands, and what each one does to a tree.
use vstd::prelude::*;
use vstd::multiset::Multiset;
use crate::tree::{inserted, removed, Data, SortedContainer};

verus! {

/// Whether `c` has Unicode's `White_Space` property.
pub open spec fn is_blank(c: char) -> bool {
    let u = c as u32;
    (0x9 <= u && u <= 0xd) || u == 0x20 || u == 0x85 || u == 0xa0 || u == 0x1680 || (0x2000 <= u
        && u <= 0x200a) || u == 0x2028 || u == 0x2029 || u == 0x202f || u == 0x205f || u == 0x3000
}

/// The number of characters before the first blank of `s`.
pub open spec fn word_len(s: Seq<char>) -> nat
    decreases s.len(),
{
    if s.len() == 0 || is_blank(s[0]) {
        0
    } else {
        1 + word_len(s.drop_first())
    }
}

/// The maximal runs of non-blank characters of `s`, in order.
pub open spec fn tokens(s: Seq<char>) -> Seq<Seq<char>>
    decreases s.len(),
{
    if s.len() == 0 {
        Seq::empty()
    } else if is_blank(s[0]) {
        tokens(s.drop_first())
    } else {
        let k = word_len(s) as int;
        if 0 < k <= s.len() {
            seq![s.take(k)] + tokens(s.skip(k))
        } else {
            Seq::empty()
        }
    }
}

/// Whether `c` is an ASCII decimal digit.
pub open spec fn is_digit(c: char) -> bool {
    '0' as u32 <= c as u32 && c as u32 <= '9' as u32
}

/// The value of a string of decimal digits.
pub open spec fn digits_value(s: Seq<char>) -> int
    decreases s.len(),
{
    if s.len() == 0 {
        0
    } else {
        digits_value(s.drop_last()) * 10 + (s.last() as u32 - '0' as u32)
    }
}

/// `s` without its leading sign character, if it has one.
pub open spec fn unsigned_part(s: Seq<char>) -> Seq<char> {
    if s.len() > 0 && (s[0] == '-' || s[0] == '+') {
        s.drop_first()
    } else {
        s
    }
}

/// The `i32` that `s` denotes: an optional `+` or `-`, then one or more
/// decimal digits, with a value in `i32`'s range.
pub open spec fn int_of(s: Seq<char>) -> Option<int> {
    let body = unsigned_part(s);
    let v = if s.len() > 0 && s[0] == '-' { -digits_value(body) } else { digits_value(body) };
    if body.len() > 0 && (forall|i: int| 0 <= i < body.len() ==> is_digit(#[trigger] body[i]))
        && i32::MIN <= v <= i32::MAX {
        Some(v)
    } else {
        None
    }
}

/// The views of a sequence of strings.
pub open spec fn views(v: Seq<String>) -> Seq<Seq<char>> {
    v.map_values(|t: String| t@)
}

proof fn lemma_int_of_none(s: Seq<char>)
    requires
        !(forall|k: int| 0 <= k < unsigned_part(s).len() ==> is_digit(#[trigger] unsigned_part(s)[k]))
            || digits_value(unsigned_part(s)) > 2147483648,
    ensures
        int_of(s) is None,
{
}

proof fn lemma_digits_value_prefix(s: Seq<char>, k: int)
    requires
        0 <= k <= s.len(),
        forall|i: int| 0 <= i < s.len() ==> is_digit(#[trigger] s[i]),
    ensures
        0 <= digits_value(s.take(k)) <= digits_value(s),
    decreases s.len(),
{
    if k == s.len() {
        assert(s.take(k) =~= s);
        if s.len() > 0 {
            lemma_digits_value_prefix(s.drop_last(), k - 1);
            assert(s.drop_last().take(k - 1) =~= s.drop_last());
        }
    } else {
        lemma_digits_value_prefix(s.drop_last(), k);
        assert(s.drop_last().take(k) =~= s.take(k));
        lemma_digits_value_prefix(s.drop_last(), s.len() - 1);
        assert(s.drop_last().take(s.len() - 1) =~= s.drop_last());
    }
}

/// Whether `c` is blank (see `is_blank`).
fn blank(c: char) -> (r: bool)
    ensures
        r == is_blank(c),
{
    let u = c as u32;
    (0x9 <= u && u <= 0xd) || u == 0x20 || u == 0x85 || u == 0xa0 || u == 0x1680 || (0x2000 <= u
        && u <= 0x200a) || u == 0x2028 || u == 0x2029 || u == 0x202f || u == 0x205f || u == 0x3000
}

/// Splits a line into its blank separated tokens.
pub fn split_tokens(line: &str) -> (toks: Vec<String>)
    ensures
        views(toks@) == tokens(line@),
{
    let n = line.unicode_len();
    let mut toks: Vec<String> = Vec::new();
    let mut i: usize = 0;
    assert(line@.skip(0) =~= line@);
    assert(views(toks@) + tokens(line@) =~= tokens(line@));
    while i < n
        invariant
            i <= n,
            n == line@.len(),
            tokens(line@) == views(toks@) + tokens(line@.skip(i as int)),
        decreases n - i,
    {
        let ghost rest = line@.skip(i as int);
        assert(rest.drop_first() =~= line@.skip(i + 1));
        if blank(line.get_char(i)) {
            i = i + 1;
            assert(tokens(line@) == views(toks@) + tokens(line@.skip(i as int)));
        } else {
            let mut j: usize = i + 1;
            while j < n && !blank(line.get_char(j))
                invariant
                    i < j <= n,
                    n == line@.len(),
                    rest == line@.skip(i as int),
                    word_len(rest) == (j - i) + word_len(line@.skip(j as int)),
                decreases n - j,
            {
                assert(line@.skip(j as int).drop_first() =~= line@.skip(j + 1));
                j = j + 1;
            }
            let ghost k = (j - i) as int;
            assert(word_len(rest) == k);
            assert(rest.take(k) =~= line@.subrange(i as int, j as int));
            assert(rest.skip(k) =~= line@.skip(j as int));
            let tok = String::from_str(line.substring_char(i, j));
            let ghost before = toks@;
            toks.push(tok);
            assert(views(toks@) =~= views(before) + seq![rest.take(k)]);
            i = j;
        }
    }
    assert(line@.skip(n as int) =~= Seq::<char>::empty());
    assert(views(toks@) + tokens(line@.skip(n as int)) =~= views(toks@));
    toks
}

/// Reads an `i32` written in decimal (see `int_of`).
pub fn parse_age(s: &str) -> (r: Option<i32>)
    ensures
        int_of(s@) == (match r {
            Some(v) => Some(v as int),
            None => None,
        }),
{
    let n = s.unicode_len();
    let mut start: usize = 0;
    let mut negative = false;
    if n > 0 {
        let c = s.get_char(0);
        if c == '-' {
            negative = true;
            start = 1;
        } else if c == '+' {
            start = 1;
        }
    }
    let ghost body = unsigned_part(s@);
    assert(body =~= s@.skip(start as int));
    if start == n {
        return None;
    }
    let mut acc: i64 = 0;
    let mut i: usize = start;
    while i < n
        invariant
            start <= i <= n,
            n == s@.len(),
            body == s@.skip(start as int),
            body == unsigned_part(s@),
            negative == (s@.len() > 0 && s@[0] == '-'),
            forall|k: int| 0 <= k < i - start ==> is_digit(#[trigger] body[k]),
            acc == digits_value(body.take(i - start)),
            0 <= acc <= 2147483648,
        decreases n - i,
    {
        let c = s.get_char(i);
        if !(('0' as u32) <= (c as u32) && (c as u32) <= ('9' as u32)) {
            assert(body[i - start] == c);
            assert(!is_digit(body[i - start]));
            proof {
                lemma_int_of_none(s@);
            }
            return None;
        }
        let ghost prefix = body.take(i + 1 - start);
        assert(prefix.drop_last() =~= body.take(i - start));
        assert(prefix.last() == c);
        acc = acc * 10 + ((c as u32) - ('0' as u32)) as i64;
        assert(acc == digits_value(prefix));
        i = i + 1;
        if acc > 2147483648 {
            proof {
                if forall|k: int| 0 <= k < body.len() ==> is_digit(#[trigger] body[k]) {
                    lemma_digits_value_prefix(body, i - start);
                }
                lemma_int_of_none(s@);
            }
            return None;
        }
    }
    assert(body.take(n - start) =~= body);
    if negative {
        Some((-acc) as i32)
    } else if acc <= 2147483647 {
        Some(acc as i32)
    } else {
        None
    }
}

/// A malformed command line.
#[derive(Clone, Copy, Debug, PartialEq, Eq, Structural)]
pub enum CommandError {
    /// An unknown verb, a blank line, or a wrong number of arguments.
    Malformed,
    /// An age field that is not a decimal `i32`.
    InvalidInteger,
}

/// One command line, read.
#[derive(Debug)]
pub enum Command {
    Insert { age: i32, name: String },
    Erase { age: i32, name: String },
    Contains { age: i32, name: String },
    Print,
    Reset,
    Exit,
    Error(CommandError),
}

/// Whether the tokens `t` are the verb `v` alone.
pub open spec fn is_bare(t: Seq<Seq<char>>, v: char) -> bool {
    t.len() == 1 && t[0] == seq![v]
}

/// Whether the tokens `t` are the verb `v` with two arguments.
pub open spec fn is_record_verb(t: Seq<Seq<char>>, v: char) -> bool {
    t.len() == 3 && t[0] == seq![v]
}

/// Whether `c` is what a line whose tokens are `t` asks for: a bare `p`,
/// `q` or `x`; or `i`, `e` or `c` followed by an age and a name; any other
/// line is malformed.
pub open spec fn reads_as(t: Seq<Seq<char>>, c: Command) -> bool {
    match c {
        Command::Print => is_bare(t, 'p'),
        Command::Exit => is_bare(t, 'q'),
        Command::Reset => is_bare(t, 'x'),
        Command::Insert { age, name } => is_record_verb(t, 'i') && int_of(t[1]) == Some(age as int)
            && name@ == t[2],
        Command::Erase { age, name } => is_record_verb(t, 'e') && int_of(t[1]) == Some(age as int)
            && name@ == t[2],
        Command::Contains { age, name } => is_record_verb(t, 'c') && int_of(t[1]) == Some(
            age as int,
        ) && name@ == t[2],
        Command::Error(CommandError::InvalidInteger) => (is_record_verb(t, 'i') || is_record_verb(
            t,
            'e',
        ) || is_record_verb(t, 'c')) && int_of(t[1]) is None,
        Command::Error(CommandError::Malformed) => !is_bare(t, 'p') && !is_bare(t, 'q') && !is_bare(
            t,
            'x',
        ) && !is_record_verb(t, 'i') && !is_record_verb(t, 'e') && !is_record_verb(t, 'c'),
    }
}

/// Whether the string is the one character `v`.
fn is_verb(s: &String, v: char) -> (r: bool)
    ensures
        r == (s@ == seq![v]),
{
    let t = s.as_str();
    if t.unicode_len() != 1 {
        return false;
    }
    let c = t.get_char(0);
    assert(c == v ==> s@ =~= seq![v]);
    c == v
}

/// Reads one command line.
pub fn parse_command(input: String) -> (c: Command)
    ensures
        reads_as(tokens(input@), c),
{
    let items = split_tokens(input.as_str());
    let ghost t = tokens(input@);
    assert(items@.len() == t.len());
    assert(forall|k: int| 0 <= k < t.len() ==> #[trigger] t[k] == items@[k]@);
    let n = items.len();
    if n == 1 {
        if is_verb(&items[0], 'p') {
            Command::Print
        } else if is_verb(&items[0], 'q') {
            Command::Exit
        } else if is_verb(&items[0], 'x') {
            Command::Reset
        } else {
            Command::Error(CommandError::Malformed)
        }
    } else if n == 3 {
        let insert = is_verb(&items[0], 'i');
        let erase = is_verb(&items[0], 'e');
        let contains = is_verb(&items[0], 'c');
        if !(insert || erase || contains) {
            return Command::Error(CommandError::Malformed);
        }
        match parse_age(items[1].as_str()) {
            None => Command::Error(CommandError::InvalidInteger),
            Some(age) => {
                let name = items[2].clone();
                if insert {
                    Command::Insert { age, name }
                } else if erase {
                    Command::Erase { age, name }
                } else {
                    Command::Contains { age, name }
                }
            },
        }
    } else {
        Command::Error(CommandError::Malformed)
    }
}

/// What the interface does once a command has run.
#[derive(Debug)]
pub enum Reply {
    /// Nothing to show.
    Silent,
    /// A line to show.
    Show(String),
    /// The line was malformed; the interface reports it and goes on.
    Complain(CommandError),
    /// The interface stops.
    Quit,
}

/// Whether `r` shows exactly the text `t`.
pub open spec fn shows(r: Reply, t: Seq<char>) -> bool {
    match r {
        Reply::Show(s) => s@ == t,
        _ => false,
    }
}

/// Runs one command on the tree and says what the interface is to do next.
pub fn run_command(tree: &mut SortedContainer, cmd: Command) -> (r: Reply)
    ensures
        match cmd {
            Command::Insert { age, name } => final(tree).tree() == inserted(
                old(tree).tree(),
                Data { name, age },
            ) && r == Reply::Silent,
            Command::Erase { age, name } => final(tree).tree() == removed(
                old(tree).tree(),
                (age as int, name@),
            ) && r == Reply::Silent,
            Command::Contains { age, name } => *final(tree) == *old(tree) && shows(
                r,
                if old(tree).reaches((age as int, name@)) {
                    "y"@
                } else {
                    "n"@
                },
            ),
            Command::Print => *final(tree) == *old(tree) && shows(r, old(tree).text()),
            Command::Reset => final(tree).tree().is_none() && final(tree)@ == Multiset::<(int, Seq<char>)>::empty()
                && final(tree).text() == "null"@ && r == Reply::Silent,
            Command::Exit => *final(tree) == *old(tree) && r == Reply::Quit,
            Command::Error(e) => *final(tree) == *old(tree) && r == Reply::Complain(e),
        },
{
    match cmd {
        Command::Insert { age, name } => {
            tree.insert_node(Data { name, age });
            Reply::Silent
        },
        Command::Erase { age, name } => {
            tree.delete(&Data { name, age });
            Reply::Silent
        },
        Command::Contains { age, name } => {
            if tree.contains(&Data { name, age }) {
                Reply::Show(String::from_str("y"))
            } else {
                Reply::Show(String::from_str("n"))
            }
        },
        Command::Print => Reply::Show(tree.serialize()),
        Command::Reset => {
            tree.reset();
            Reply::Silent
        },
        Command::Exit => Reply::Quit,
        Command::Error(e) => Reply::Complain(e),
    }
}

} // verus!
