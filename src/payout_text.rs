use crate::template::{find_char, first_index, lemma_first_index};
use vstd::prelude::*;
use vstd::string::*;

verus! {

/// Why the text of a pay-out was refused.
#[derive(Clone, Copy, Debug, PartialEq, Eq, Structural)]
pub enum PayoutParseError {
    /// A line that is neither empty, a comment, nor `name: amount`.
    InvalidFormat,
    /// A line names nobody at the table.
    InvalidUser,
    /// No line gave an amount.
    NoPayouts,
    /// A player's amounts add up to more than `u64` holds.
    Overflow,
}

/// Unicode `White_Space`, the whitespace of `char::is_whitespace`.
pub open spec fn is_white_space(c: char) -> bool {
    ||| '\u{9}' <= c <= '\u{D}'
    ||| c == ' '
    ||| c == '\u{85}'
    ||| c == '\u{A0}'
    ||| c == '\u{1680}'
    ||| '\u{2000}' <= c <= '\u{200A}'
    ||| c == '\u{2028}'
    ||| c == '\u{2029}'
    ||| c == '\u{202F}'
    ||| c == '\u{205F}'
    ||| c == '\u{3000}'
}

pub open spec fn trim_start(s: Seq<char>) -> Seq<char>
    decreases s.len(),
{
    if s.len() > 0 && is_white_space(s[0]) {
        trim_start(s.drop_first())
    } else {
        s
    }
}

pub open spec fn trim_end(s: Seq<char>) -> Seq<char>
    decreases s.len(),
{
    if s.len() > 0 && is_white_space(s.last()) {
        trim_end(s.drop_last())
    } else {
        s
    }
}

/// `s` without leading and trailing whitespace.
pub open spec fn trimmed(s: Seq<char>) -> Seq<char> {
    trim_end(trim_start(s))
}

/// Relies on `str::trim`: removes leading and trailing Unicode `White_Space`.
#[verifier::external_body]
fn trim(s: &str) -> (r: &str)
    ensures
        r@ == trimmed(s@),
{
    s.trim()
}

/// The number written by ASCII digits.
pub open spec fn digits_value(s: Seq<char>) -> int
    decreases s.len(),
{
    if s.len() == 0 {
        0
    } else {
        digits_value(s.drop_last()) * 10 + (s.last() as int - '0' as int)
    }
}

/// What `u64`'s `FromStr` reads: an optional `+`, then at least one ASCII digit, and a
/// value that fits.
pub open spec fn parsed_u64(s: Seq<char>) -> Option<u64> {
    let d = if s.len() > 0 && s[0] == '+' {
        s.drop_first()
    } else {
        s
    };
    if d.len() > 0 && (forall|i: int| 0 <= i < d.len() ==> '0' <= #[trigger] d[i] <= '9')
        && digits_value(d) <= u64::MAX {
        Some(digits_value(d) as u64)
    } else {
        None
    }
}

/// Relies on `u64`'s `FromStr`, which reads an optional `+` and decimal digits, and
/// refuses anything else or a value that overflows.
#[verifier::external_body]
fn parse_amount(s: &str) -> (r: Option<u64>)
    ensures
        r == parsed_u64(s@),
{
    s.parse::<u64>().ok()
}

/// The lines of `s`, split at each `\n`.
pub open spec fn split_lines(s: Seq<char>) -> Seq<Seq<char>>
    decreases s.len(),
{
    let i = first_index(s, '\n');
    if i >= s.len() {
        seq![s]
    } else {
        seq![s.subrange(0, i as int)] + split_lines(s.subrange(i + 1 as int, s.len() as int))
    }
}

/// The user known by `name`; a later entry wins over an earlier one of the same name.
pub open spec fn lookup(names: Seq<(Seq<char>, u64)>, name: Seq<char>) -> Option<u64>
    decreases names.len(),
{
    if names.len() == 0 {
        None
    } else if names.last().0 == name {
        Some(names.last().1)
    } else {
        lookup(names.drop_last(), name)
    }
}

/// Index of the first pay-out to `u`, or the length.
pub open spec fn find_user(acc: Seq<(u64, u64)>, u: u64) -> nat
    decreases acc.len(),
{
    if acc.len() == 0 {
        0
    } else if acc[0].0 == u {
        0
    } else {
        1 + find_user(acc.drop_first(), u)
    }
}

/// The pay-outs after adding `x` to `u`'s, in order of first mention.
pub open spec fn add_payout(acc: Seq<(u64, u64)>, u: u64, x: u64) -> Option<Seq<(u64, u64)>> {
    let i = find_user(acc, u);
    if i < acc.len() {
        if acc[i as int].1 + x > u64::MAX {
            None
        } else {
            Some(acc.update(i as int, (u, (acc[i as int].1 + x) as u64)))
        }
    } else {
        Some(acc.push((u, x)))
    }
}

/// What one line contributes.
pub enum LineEffect {
    Skip,
    Add(u64, u64),
    Fail(PayoutParseError),
}

/// A line, once trimmed: empty lines and `#` comments are skipped; otherwise it must read
/// `name: amount`, where the trimmed name is known. An amount that does not parse
/// contributes nothing.
pub open spec fn line_effect(names: Seq<(Seq<char>, u64)>, line: Seq<char>) -> LineEffect {
    let l = trimmed(line);
    if l.len() == 0 || l[0] == '#' {
        LineEffect::Skip
    } else {
        let c = first_index(l, ':');
        if c >= l.len() {
            LineEffect::Fail(PayoutParseError::InvalidFormat)
        } else {
            match lookup(names, trimmed(l.subrange(0, c as int))) {
                None => LineEffect::Fail(PayoutParseError::InvalidUser),
                Some(u) => match parsed_u64(trimmed(l.subrange(c + 1 as int, l.len() as int))) {
                    None => LineEffect::Skip,
                    Some(x) => LineEffect::Add(u, x),
                },
            }
        }
    }
}

/// The pay-outs read from `lines` on top of `acc`, stopping at the first error.
pub open spec fn parse_lines(names: Seq<(Seq<char>, u64)>, lines: Seq<Seq<char>>, acc: Seq<(u64, u64)>) -> Result<
    Seq<(u64, u64)>,
    PayoutParseError,
>
    decreases lines.len(),
{
    if lines.len() == 0 {
        Ok(acc)
    } else {
        match line_effect(names, lines[0]) {
            LineEffect::Skip => parse_lines(names, lines.drop_first(), acc),
            LineEffect::Fail(e) => Err(e),
            LineEffect::Add(u, x) => match add_payout(acc, u, x) {
                None => Err(PayoutParseError::Overflow),
                Some(a) => parse_lines(names, lines.drop_first(), a),
            },
        }
    }
}

/// The pay-outs written in `input`, one `(user, amount)` per player in order of first
/// mention, amounts of the same player added up; no pay-out at all is an error.
pub open spec fn payout_text(names: Seq<(Seq<char>, u64)>, input: Seq<char>) -> Result<
    Seq<(u64, u64)>,
    PayoutParseError,
> {
    match parse_lines(names, split_lines(input), Seq::empty()) {
        Ok(acc) => if acc.len() == 0 {
            Err(PayoutParseError::NoPayouts)
        } else {
            Ok(acc)
        },
        Err(e) => Err(e),
    }
}

pub open spec fn names_view(names: Seq<(String, u64)>) -> Seq<(Seq<char>, u64)> {
    names.map_values(|p: (String, u64)| (p.0@, p.1))
}

fn lookup_name(names: &Vec<(String, u64)>, name: &str) -> (r: Option<u64>)
    ensures
        r == lookup(names_view(names@), name@),
{
    let key = String::from_str(name);
    let ghost nv = names_view(names@);
    let mut i: usize = names.len();
    assert(nv.subrange(0, i as int) =~= nv);
    while i > 0
        invariant
            0 <= i <= names@.len(),
            nv == names_view(names@),
            key@ == name@,
            lookup(nv, name@) == lookup(nv.subrange(0, i as int), name@),
        decreases i,
    {
        let ghost pre = nv.subrange(0, i as int);
        assert(pre.drop_last() =~= nv.subrange(0, i - 1));
        assert(pre.last() == (names@[i - 1].0@, names@[i - 1].1));
        if names[i - 1].0 == key {
            return Some(names[i - 1].1);
        }
        i -= 1;
    }
    assert(nv.subrange(0, 0) =~= Seq::<(Seq<char>, u64)>::empty());
    None
}

pub proof fn lemma_find_user(acc: Seq<(u64, u64)>, u: u64, i: int)
    requires
        0 <= i <= acc.len(),
        forall|k: int| 0 <= k < i ==> (#[trigger] acc[k]).0 != u,
        i == acc.len() || acc[i].0 == u,
    ensures
        find_user(acc, u) == i,
    decreases acc.len(),
{
    if acc.len() > 0 && i > 0 {
        let t = acc.drop_first();
        assert forall|k: int| 0 <= k < i - 1 implies (#[trigger] t[k]).0 != u by {
            assert(t[k] == acc[k + 1]);
        }
        lemma_find_user(t, u, i - 1);
    }
}

fn add_to(acc: &mut Vec<(u64, u64)>, u: u64, x: u64) -> (ok: bool)
    ensures
        ok == add_payout(old(acc)@, u, x) is Some,
        ok ==> Some(final(acc)@) == add_payout(old(acc)@, u, x),
{
    let mut i: usize = 0;
    while i < acc.len() && acc[i].0 != u
        invariant
            0 <= i <= acc@.len(),
            forall|k: int| 0 <= k < i ==> (#[trigger] acc@[k]).0 != u,
        decreases acc@.len() - i,
    {
        i += 1;
    }
    proof {
        lemma_find_user(acc@, u, i as int);
    }
    if i < acc.len() {
        let cur = acc[i].1;
        if cur > u64::MAX - x {
            return false;
        }
        acc.set(i, (u, cur + x));
    } else {
        acc.push((u, x));
    }
    true
}

/// Reads the pay-outs that a dealer wrote, one `name: amount` per line. `names` pairs
/// each player's name with their id.
pub fn parse_payout(names: &Vec<(String, u64)>, input: &str) -> (r: Result<Vec<(u64, u64)>, PayoutParseError>)
    ensures
        match r {
            Ok(v) => payout_text(names_view(names@), input@) == Ok::<Seq<(u64, u64)>, PayoutParseError>(v@),
            Err(e) => payout_text(names_view(names@), input@) == Err::<Seq<(u64, u64)>, PayoutParseError>(e),
        },
{
    let ghost nv = names_view(names@);
    let ghost t = input@;
    let len = input.unicode_len();
    let mut acc: Vec<(u64, u64)> = Vec::new();
    let mut p: usize = 0;
    let mut done = false;
    proof {
        assert(t.subrange(0, len as int) =~= t);
    }
    while !done
        invariant
            p <= len,
            len == t.len(),
            t == input@,
            nv == names_view(names@),
            parse_lines(nv, split_lines(t), Seq::empty()) == parse_lines(
                nv,
                if !done {
                    split_lines(t.subrange(p as int, len as int))
                } else {
                    Seq::<Seq<char>>::empty()
                },
                acc@,
            ),
        decreases len - p + if done { 0int } else { 1int },
    {
        let ghost s = t.subrange(p as int, len as int);
        let i = find_char(input, len, p, '\n');
        let line = input.substring_char(p, i);
        proof {
            assert(s.subrange(0, i - p) =~= line@);
            if i < len {
                assert(s.subrange(i - p + 1, s.len() as int) =~= t.subrange(i + 1, len as int));
            }
            let rest = if i < len {
                split_lines(t.subrange(i + 1, len as int))
            } else {
                Seq::<Seq<char>>::empty()
            };
            assert(split_lines(s).drop_first() =~= rest);
            assert(split_lines(s)[0] == line@);
        }
        let l = trim(line);
        let llen = l.unicode_len();
        if llen == 0 || l.get_char(0) == '#' {
        } else {
            let c = find_char(l, llen, 0, ':');
            assert(l@.subrange(0, llen as int) =~= l@);
            if c == llen {
                return Err(PayoutParseError::InvalidFormat);
            }
            let name = trim(l.substring_char(0, c));
            let user = match lookup_name(names, name) {
                Some(u) => u,
                None => {
                    return Err(PayoutParseError::InvalidUser);
                },
            };
            match parse_amount(trim(l.substring_char(c + 1, llen))) {
                Some(x) => {
                    if !add_to(&mut acc, user, x) {
                        return Err(PayoutParseError::Overflow);
                    }
                },
                None => {},
            }
        }
        if i < len {
            p = i + 1;
        } else {
            done = true;
        }
    }
    if acc.len() == 0 {
        return Err(PayoutParseError::NoPayouts);
    }
    Ok(acc)
}

} // verus!
