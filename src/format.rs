use vstd::prelude::*;
use vstd::string::*;

verus! {

/// The decimal digit for `d` in `0..10`.
pub open spec fn digit_char(d: int) -> char {
    seq!['0', '1', '2', '3', '4', '5', '6', '7', '8', '9'][d]
}

/// The decimal digits of `n`, without sign or leading zeros.
pub open spec fn decimal(n: nat) -> Seq<char>
    decreases n,
{
    if n < 10 {
        seq![digit_char(n as int)]
    } else {
        decimal(n / 10).push(digit_char((n % 10) as int))
    }
}

/// Relies on `ToString` through the `Display` of `u64`: the decimal digits of the number.
#[verifier::external_body]
pub(crate) fn decimal_string(n: u64) -> (r: String)
    ensures
        r@ == decimal(n as nat),
{
    n.to_string()
}

/// An amount of money followed by the currency symbol.
#[derive(Clone, Debug)]
pub struct Currency {
    pub symbol: String,
}

impl Currency {
    /// `"<money> <symbol>"`.
    pub fn fmt(&self, money: u64) -> (r: String)
        ensures
            r@ == decimal(money as nat) + " "@ + self.symbol@,
    {
        let digits = decimal_string(money);
        let spaced = digits.concat(" ");
        spaced.concat(self.symbol.as_str())
    }
}

/// The rank shown on the leaderboard: a medal for the first three, else `"<n>."`.
pub open spec fn placement_text(n: nat) -> Seq<char> {
    if n == 1 {
        "🥇"@
    } else if n == 2 {
        "🥈"@
    } else if n == 3 {
        "🥉"@
    } else {
        decimal(n) + "."@
    }
}

pub fn placement(n: usize) -> (r: String)
    ensures
        r@ == placement_text(n as nat),
{
    if n == 1 {
        String::from_str("🥇")
    } else if n == 2 {
        String::from_str("🥈")
    } else if n == 3 {
        String::from_str("🥉")
    } else {
        decimal_string(n as u64).concat(".")
    }
}

/// The name of a new table: `"<owner>'s <name> Table"`, or `"<owner>'s Table"`.
pub fn table_name(owner: &str, name: Option<&str>) -> (r: String)
    ensures
        r@ == owner@ + "'s "@ + match name {
            Some(n) => n@ + " "@,
            None => Seq::<char>::empty(),
        } + "Table"@,
{
    let s = String::from_str(owner).concat("'s ");
    let s = match name {
        Some(n) => s.concat(n).concat(" "),
        None => s,
    };
    let r = s.concat("Table");
    proof {
        match name {
            Some(n) => {
                assert(r@ =~= owner@ + "'s "@ + (n@ + " "@) + "Table"@);
            },
            None => {
                assert(r@ =~= owner@ + "'s "@ + Seq::<char>::empty() + "Table"@);
            },
        }
    }
    r
}

} // verus!
