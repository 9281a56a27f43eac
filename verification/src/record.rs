//! Account records and their textual leaf encoding.
//!
//! Each record carries a stable identifier, a dense zero-based position in
//! the leaf order, and a balance. A record enters the tree as the text
//! `(id,balance)` with both numbers written in decimal.

use vstd::prelude::*;
use vstd::string::StringExecFns;

verus! {

/// One account record: the tree's leaf `idx` commits to `(id,balance)`.
#[derive(Debug)]
pub struct User {
    pub id: u32,
    pub idx: u32,
    pub balance: u32,
}

/// The decimal digit character for a value below 10.
pub open spec fn spec_dec_digit(n: nat) -> char
    recommends
        n < 10,
{
    seq!['0', '1', '2', '3', '4', '5', '6', '7', '8', '9'][n as int]
}

/// The decimal representation of a natural number, most significant digit
/// first, with no leading zeros (a sole `0` for zero itself).
pub open spec fn spec_decimal(n: nat) -> Seq<char>
    decreases n,
{
    if n < 10 {
        seq![spec_dec_digit(n)]
    } else {
        spec_decimal(n / 10).push(spec_dec_digit(n % 10))
    }
}

/// The leaf text committed for a record: `(id,balance)` in decimal.
pub open spec fn spec_record_line(id: nat, balance: nat) -> Seq<char> {
    seq!['('] + spec_decimal(id) + seq![','] + spec_decimal(balance) + seq![')']
}

/// The one-character string for a decimal digit.
fn decimal_digit_str(d: u32) -> (s: &'static str)
    requires
        d < 10,
    ensures
        s@ == seq![spec_dec_digit(d as nat)],
{
    proof {
        reveal_strlit("0");
        reveal_strlit("1");
        reveal_strlit("2");
        reveal_strlit("3");
        reveal_strlit("4");
        reveal_strlit("5");
        reveal_strlit("6");
        reveal_strlit("7");
        reveal_strlit("8");
        reveal_strlit("9");
    }
    let s = match d {
        0 => "0",
        1 => "1",
        2 => "2",
        3 => "3",
        4 => "4",
        5 => "5",
        6 => "6",
        7 => "7",
        8 => "8",
        _ => "9",
    };
    proof {
        assert(s@ =~= seq![spec_dec_digit(d as nat)]);
    }
    s
}

/// Write `n` in decimal.
pub fn u32_string(n: u32) -> (s: String)
    ensures
        s@ == spec_decimal(n as nat),
    decreases n,
{
    if n < 10 {
        decimal_digit_str(n).to_owned()
    } else {
        let mut s = u32_string(n / 10);
        let d = decimal_digit_str(n % 10);
        s.append(d);
        proof {
            assert(s@ =~= spec_decimal(n as nat));
        }
        s
    }
}

/// The leaf text `(id,balance)` for a record's identifier and balance.
pub fn record_string(id: u32, balance: u32) -> (s: String)
    ensures
        s@ == spec_record_line(id as nat, balance as nat),
{
    let mut s = "(".to_owned();
    let id_s = u32_string(id);
    s.append(id_s.as_str());
    s.append(",");
    let bal_s = u32_string(balance);
    s.append(bal_s.as_str());
    s.append(")");
    proof {
        reveal_strlit("(");
        reveal_strlit(",");
        reveal_strlit(")");
        assert(s@ =~= spec_record_line(id as nat, balance as nat));
    }
    s
}

} // verus!
