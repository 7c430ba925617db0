//! Keys under which the governance component files its records in the
//! key-value store.

use vstd::prelude::*;
use vstd::string::*;

verus! {

/// The one-character rendering of a decimal digit.
pub open spec fn digit(d: nat) -> Seq<char>
    recommends
        d < 10,
{
    if d == 0 {
        "0"@
    } else if d == 1 {
        "1"@
    } else if d == 2 {
        "2"@
    } else if d == 3 {
        "3"@
    } else if d == 4 {
        "4"@
    } else if d == 5 {
        "5"@
    } else if d == 6 {
        "6"@
    } else if d == 7 {
        "7"@
    } else if d == 8 {
        "8"@
    } else {
        "9"@
    }
}

/// The decimal rendering of a number: no sign, no leading zeros, `0` for zero.
pub open spec fn decimal(n: nat) -> Seq<char>
    decreases n,
{
    if n < 10 {
        digit(n)
    } else {
        decimal(n / 10) + digit(n % 10)
    }
}

/// The part that the keys of one proposal share.
pub open spec fn proposal_prefix(proposal_id: nat) -> Seq<char> {
    "governance/proposal/"@ + decimal(proposal_id) + "/"@
}

fn digit_str(d: u64) -> (s: &'static str)
    requires
        d < 10,
    ensures
        s@ == digit(d as nat),
{
    if d == 0 {
        "0"
    } else if d == 1 {
        "1"
    } else if d == 2 {
        "2"
    } else if d == 3 {
        "3"
    } else if d == 4 {
        "4"
    } else if d == 5 {
        "5"
    } else if d == 6 {
        "6"
    } else if d == 7 {
        "7"
    } else if d == 8 {
        "8"
    } else {
        "9"
    }
}

/// Renders a number in decimal.
pub fn render_decimal(n: u64) -> (s: String)
    ensures
        s@ == decimal(n as nat),
    decreases n,
{
    if n < 10 {
        String::from_str(digit_str(n))
    } else {
        render_decimal(n / 10).concat(digit_str(n % 10))
    }
}

fn proposal_key(proposal_id: u64, field: &str) -> (key: String)
    ensures
        key@ == proposal_prefix(proposal_id as nat) + field@,
{
    let key = String::from_str("governance/proposal/");
    let key = key.concat(render_decimal(proposal_id).as_str());
    let key = key.concat("/");
    key.concat(field)
}

/// The key of the counter that holds the next free proposal id.
pub fn next_proposal_id() -> (key: &'static str)
    ensures
        key@ == "governance/next_proposal_id"@,
{
    "governance/next_proposal_id"
}

/// The key of a proposal's definition.
pub fn proposal_definition(proposal_id: u64) -> (key: String)
    ensures
        key@ == proposal_prefix(proposal_id as nat) + "data"@,
{
    proposal_key(proposal_id, "data")
}

/// The key of a proposal's state.
pub fn proposal_state(proposal_id: u64) -> (key: String)
    ensures
        key@ == proposal_prefix(proposal_id as nat) + "state"@,
{
    proposal_key(proposal_id, "state")
}

/// The key of the amount deposited with a proposal.
pub fn proposal_deposit_amount(proposal_id: u64) -> (key: String)
    ensures
        key@ == proposal_prefix(proposal_id as nat) + "deposit_amount"@,
{
    proposal_key(proposal_id, "deposit_amount")
}

/// The key of the height at which voting on a proposal starts.
pub fn proposal_voting_start(proposal_id: u64) -> (key: String)
    ensures
        key@ == proposal_prefix(proposal_id as nat) + "voting_start"@,
{
    proposal_key(proposal_id, "voting_start")
}

/// The key of the height at which voting on a proposal ends.
pub fn proposal_voting_end(proposal_id: u64) -> (key: String)
    ensures
        key@ == proposal_prefix(proposal_id as nat) + "voting_end"@,
{
    proposal_key(proposal_id, "voting_end")
}

/// The key of the list of proposals that are not yet finished.
pub fn unfinished_proposals() -> (key: &'static str)
    ensures
        key@ == "governance/unfinished_proposals"@,
{
    "governance/unfinished_proposals"
}

/// The prefix shared by the keys of all validator votes on a proposal.
pub fn voting_validators_list(proposal_id: u64) -> (key: String)
    ensures
        key@ == proposal_prefix(proposal_id as nat) + "validator_vote/"@,
{
    proposal_key(proposal_id, "validator_vote/")
}

/// The key of one validator's vote on a proposal. The validator is named by
/// the text form of its identity key.
pub fn validator_vote(proposal_id: u64, identity_key: &str) -> (key: String)
    ensures
        key@ == proposal_prefix(proposal_id as nat) + "validator_vote/"@ + identity_key@,
{
    voting_validators_list(proposal_id).concat(identity_key)
}

/// Whether a character is one of the ten digits.
pub open spec fn is_digit(c: char) -> bool {
    0x30 <= c as u32 <= 0x39
}

/// The rendering of a digit is one character: that digit.
proof fn lemma_digit(d: nat)
    requires
        d < 10,
    ensures
        digit(d).len() == 1,
        digit(d)[0] as u32 == 0x30 + d,
{
    reveal_strlit("0");
    reveal_strlit("1");
    reveal_strlit("2");
    reveal_strlit("3");
    reveal_strlit("4");
    reveal_strlit("5");
    reveal_strlit("6");
    reveal_strlit("7");
    reveal_strlit("8");
    reveal_strlit("9");
}

/// The decimal rendering of a number is not empty, and holds digits only.
pub proof fn lemma_decimal_digits(n: nat)
    ensures
        decimal(n).len() >= 1,
        forall|i: int| 0 <= i < decimal(n).len() ==> is_digit(#[trigger] decimal(n)[i]),
    decreases n,
{
    if n < 10 {
        lemma_digit(n);
    } else {
        lemma_decimal_digits(n / 10);
        lemma_digit(n % 10);
    }
}

/// Different numbers have different decimal renderings.
pub proof fn lemma_decimal_injective(a: nat, b: nat)
    requires
        decimal(a) == decimal(b),
    ensures
        a == b,
    decreases a,
{
    lemma_decimal_digits(a / 10);
    lemma_decimal_digits(b / 10);
    lemma_digit(a % 10);
    lemma_digit(b % 10);
    if a < 10 && b < 10 {
    } else if a < 10 {
        assert(decimal(b).len() >= 2);
    } else if b < 10 {
        assert(decimal(a).len() >= 2);
    } else {
        let x = decimal(a / 10);
        let y = decimal(b / 10);
        let s = x + digit(a % 10);
        let t = y + digit(b % 10);
        assert(s.len() == x.len() + 1);
        assert(t.len() == y.len() + 1);
        assert(s[x.len() as int] == digit(a % 10)[0]);
        assert(t[y.len() as int] == digit(b % 10)[0]);
        assert(x =~= s.subrange(0, x.len() as int));
        assert(y =~= t.subrange(0, y.len() as int));
        lemma_decimal_injective(a / 10, b / 10);
    }
}

/// No two keys of proposals are the same text unless they are the same key:
/// the text behind `governance/proposal/` fixes the proposal and what follows
/// its number.
pub proof fn lemma_keys_differ(a: nat, f: Seq<char>, b: nat, g: Seq<char>)
    requires
        proposal_prefix(a) + f == proposal_prefix(b) + g,
    ensures
        a == b,
        f == g,
{
    reveal_strlit("/");
    let head = "governance/proposal/"@;
    let slash = "/"@;
    let x = decimal(a);
    let y = decimal(b);
    let s = proposal_prefix(a) + f;
    let t = proposal_prefix(b) + g;
    lemma_decimal_digits(a);
    lemma_decimal_digits(b);
    let n = head.len() as int;
    assert(s.len() == n + x.len() + 1 + f.len());
    assert(t.len() == n + y.len() + 1 + g.len());
    assert(s[n + x.len()] == slash[0]);
    assert(t[n + y.len()] == slash[0]);
    if x.len() < y.len() {
        assert(t[n + x.len()] == y[x.len() as int]);
        assert(is_digit(y[x.len() as int]));
    } else if y.len() < x.len() {
        assert(s[n + y.len()] == x[y.len() as int]);
        assert(is_digit(x[y.len() as int]));
    } else {
        assert(x =~= s.subrange(n, n + x.len()));
        assert(y =~= t.subrange(n, n + y.len()));
        lemma_decimal_injective(a, b);
        assert(f =~= s.subrange(n + x.len() + 1, s.len() as int));
        assert(g =~= t.subrange(n + y.len() + 1, t.len() as int));
    }
}

} // verus!
