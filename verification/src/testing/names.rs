//! The hashes that the generated test chain gives its blocks: `block-` followed by the index in decimal.
use vstd::prelude::*;
use vstd::string::StringExecFns;

use super::GENESIS_HASH;

verus! {

/// The genesis hash as a character sequence.
pub open spec fn genesis() -> Seq<char> {
    GENESIS_HASH@
}

/// The character of a decimal digit.
pub open spec fn digit_char(d: nat) -> char {
    if d == 0 {
        '0'
    } else if d == 1 {
        '1'
    } else if d == 2 {
        '2'
    } else if d == 3 {
        '3'
    } else if d == 4 {
        '4'
    } else if d == 5 {
        '5'
    } else if d == 6 {
        '6'
    } else if d == 7 {
        '7'
    } else if d == 8 {
        '8'
    } else {
        '9'
    }
}

/// The decimal representation of `n`, most significant digit first, without leading zeros.
pub open spec fn decimal(n: nat) -> Seq<char>
    decreases n,
{
    if n < 10 {
        seq![digit_char(n)]
    } else {
        decimal(n / 10).push(digit_char(n % 10))
    }
}

/// The hash of the `i`-th generated block.
pub open spec fn block_name(i: nat) -> Seq<char> {
    "block-"@ + decimal(i)
}

/// Writes `i` in decimal with `format!`.
/// Claimed of `format!("{i}")`: `i` in decimal, as `usize`'s `Display` writes it (no sign, no
/// padding, no leading zeros, `0` for zero).
#[verifier::external_body]
pub(crate) fn decimal_string(i: usize) -> (r: String)
    ensures
        r@ == decimal(i as nat),
{
    format!("{i}")
}

/// The hash of the `i`-th generated block: `block-` followed by `i` in decimal.
pub(crate) fn block_hash(i: usize) -> (r: String)
    ensures
        r@ == block_name(i as nat),
{
    let digits = decimal_string(i);
    "block-".to_owned().concat(digits.as_str())
}

/// Builds the genesis hash as an owned string.
pub fn genesis_string() -> (r: String)
    ensures
        r@ == genesis(),
{
    GENESIS_HASH.to_owned()
}

proof fn lemma_digit_char_injective(a: nat, b: nat)
    requires
        a < 10,
        b < 10,
        digit_char(a) == digit_char(b),
    ensures
        a == b,
{
}

proof fn lemma_decimal_len(n: nat)
    ensures
        decimal(n).len() >= 1,
        n >= 10 ==> decimal(n).len() >= 2,
    decreases n,
{
    if n >= 10 {
        lemma_decimal_len(n / 10);
    }
}

/// Distinct numbers have distinct decimal representations.
pub proof fn lemma_decimal_injective(a: nat, b: nat)
    requires
        decimal(a) == decimal(b),
    ensures
        a == b,
    decreases a,
{
    lemma_decimal_len(a);
    lemma_decimal_len(b);
    if a < 10 && b < 10 {
        assert(decimal(a)[0] == digit_char(a));
        assert(decimal(b)[0] == digit_char(b));
        lemma_digit_char_injective(a, b);
    } else if a >= 10 && b >= 10 {
        let da = decimal(a);
        let db = decimal(b);
        assert(da.drop_last() =~= decimal(a / 10));
        assert(db.drop_last() =~= decimal(b / 10));
        assert(da.last() == digit_char(a % 10));
        assert(db.last() == digit_char(b % 10));
        lemma_decimal_injective(a / 10, b / 10);
        lemma_digit_char_injective(a % 10, b % 10);
    }
}

/// Distinct indices give distinct block hashes, and no block hash is the genesis hash.
pub proof fn lemma_block_name_distinct(i: nat, j: nat)
    ensures
        block_name(i) == block_name(j) ==> i == j,
        block_name(i) != genesis(),
{
    reveal_strlit("block-");
    reveal_strlit("genesis");
    let p = "block-"@;
    if block_name(i) == block_name(j) {
        assert(block_name(i).subrange(6, block_name(i).len() as int) =~= decimal(i));
        assert(block_name(j).subrange(6, block_name(j).len() as int) =~= decimal(j));
        lemma_decimal_injective(i, j);
    }
    assert(block_name(i)[0] == 'b');
    assert(genesis()[0] == 'g');
}

} // verus!
