//! A denominated amount of native value, and the search for the payment a
//! caller attached in the configured denomination.
use vstd::prelude::*;

use crate::error::ContractError;

verus! {

/// An amount of a named native denomination.
#[derive(Debug)]
pub struct Coin {
    pub denom: String,
    pub amount: u128,
}

impl Clone for Coin {
    fn clone(&self) -> (r: Self)
        ensures
            r == *self,
    {
        Coin { denom: self.denom.clone(), amount: self.amount }
    }
}

/// The first index whose denomination reads as `d`, or `-1` if none does.
pub open spec fn find_denom(s: Seq<Coin>, d: Seq<char>) -> int
    decreases s.len(),
{
    if s.len() == 0 {
        -1
    } else if s[0].denom@ == d {
        0
    } else {
        let r = find_denom(s.drop_first(), d);
        if r < 0 {
            -1
        } else {
            r + 1
        }
    }
}

pub proof fn lemma_find_denom(s: Seq<Coin>, d: Seq<char>)
    ensures
        find_denom(s, d) >= 0 ==> {
            &&& find_denom(s, d) < s.len()
            &&& s[find_denom(s, d)].denom@ == d
        },
        find_denom(s, d) < 0 ==> forall|i: int| 0 <= i < s.len() ==> s[i].denom@ != d,
    decreases s.len(),
{
    if s.len() > 0 && s[0].denom@ != d {
        lemma_find_denom(s.drop_first(), d);
        if find_denom(s.drop_first(), d) < 0 {
            assert forall|i: int| 0 <= i < s.len() implies s[i].denom@ != d by {
                if i > 0 {
                    assert(s.drop_first()[i - 1].denom@ != d);
                }
            }
        }
    }
}

pub proof fn lemma_find_denom_at(s: Seq<Coin>, d: Seq<char>, j: int)
    requires
        0 <= j < s.len(),
        s[j].denom@ == d,
        forall|i: int| 0 <= i < j ==> s[i].denom@ != d,
    ensures
        find_denom(s, d) == j,
    decreases j,
{
    if j > 0 {
        assert forall|i: int| 0 <= i < j - 1 implies s.drop_first()[i].denom@ != d by {
            assert(s[i + 1].denom@ != d);
        }
        lemma_find_denom_at(s.drop_first(), d, j - 1);
    }
}

/// The amount of the first attached coin in denomination `denom`, or
/// `EmptyBalance` if the caller attached none.
pub fn find_payment(funds: &Vec<Coin>, denom: &String) -> (r: Result<u128, ContractError>)
    ensures
        find_denom(funds@, denom@) >= 0 ==> r == Ok::<u128, ContractError>(
            funds@[find_denom(funds@, denom@)].amount,
        ),
        find_denom(funds@, denom@) < 0 ==> r == Err::<u128, ContractError>(
            ContractError::EmptyBalance { denom: *denom },
        ),
{
    let n = funds.len();
    let mut i: usize = 0;
    while i < n
        invariant
            0 <= i <= n,
            forall|j: int| 0 <= j < i ==> funds@[j].denom@ != denom@,
        decreases n - i,
    {
        if funds[i].denom == *denom {
            proof {
                lemma_find_denom_at(funds@, denom@, i as int);
            }
            return Ok(funds[i].amount);
        }
        i = i + 1;
    }
    proof {
        lemma_find_denom(funds@, denom@);
        if find_denom(funds@, denom@) >= 0 {
            assert(false);
        }
    }
    Err(ContractError::EmptyBalance { denom: denom.clone() })
}

} // verus!
