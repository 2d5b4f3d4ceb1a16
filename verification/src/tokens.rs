//! The selection of a mint's single holding token account out of a
//! largest-accounts response, and the instruction tag for creating a missing
//! token account.

use crate::text::{parse_u64, spec_parse_u64};
use vstd::prelude::*;

verus! {

/// One token account of a largest-accounts response: its address and its
/// balance, both as the decimal strings the response carries.
pub struct TokenAccount {
    pub address: String,
    pub amount: String,
}

impl View for TokenAccount {
    type V = (Seq<char>, Seq<char>);

    open spec fn view(&self) -> (Seq<char>, Seq<char>) {
        (self.address@, self.amount@)
    }
}

/// A largest-accounts response: the token accounts it lists.
pub struct JRpcResponse {
    pub value: Vec<TokenAccount>,
}

/// The views of a response's accounts.
pub open spec fn accounts_view(s: Seq<TokenAccount>) -> Seq<(Seq<char>, Seq<char>)> {
    s.map_values(|t: TokenAccount| t@)
}

/// An account holding exactly one token.
pub open spec fn holds_one(t: (Seq<char>, Seq<char>)) -> bool {
    spec_parse_u64(t.1) == Some(1u64)
}

/// How many listed accounts hold exactly one token.
pub open spec fn count_holders(s: Seq<(Seq<char>, Seq<char>)>) -> nat
    decreases s.len(),
{
    if s.len() == 0 {
        0
    } else {
        (if holds_one(s[0]) {
            1nat
        } else {
            0nat
        }) + count_holders(s.skip(1))
    }
}

/// The address of the first listed account holding exactly one token.
pub open spec fn first_holder(s: Seq<(Seq<char>, Seq<char>)>) -> Option<Seq<char>>
    decreases s.len(),
{
    if s.len() == 0 {
        None
    } else if holds_one(s[0]) {
        Some(s[0].0)
    } else {
        first_holder(s.skip(1))
    }
}

/// Why no single holding account could be picked.
#[derive(Clone, Copy, Debug, PartialEq, Eq, Structural)]
pub enum TokenAccountError {
    /// More than one listed account holds exactly one token.
    MultipleOneTokenAccounts,
    /// No listed account holds exactly one token.
    NoOneTokenAccounts,
}

/// The address of the unique account holding exactly one token, or the
/// error saying whether too many or none qualify.
pub fn largest_token_account_address(resp: &JRpcResponse) -> (r: Result<String, TokenAccountError>)
    requires
        forall|i: int|
            0 <= i < resp.value@.len() ==> spec_parse_u64(
                #[trigger] accounts_view(resp.value@)[i].1,
            ) is Some,
    ensures
        ({
            let av = accounts_view(resp.value@);
            match r {
                Ok(a) => count_holders(av) == 1 && first_holder(av) == Some(a@),
                Err(TokenAccountError::MultipleOneTokenAccounts) => count_holders(av) > 1,
                Err(TokenAccountError::NoOneTokenAccounts) => count_holders(av) == 0,
            }
        }),
{
    let ghost av = accounts_view(resp.value@);
    let mut count: usize = 0;
    let mut first: Option<String> = None;
    let mut i: usize = 0;
    proof {
        assert(av.skip(0) =~= av);
    }
    while i < resp.value.len()
        invariant
            0 <= i <= resp.value.len(),
            av == accounts_view(resp.value@),
            av.len() == resp.value@.len(),
            forall|k: int| 0 <= k < av.len() ==> spec_parse_u64(#[trigger] av[k].1) is Some,
            count <= i,
            count as nat + count_holders(av.skip(i as int)) == count_holders(av),
            match first {
                Some(a) => first_holder(av) == Some(a@) && count > 0,
                None => first_holder(av) == first_holder(av.skip(i as int)) && count == 0,
            },
        decreases resp.value.len() - i,
    {
        proof {
            assert(av[i as int] == resp.value@[i as int]@);
            assert(av.skip(i as int)[0] == av[i as int]);
            assert(av.skip(i as int).skip(1) =~= av.skip(i + 1));
        }
        match parse_u64(resp.value[i].amount.as_str()) {
            Some(amount) => {
                if amount == 1 {
                    count = count + 1;
                    if count == 1 {
                        first = Some(resp.value[i].address.clone());
                    }
                }
            },
            None => {
                proof {
                    assert(spec_parse_u64(av[i as int].1) is Some);
                    assert(false);
                }
            },
        }
        i += 1;
    }
    proof {
        assert(count_holders(av.skip(av.len() as int)) == 0);
        assert(first_holder(av.skip(av.len() as int)) is None);
    }
    if count > 1 {
        return Err(TokenAccountError::MultipleOneTokenAccounts);
    }
    match first {
        Some(a) => Ok(a),
        None => Err(TokenAccountError::NoOneTokenAccounts),
    }
}

/// An instruction understood by the token-extras helper program.
#[derive(Clone, Copy, Debug, PartialEq, Eq, Structural)]
pub enum TokenExtrasInstruction {
    /// Creates the associated token account for a mint and owner, if and
    /// only if the given token account does not exist yet and is the
    /// associated one; after it, the token account exists.
    CreateTokenIfMissing,
}

impl TokenExtrasInstruction {
    /// The serialized form of the instruction: the one-byte index of its
    /// variant.
    pub fn instruction_data(&self) -> (r: Vec<u8>)
        ensures
            r@ == seq![0u8],
    {
        let mut v: Vec<u8> = Vec::new();
        v.push(0u8);
        proof {
            assert(v@ =~= seq![0u8]);
        }
        v
    }
}

} // verus!
