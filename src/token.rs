use vstd::prelude::*;

verus! {

/// A fungible asset: a native coin named by its denomination, or a token
/// contract named by its address.
#[derive(Clone, Debug, PartialEq, Eq)]
pub enum Token {
    Native { denom: String },
    Cw20 { address: String },
}

impl Token {
    /// A copy of this descriptor.
    pub fn duplicate(&self) -> (r: Token)
        ensures
            r == *self,
    {
        match self {
            Token::Native { denom } => Token::Native { denom: denom.clone() },
            Token::Cw20 { address } => Token::Cw20 { address: address.clone() },
        }
    }

    /// Whether two asset descriptors name the same asset.
    pub open spec fn same_spec(&self, other: &Token) -> bool {
        match (self, other) {
            (Token::Native { denom: a }, Token::Native { denom: b }) => a@ == b@,
            (Token::Cw20 { address: a }, Token::Cw20 { address: b }) => a@ == b@,
            _ => false,
        }
    }

    /// Whether `self` and `other` name the same asset.
    pub fn same_as(&self, other: &Token) -> (r: bool)
        ensures
            r == self.same_spec(other),
    {
        match (self, other) {
            (Token::Native { denom: a }, Token::Native { denom: b }) => a.eq(b),
            (Token::Cw20 { address: a }, Token::Cw20 { address: b }) => a.eq(b),
            _ => false,
        }
    }
}

/// A copy of an optional text.
pub fn copy_text(o: &Option<String>) -> (r: Option<String>)
    ensures
        r == *o,
{
    match o {
        Some(s) => Some(s.clone()),
        None => None,
    }
}

} // verus!
