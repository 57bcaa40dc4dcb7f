//! The abbreviation of one header cell.

use vstd::prelude::*;
use vstd::std_specs::cmp::PartialEqSpecImpl;

verus! {

/// The first letters of the leading words of a header cell, in lower case.
#[derive(Debug)]
pub struct Token {
    pub text: String,
}

impl View for Token {
    type V = Seq<char>;

    open spec fn view(&self) -> Seq<char> {
        self.text@
    }
}

impl DeepView for Token {
    type V = Seq<char>;

    open spec fn deep_view(&self) -> Seq<char> {
        self.text@
    }
}

impl Clone for Token {
    fn clone(&self) -> (r: Token)
        ensures
            r@ == self@,
    {
        Token { text: self.text.clone() }
    }
}

impl PartialEq for Token {
    fn eq(&self, other: &Token) -> (r: bool) {
        self.text == other.text
    }
}

impl Eq for Token {

}

impl PartialEqSpecImpl for Token {
    open spec fn obeys_eq_spec() -> bool {
        true
    }

    open spec fn eq_spec(&self, other: &Token) -> bool {
        self.text@ == other.text@
    }
}

/// Two tokens compare equal exactly if they hold the same characters.
pub proof fn lemma_token_equality()
    ensures
        vstd::laws_eq::obeys_view_eq::<Token>(),
{
    reveal(vstd::laws_eq::obeys_view_eq);
}

} // verus!
