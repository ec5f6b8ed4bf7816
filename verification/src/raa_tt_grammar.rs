use crate::proposition::Proposition;
use vstd::prelude::*;

verus! {

/// What a text of the language holds: its propositions, in their order.
#[derive(Debug)]
pub struct RaaTt {
    pub raa_tt_list: Vec<Proposition>,
}

/// The receiver of what the parser has read.
#[derive(Debug)]
pub struct RaaTtGrammar {
    /// What the last text that was parsed holds, if one was parsed.
    pub raa_tt: Option<RaaTt>,
}

impl Default for RaaTtGrammar {
    fn default() -> (grammar: Self)
        ensures
            grammar.raa_tt is None,
    {
        RaaTtGrammar { raa_tt: None }
    }
}

impl RaaTtGrammar {
    /// A receiver that has not received anything.
    pub fn new() -> (grammar: Self)
        ensures
            grammar.raa_tt is None,
    {
        RaaTtGrammar { raa_tt: None }
    }

    /// Receives what a text holds, in place of what was there.
    pub fn raa_tt(&mut self, arg: RaaTt)
        ensures
            final(self).raa_tt == Some(arg),
    {
        self.raa_tt = Some(arg);
    }
}

} // verus!
