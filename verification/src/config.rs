//! Session configuration: the visible-row count, the initial query text,
//! and the full candidate list, fixed for the lifetime of a session.

use vstd::prelude::*;

verus! {

/// Immutable configuration supplied once at session creation.
pub struct Configuration {
    /// How many top-ranked matches are reachable by cursor navigation.
    pub visible_choices: u8,
    /// The query text a fresh session starts with.
    pub initial_search: String,
    /// The full candidate list, in input order.
    pub choices: Vec<String>,
}

impl Configuration {
    /// Builds a configuration from the candidate list and the terminal
    /// height, capping the visible-row count at 20. The height is reduced
    /// modulo 256 first, as the narrowing to a byte-sized row count does.
    pub fn from_inputs(choices: Vec<String>, screen_height: u16) -> (r: Configuration)
        ensures
            r.visible_choices as int == vstd::math::min(20, screen_height as int % 256),
            r.initial_search@ == Seq::<char>::empty(),
            r.choices@ == choices@,
    {
        let reduced: u8 = (screen_height % 256) as u8;
        let visible_choices: u8 = if 20 < reduced {
            20
        } else {
            reduced
        };
        Configuration::new(visible_choices, String::new(), choices)
    }

    pub fn new(visible_choices: u8, initial_search: String, choices: Vec<String>) -> (r:
        Configuration)
        ensures
            r.visible_choices == visible_choices,
            r.initial_search == initial_search,
            r.choices == choices,
    {
        Configuration { visible_choices, initial_search, choices }
    }

    /// A fresh copy of the candidate list.
    pub fn get_choices(&self) -> (r: Vec<String>)
        ensures
            r@ == self.choices@,
    {
        let mut out: Vec<String> = Vec::new();
        let mut i: usize = 0;
        while i < self.choices.len()
            invariant
                i <= self.choices.len(),
                out@.len() == i as int,
                forall|j: int| 0 <= j < i ==> out@[j] == self.choices@[j],
            decreases self.choices.len() - i,
        {
            out.push(self.choices[i].clone());
            i = i + 1;
        }
        proof {
            assert(out@ =~= self.choices@);
        }
        out
    }

    pub fn get_initial_search(&self) -> (r: String)
        ensures
            r@ == self.initial_search@,
    {
        self.initial_search.clone()
    }

    pub fn get_visible_choices(&self) -> (r: u8)
        ensures
            r == self.visible_choices,
    {
        self.visible_choices
    }
}

} // verus!
