//! Which of the known standards a listing is checked against.

use crate::text::push_char;
use vstd::prelude::*;

verus! {

/// The choice of standards for a check.
#[derive(Debug, Clone)]
pub enum Standards {
    /// The one standard that the catalog names as its default.
    Default,
    /// Every standard of the catalog.
    All,
    /// Every standard of the catalog is tried; the one that fits best stays.
    BestFit,
    /// The standard of this name.
    Specific(String),
}

impl Default for Standards {
    fn default() -> (stds: Standards)
        ensures
            stds is Default,
    {
        Standards::Default
    }
}

impl Standards {
    /// The choice that the options ask for: all standards where `all` is
    /// set; else the best fit where `best_fit` is set; else the named
    /// standard; else the default.
    pub fn from_opts(all: bool, best_fit: bool, specific: Option<&String>) -> (stds: Standards)
        ensures
            all ==> stds is All,
            !all && best_fit ==> stds is BestFit,
            !all && !best_fit ==> match specific {
                Some(name) => stds matches Standards::Specific(chosen) && chosen@ == name@,
                None => stds is Default,
            },
    {
        if all {
            Standards::All
        } else if best_fit {
            Standards::BestFit
        } else {
            match specific {
                Some(name) => Standards::Specific(name.clone()),
                None => Standards::Default,
            }
        }
    }

    /// The choice as a text for messages.
    pub open spec fn label(self, default_name: Seq<char>) -> Seq<char> {
        match self {
            Standards::Default => "<default>("@ + default_name + seq![')'],
            Standards::All => "<all>"@,
            Standards::BestFit => "<best-fit>(...)"@,
            Standards::Specific(name) => name@,
        }
    }

    /// Writes the choice as a text for messages; the default is shown with
    /// the name of the standard it stands for.
    pub fn display(&self, default_name: &str) -> (text: String)
        ensures
            text@ == self.label(default_name@),
    {
        match self {
            Standards::Default => {
                let mut text = String::from_str("<default>(");
                text.append(default_name);
                push_char(&mut text, ')');
                text
            },
            Standards::All => String::from_str("<all>"),
            Standards::BestFit => String::from_str("<best-fit>(...)"),
            Standards::Specific(name) => name.clone(),
        }
    }
}

} // verus!
