//! What each command does to a list, and what it reports.

use vstd::prelude::*;
use crate::item_list::ItemList;

verus! {

/// A command on one list.
pub enum Command {
    /// Add an item.
    Add(String),
    /// Remove an item.
    Remove(String),
    /// Show the items, numbered, in order.
    List,
    /// Draw one item at random and take it out.
    Roll,
    /// Hand the list's file to an external editor.
    Edit,
}

/// What a command did.
pub enum Outcome {
    /// The item is in the list; `newly_added` tells whether it was not before.
    Added { newly_added: bool },
    /// The item was in the list and has been taken out.
    Removed,
    /// The item to remove was not in the list.
    NotFound,
    /// The rows of a listing: number and item.
    Listed(Vec<(usize, String)>),
    /// The item drawn, which has left the list.
    Rolled(String),
    /// There was nothing to draw.
    NoItems,
    /// The file is to be edited outside; the list in memory is left as it is.
    EditRequested,
}

impl Outcome {
    /// Whether the list is to be written back after the command: every
    /// command but an edit and a roll on an empty list writes it.
    pub open spec fn spec_saves(&self) -> bool {
        !(self is NoItems || self is EditRequested)
    }

    /// Whether the list is to be written back after the command.
    #[verifier::when_used_as_spec(spec_saves)]
    pub fn saves(&self) -> (r: bool)
        ensures
            r == self.spec_saves(),
    {
        match self {
            Outcome::NoItems => false,
            Outcome::EditRequested => false,
            _ => true,
        }
    }
}

impl ItemList {
    /// Carries out `command` on the list.
    pub fn execute(&mut self, command: Command) -> (r: Outcome)
        requires
            old(self).wf(),
        ensures
            final(self).wf(),
            match command {
                Command::Add(x) => {
                    &&& r == (Outcome::Added {
                        newly_added: !old(self).contents().contains(x@),
                    })
                    &&& final(self).contents() == old(self).contents().insert(x@)
                },
                Command::Remove(x) => {
                    &&& (if old(self).contents().contains(x@) {
                        r is Removed
                    } else {
                        r is NotFound
                    })
                    &&& final(self).contents() == old(self).contents().remove(x@)
                },
                Command::List => {
                    &&& final(self)@ == old(self)@
                    &&& r matches Outcome::Listed(rows) && rows@.len() == old(self)@.len()
                        && forall|i: int|
                        0 <= i < rows@.len() ==> (#[trigger] rows@[i]).0 == i + 1
                            && rows@[i].1@ == old(self)@[i]
                },
                Command::Roll => if old(self).contents() == Set::<Seq<char>>::empty() {
                    &&& r is NoItems
                    &&& old(self)@.len() == 0
                    &&& final(self)@ == old(self)@
                } else {
                    &&& r matches Outcome::Rolled(x) && old(self).contents().contains(x@)
                        && final(self).contents() == old(self).contents().remove(x@)
                        && final(self)@.len() == old(self)@.len() - 1
                },
                Command::Edit => {
                    &&& r is EditRequested
                    &&& final(self)@ == old(self)@
                },
            },
    {
        match command {
            Command::Add(x) => {
                let newly_added = self.add(x);
                Outcome::Added { newly_added }
            },
            Command::Remove(x) => {
                if self.remove(&x) {
                    Outcome::Removed
                } else {
                    Outcome::NotFound
                }
            },
            Command::List => Outcome::Listed(self.rows()),
            Command::Roll => match self.take_random() {
                Some(x) => Outcome::Rolled(x),
                None => Outcome::NoItems,
            },
            Command::Edit => Outcome::EditRequested,
        }
    }
}

} // verus!
