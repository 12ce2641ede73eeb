//! What stands for a command that the server does not know.

use crate::frame::{Frame, FrameView};
use vstd::prelude::*;
use vstd::string::StringExecFns;

verus! {

/// A command that the server does not know.
#[derive(Debug)]
pub struct Unknown {
    /// The name that the command was given by.
    pub command_name: String,
}

/// What an `Unknown` holds.
pub struct UnknownView {
    pub command_name: Seq<char>,
}

impl View for Unknown {
    type V = UnknownView;

    open spec fn view(&self) -> UnknownView {
        UnknownView { command_name: self.command_name@ }
    }
}

impl Unknown {
    /// What stands for the command that was given by the name `key`.
    pub fn new(key: &str) -> (r: Unknown)
        ensures
            r@ == (UnknownView { command_name: key@ }),
    {
        Unknown { command_name: key.to_owned() }
    }

    /// The name that the command was given by.
    pub fn get_name(&self) -> (name: &str)
        ensures
            name@ == self@.command_name,
    {
        self.command_name.as_str()
    }

    /// The answer to this command: an error that names it.
    pub open spec fn spec_apply(view: UnknownView) -> FrameView {
        FrameView::Error("ERR unknown command '"@ + view.command_name + "'"@)
    }

    /// The answer to this command.
    pub fn apply(self) -> (r: Frame)
        ensures
            r@ == Unknown::spec_apply(self@),
    {
        let mut text = "ERR unknown command '".to_owned();
        text.append(self.command_name.as_str());
        text.append("'");
        Frame::Error(text)
    }
}

} // verus!
