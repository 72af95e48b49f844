//! What has to be painted, as data. The buffer decides which rows change;
//! whoever owns the screen carries the commands out in the order given.

use vstd::prelude::*;

verus! {

/// One step of painting.
#[derive(Clone, Copy, Debug, PartialEq, Eq, Structural)]
pub enum DrawCommand {
    /// Paint a whole line again, starting at the first column of `row`.
    Line { row: i32 },
    /// Paint one occurrence of the query in the highlight color, starting
    /// at `column` of `row`.
    Highlight { row: i32, column: i32 },
}

/// The commands gathered so far, oldest first.
#[derive(Debug)]
pub struct DisplayList {
    pub commands: Vec<DrawCommand>,
}

impl View for DisplayList {
    type V = Seq<DrawCommand>;

    open spec fn view(&self) -> Seq<DrawCommand> {
        self.commands@
    }
}

impl DisplayList {
    /// A list without commands.
    pub fn new() -> (display: DisplayList)
        ensures
            display@ == Seq::<DrawCommand>::empty(),
    {
        DisplayList { commands: Vec::new() }
    }

    /// Adds a command behind those gathered so far.
    pub fn push(&mut self, command: DrawCommand)
        ensures
            final(self)@ == old(self)@.push(command),
    {
        self.commands.push(command);
    }
}

} // verus!
