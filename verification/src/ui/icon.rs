//! The icons of buttons.

use vstd::prelude::*;

verus! {

/// An icon.
#[derive(Clone, Copy, Debug, PartialEq, Eq, Structural)]
pub enum IconName {
    DragHandGesture,
    Droplet,
    EditPencil,
    Erase,
    Eye,
    EyeOff,
    Redo,
    Trash,
    Undo,
}

impl IconName {
    /// What the icon is called.
    pub open spec fn called(self) -> Seq<char> {
        match self {
            IconName::DragHandGesture => "DragHandGesture"@,
            IconName::Droplet => "Droplet"@,
            IconName::EditPencil => "EditPencil"@,
            IconName::Erase => "Erase"@,
            IconName::Eye => "Eye"@,
            IconName::EyeOff => "EyeOff"@,
            IconName::Redo => "Redo"@,
            IconName::Trash => "Trash"@,
            IconName::Undo => "Undo"@,
        }
    }

    /// What the icon is called.
    pub fn name(self) -> (r: &'static str)
        ensures
            r@ == self.called(),
    {
        match self {
            IconName::DragHandGesture => "DragHandGesture",
            IconName::Droplet => "Droplet",
            IconName::EditPencil => "EditPencil",
            IconName::Erase => "Erase",
            IconName::Eye => "Eye",
            IconName::EyeOff => "EyeOff",
            IconName::Redo => "Redo",
            IconName::Trash => "Trash",
            IconName::Undo => "Undo",
        }
    }
}

} // verus!
