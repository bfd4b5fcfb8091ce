//! What the shell can be told to do.

use crate::model::buffer::contents;
use bytes::Bytes;
use vstd::prelude::*;

verus! {

/// One command of the shell.
#[derive(Debug)]
pub enum Command {
    Put { row: Bytes, timestamp: Option<u64>, value: Bytes },
    Get { row: Bytes },
    Delete { row: Bytes, timestamp: Option<u64> },
    Flush { cache: bool },
    Exit,
}

/// A command as contracts speak of it: with the bytes of its rows and
/// values.
pub enum CommandView {
    Put { row: Seq<u8>, timestamp: Option<u64>, value: Seq<u8> },
    Get { row: Seq<u8> },
    Delete { row: Seq<u8>, timestamp: Option<u64> },
    Flush { cache: bool },
    Exit,
}

impl View for Command {
    type V = CommandView;

    open spec fn view(&self) -> CommandView {
        match self {
            Command::Put { row, timestamp, value } => CommandView::Put {
                row: contents(*row),
                timestamp: *timestamp,
                value: contents(*value),
            },
            Command::Get { row } => CommandView::Get { row: contents(*row) },
            Command::Delete { row, timestamp } => CommandView::Delete {
                row: contents(*row),
                timestamp: *timestamp,
            },
            Command::Flush { cache } => CommandView::Flush { cache: *cache },
            Command::Exit => CommandView::Exit,
        }
    }
}

} // verus!
