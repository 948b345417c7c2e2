//! The replies a server can give, as values and as their mathematical model.

use vstd::prelude::*;
use vstd::utf8::encode_utf8;

verus! {

/// What a reply is: the model that contracts speak of.
pub enum Reply {
    /// No meaningful data.
    Null,
    /// A string of `size` bytes on the wire, which encode `data`.
    BulkString { data: Seq<char>, size: nat },
    /// The decimal text of an integer.
    Integer(Seq<char>),
    /// The text of a status line.
    State(Seq<char>),
    /// The replies that an array holds, in order.
    Array(Seq<Reply>),
}

impl Reply {
    /// A reply is well formed when every bulk string in it has the size of
    /// its data as UTF-8, at whatever depth it stands.
    pub open spec fn well_formed(self) -> bool
        decreases self,
    {
        match self {
            Reply::BulkString { data, size } => encode_utf8(data).len() == size,
            Reply::Array(items) => forall|i: int|
                0 <= i < items.len() ==> (#[trigger] items[i]).well_formed(),
            _ => true,
        }
    }
}

/// One reply of the server.
#[derive(Debug, PartialEq, Eq)]
pub enum ReturnType {
    /// No meaningful data.
    Null,
    /// A single string, with the length its header declared.
    BulkString { data: String, size: usize },
    /// An integer, kept as the decimal text the server sent.
    Integer(String),
    /// A status line, success or failure alike.
    State(String),
    /// An ordered list of replies, which may hold further arrays.
    Array(Vec<Box<ReturnType>>),
}

impl ReturnType {
    /// The model of this reply: texts by their characters, arrays by the
    /// models of their elements, in order.
    pub open spec fn model(&self) -> Reply
        decreases self,
    {
        match self {
            ReturnType::Null => Reply::Null,
            ReturnType::BulkString { data, size } => Reply::BulkString {
                data: data@,
                size: *size as nat,
            },
            ReturnType::Integer(text) => Reply::Integer(text@),
            ReturnType::State(text) => Reply::State(text@),
            ReturnType::Array(items) => Reply::Array(
                Seq::new(
                    items@.len(),
                    |i: int|
                        if 0 <= i < items@.len() {
                            (*items@[i]).model()
                        } else {
                            Reply::Null
                        },
                ),
            ),
        }
    }
}

impl View for ReturnType {
    type V = Reply;

    open spec fn view(&self) -> Reply {
        self.model()
    }
}

} // verus!
