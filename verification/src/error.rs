use vstd::prelude::*;

verus! {

/// The errors that operations on a `Tree` report about `NodeId`s.
#[derive(Debug, Clone, Copy, PartialEq, Eq, Structural)]
pub enum NodeIdError {
    /// The `NodeId` does not designate a `Node` of the `Tree`: the `Node` it
    /// designated has been removed.
    NodeIdNoLongerValid,
}

impl NodeIdError {
    /// The human readable description of the error.
    pub fn to_string(&self) -> (s: &'static str)
        ensures
            s@ == "The given NodeId is no longer valid. The Node in question has been removed."@,
    {
        match *self {
            NodeIdError::NodeIdNoLongerValid => {
                "The given NodeId is no longer valid. The Node in question has been removed."
            },
        }
    }

    /// The text that the error displays as: a prefix naming the error type,
    /// then its description.
    pub fn display(&self) -> (s: String)
        ensures
            s@ == "NodeIdError: "@ + self.to_string_spec(),
    {
        let mut s = "NodeIdError: ".to_string();
        let msg = self.to_string();
        s.append(msg);
        s
    }

    /// The description of the error as characters.
    pub open spec fn to_string_spec(&self) -> Seq<char> {
        match *self {
            NodeIdError::NodeIdNoLongerValid => {
                "The given NodeId is no longer valid. The Node in question has been removed."@
            },
        }
    }
}

} // verus!
