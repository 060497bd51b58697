//! The error kinds surfaced at the socket boundary. Failures inside the
//! shell — reads, embedding, store writes — are mapped onto this closed
//! sum, and each kind renders as a fixed message for the wire's error
//! response.

use vstd::prelude::*;

verus! {

/// What went wrong, as the client sees it.
#[derive(Clone, Copy, Debug, PartialEq, Eq, Structural)]
pub enum SmgrepError {
    InvalidRequest,
    GrammarUnavailable,
    EmbedFailed,
    StoreIo,
    StoreCorrupt,
    Timeout,
    VersionMismatch,
    Internal,
}

/// The message bytes of each error kind.
pub open spec fn spec_error_message(e: SmgrepError) -> Seq<u8> {
    match e {
        SmgrepError::InvalidRequest => seq![105u8, 110u8, 118u8, 97u8, 108u8, 105u8, 100u8, 32u8, 114u8, 101u8, 113u8, 117u8, 101u8, 115u8, 116u8],
        SmgrepError::GrammarUnavailable => seq![103u8, 114u8, 97u8, 109u8, 109u8, 97u8, 114u8, 32u8, 117u8, 110u8, 97u8, 118u8, 97u8, 105u8, 108u8, 97u8, 98u8, 108u8, 101u8],
        SmgrepError::EmbedFailed => seq![101u8, 109u8, 98u8, 101u8, 100u8, 100u8, 105u8, 110u8, 103u8, 32u8, 102u8, 97u8, 105u8, 108u8, 101u8, 100u8],
        SmgrepError::StoreIo => seq![115u8, 116u8, 111u8, 114u8, 101u8, 32u8, 105u8, 111u8, 32u8, 101u8, 114u8, 114u8, 111u8, 114u8],
        SmgrepError::StoreCorrupt => seq![115u8, 116u8, 111u8, 114u8, 101u8, 32u8, 99u8, 111u8, 114u8, 114u8, 117u8, 112u8, 116u8],
        SmgrepError::Timeout => seq![116u8, 105u8, 109u8, 101u8, 111u8, 117u8, 116u8],
        SmgrepError::VersionMismatch => seq![118u8, 101u8, 114u8, 115u8, 105u8, 111u8, 110u8, 32u8, 109u8, 105u8, 115u8, 109u8, 97u8, 116u8, 99u8, 104u8],
        SmgrepError::Internal => seq![105u8, 110u8, 116u8, 101u8, 114u8, 110u8, 97u8, 108u8, 32u8, 101u8, 114u8, 114u8, 111u8, 114u8],
    }
}

impl SmgrepError {
    /// Renders the error for the wire's error response.
    pub fn message(&self) -> (r: Vec<u8>)
        ensures
            r@ == spec_error_message(*self),
    {
        let mut v: Vec<u8> = Vec::new();
        match self {
        SmgrepError::InvalidRequest => {
            v.push(105);
            v.push(110);
            v.push(118);
            v.push(97);
            v.push(108);
            v.push(105);
            v.push(100);
            v.push(32);
            v.push(114);
            v.push(101);
            v.push(113);
            v.push(117);
            v.push(101);
            v.push(115);
            v.push(116);
            proof {
                assert(v@ =~= seq![105u8, 110u8, 118u8, 97u8, 108u8, 105u8, 100u8, 32u8, 114u8, 101u8, 113u8, 117u8, 101u8, 115u8, 116u8]);
            }
        },
        SmgrepError::GrammarUnavailable => {
            v.push(103);
            v.push(114);
            v.push(97);
            v.push(109);
            v.push(109);
            v.push(97);
            v.push(114);
            v.push(32);
            v.push(117);
            v.push(110);
            v.push(97);
            v.push(118);
            v.push(97);
            v.push(105);
            v.push(108);
            v.push(97);
            v.push(98);
            v.push(108);
            v.push(101);
            proof {
                assert(v@ =~= seq![103u8, 114u8, 97u8, 109u8, 109u8, 97u8, 114u8, 32u8, 117u8, 110u8, 97u8, 118u8, 97u8, 105u8, 108u8, 97u8, 98u8, 108u8, 101u8]);
            }
        },
        SmgrepError::EmbedFailed => {
            v.push(101);
            v.push(109);
            v.push(98);
            v.push(101);
            v.push(100);
            v.push(100);
            v.push(105);
            v.push(110);
            v.push(103);
            v.push(32);
            v.push(102);
            v.push(97);
            v.push(105);
            v.push(108);
            v.push(101);
            v.push(100);
            proof {
                assert(v@ =~= seq![101u8, 109u8, 98u8, 101u8, 100u8, 100u8, 105u8, 110u8, 103u8, 32u8, 102u8, 97u8, 105u8, 108u8, 101u8, 100u8]);
            }
        },
        SmgrepError::StoreIo => {
            v.push(115);
            v.push(116);
            v.push(111);
            v.push(114);
            v.push(101);
            v.push(32);
            v.push(105);
            v.push(111);
            v.push(32);
            v.push(101);
            v.push(114);
            v.push(114);
            v.push(111);
            v.push(114);
            proof {
                assert(v@ =~= seq![115u8, 116u8, 111u8, 114u8, 101u8, 32u8, 105u8, 111u8, 32u8, 101u8, 114u8, 114u8, 111u8, 114u8]);
            }
        },
        SmgrepError::StoreCorrupt => {
            v.push(115);
            v.push(116);
            v.push(111);
            v.push(114);
            v.push(101);
            v.push(32);
            v.push(99);
            v.push(111);
            v.push(114);
            v.push(114);
            v.push(117);
            v.push(112);
            v.push(116);
            proof {
                assert(v@ =~= seq![115u8, 116u8, 111u8, 114u8, 101u8, 32u8, 99u8, 111u8, 114u8, 114u8, 117u8, 112u8, 116u8]);
            }
        },
        SmgrepError::Timeout => {
            v.push(116);
            v.push(105);
            v.push(109);
            v.push(101);
            v.push(111);
            v.push(117);
            v.push(116);
            proof {
                assert(v@ =~= seq![116u8, 105u8, 109u8, 101u8, 111u8, 117u8, 116u8]);
            }
        },
        SmgrepError::VersionMismatch => {
            v.push(118);
            v.push(101);
            v.push(114);
            v.push(115);
            v.push(105);
            v.push(111);
            v.push(110);
            v.push(32);
            v.push(109);
            v.push(105);
            v.push(115);
            v.push(109);
            v.push(97);
            v.push(116);
            v.push(99);
            v.push(104);
            proof {
                assert(v@ =~= seq![118u8, 101u8, 114u8, 115u8, 105u8, 111u8, 110u8, 32u8, 109u8, 105u8, 115u8, 109u8, 97u8, 116u8, 99u8, 104u8]);
            }
        },
        SmgrepError::Internal => {
            v.push(105);
            v.push(110);
            v.push(116);
            v.push(101);
            v.push(114);
            v.push(110);
            v.push(97);
            v.push(108);
            v.push(32);
            v.push(101);
            v.push(114);
            v.push(114);
            v.push(111);
            v.push(114);
            proof {
                assert(v@ =~= seq![105u8, 110u8, 116u8, 101u8, 114u8, 110u8, 97u8, 108u8, 32u8, 101u8, 114u8, 114u8, 111u8, 114u8]);
            }
        },
        }
        v
    }

    /// The wire response carrying this error.
    pub fn to_response(&self) -> (r: crate::ipc::Response)
        ensures
            r matches crate::ipc::Response::Error { message } && message@
                == spec_error_message(*self),
    {
        crate::ipc::Response::Error { message: self.message() }
    }
}

} // verus!
