use vstd::prelude::*;

verus! {

/// A fixed-size, trivially copyable message.
#[derive(Clone, Copy, Debug)]
pub struct IPCItem {
    pub sender: u64,
    pub msg_type: u64,
    pub reply_type: u64,
    pub data: [u64; 8],
}

} // verus!
