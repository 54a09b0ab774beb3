use vstd::prelude::*;

verus! {

/// Messages exchanged between client and server.
#[derive(Debug)]
pub enum KvMessage {
    /// To set value in the data-store
    SetValue(String, String),
    /// To get value from the data-store
    Get(String),
    /// To remove value from the datastore
    Remove(String),
    /// Response sent by the server to client
    Response(String),
}

} // verus!
