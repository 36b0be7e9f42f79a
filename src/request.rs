//! The request and response envelopes of a module invocation.
use vstd::prelude::*;

verus! {

/// An invocation: the action to perform and its payload.
pub struct ModuleRequest<Body> {
    pub action: String,
    pub body: Body,
}

impl<Body> ModuleRequest<Body> {
    pub fn new(action: &str, body: Body) -> (r: Self)
        ensures
            r.action@ == action@,
            r.body == body,
    {
        ModuleRequest { action: action.to_owned(), body }
    }

    pub fn action(&self) -> (r: &str)
        ensures
            r@ == self.action@,
    {
        self.action.as_str()
    }

    pub fn body(&self) -> (r: &Body)
        ensures
            *r == self.body,
    {
        &self.body
    }
}

/// The data a successful invocation returns.
pub struct ModuleResponse<Data> {
    pub data: Data,
}

impl<Data> ModuleResponse<Data> {
    pub fn new(data: Data) -> (r: Self)
        ensures
            r.data == data,
    {
        ModuleResponse { data }
    }
}

} // verus!
