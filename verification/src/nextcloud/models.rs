use vstd::prelude::*;

verus! {

/// A WebDAV `multistatus` answer.
#[derive(Debug)]
pub struct Multistatus {
    pub responses: Vec<Response>,
}

/// One `response` of a multistatus answer: a resource and its properties.
#[derive(Debug)]
pub struct Response {
    pub href: String,
    pub propstats: Vec<Propstat>,
}

/// A `propstat`: properties with the status they were read with.
#[derive(Debug)]
pub struct Propstat {
    pub prop: Prop,
    pub status: String,
}

/// The properties asked for.
#[derive(Debug)]
pub struct Prop {
    pub resourcetype: Option<ResourceType>,
    pub owner: Option<Owner>,
    pub displayname: Option<String>,
}

/// The `resourcetype` property; it names a deleted calendar as such.
#[derive(Debug)]
pub struct ResourceType {
    pub calendar_deleted: Option<Empty>,
}

/// The `owner` property.
#[derive(Debug)]
pub struct Owner {
    pub href: String,
}

/// An element without content.
#[derive(Debug)]
pub struct Empty;

} // verus!
