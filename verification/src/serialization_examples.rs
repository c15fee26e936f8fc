use vstd::prelude::*;

verus! {

/// A record with named fields, as the serializer writes it out.
pub struct ExampleStruct<T> {
    pub data: Vec<T>,
    pub name: String,
    pub age: u32,
}

/// A record with positional fields.
pub struct ExampleTuple<T>(Vec<T>, String, u32);

/// An enum with tuple, struct and unit variants.
pub enum ExampleEnum<T> {
    Data(Vec<T>),
    Name(String),
    Age(u32),
    Struct { data: Vec<T>, name: String, age: u32 },
    Empty,
}

} // verus!
