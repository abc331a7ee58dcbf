//! A name/value pair on a start tag, built up one character at a time while
//! the tokenizer walks an attribute.

use vstd::prelude::*;
use crate::text::push_char;

verus! {

#[derive(Clone, Debug, PartialEq, Eq)]
pub struct Attribute {
    name: String,
    value: String,
}

pub struct AttributeView {
    pub name: Seq<char>,
    pub value: Seq<char>,
}

impl View for Attribute {
    type V = AttributeView;

    closed spec fn view(&self) -> AttributeView {
        AttributeView { name: self.name@, value: self.value@ }
    }
}

impl Attribute {
    /// A fresh attribute with empty name and value.
    pub fn new() -> (a: Attribute)
        ensures
            a@.name == Seq::<char>::empty(),
            a@.value == Seq::<char>::empty(),
    {
        Attribute { name: String::new(), value: String::new() }
    }

    /// Appends `ch` to the attribute's name; the value is untouched.
    pub fn add_name_char(&mut self, ch: char)
        ensures
            final(self)@.name == old(self)@.name.push(ch),
            final(self)@.value == old(self)@.value,
    {
        push_char(&mut self.name, ch);
    }

    /// Appends `ch` to the attribute's value; the name is untouched.
    pub fn add_value_char(&mut self, ch: char)
        ensures
            final(self)@.value == old(self)@.value.push(ch),
            final(self)@.name == old(self)@.name,
    {
        push_char(&mut self.value, ch);
    }

    /// An exact copy of this attribute.
    pub fn duplicate(&self) -> (r: Attribute)
        ensures
            r@ == self@,
    {
        Attribute { name: self.name.clone(), value: self.value.clone() }
    }

    pub fn name(&self) -> (r: String)
        ensures
            r@ == self@.name,
    {
        self.name.clone()
    }

    pub fn value(&self) -> (r: String)
        ensures
            r@ == self@.value,
    {
        self.value.clone()
    }
}

} // verus!
