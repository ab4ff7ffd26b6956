//! A plain counter widget state: a value stepped up or down one at a
//! time by the messages its two buttons send.

use vstd::prelude::*;

verus! {

/// What the counter's buttons send.
#[derive(Clone, Copy, Debug)]
pub enum Message {
    Increment,
    Decrement,
}

/// The counter's state.
#[derive(Debug)]
pub struct Counter {
    value: i32,
}

impl Counter {
    /// The counter's value, as a mathematical integer.
    pub closed spec fn spec_value(self) -> int {
        self.value as int
    }

    /// The current value.
    pub fn value(&self) -> (r: i32)
        ensures
            r as int == self.spec_value(),
    {
        self.value
    }

    /// Steps the value by one in the direction the message says.
    pub fn update(&mut self, message: Message)
        requires
            message is Increment ==> old(self).spec_value() < i32::MAX,
            message is Decrement ==> old(self).spec_value() > i32::MIN,
        ensures
            message is Increment ==> final(self).spec_value() == old(self).spec_value() + 1,
            message is Decrement ==> final(self).spec_value() == old(self).spec_value() - 1,
    {
        match message {
            Message::Increment => {
                self.value = self.value + 1;
            },
            Message::Decrement => {
                self.value = self.value - 1;
            },
        }
    }
}

impl Default for Counter {
    /// A counter standing at zero.
    fn default() -> (r: Counter)
        ensures
            r.spec_value() == 0,
    {
        Counter { value: 0 }
    }
}

} // verus!
