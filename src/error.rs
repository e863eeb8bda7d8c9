use vstd::prelude::*;
use crate::address::{decimal, push_decimal};
use crate::text::{append_chars, chars_of, string_of};

verus! {

/// Why an address could not be resolved, or a node not created or destroyed.
#[derive(Debug)]
pub enum TreeError {
    /// An empty key was given where a name or an address was expected.
    NoKey,
    /// The segment is too short to hold a class letter.
    MissingInformation(Vec<char>),
    /// The text after the class letter is not a non-negative integer.
    InvalidNumber(Vec<char>),
    /// The class letter is neither `p` nor `r`.
    InvalidClass(char, Vec<char>),
    /// No permanent child has this index.
    PermanentMissing(usize),
    /// No removable child holds this slot.
    RemovableMissing(usize),
    /// The name is not in the register of the node.
    UnknownKey(Vec<char>),
    /// The name is already in the register of the node.
    KeyInUse(Vec<char>),
    /// Permanent children can only go with their whole subtree.
    PermanentIndestructible,
    /// No child is registered under this name.
    NotRegistered(Vec<char>),
}

/// What a `TreeError` says, with its texts as sequences of characters.
pub ghost enum Fault {
    NoKey,
    MissingInformation(Seq<char>),
    InvalidNumber(Seq<char>),
    InvalidClass(char, Seq<char>),
    PermanentMissing(usize),
    RemovableMissing(usize),
    UnknownKey(Seq<char>),
    KeyInUse(Seq<char>),
    PermanentIndestructible,
    NotRegistered(Seq<char>),
}

impl View for TreeError {
    type V = Fault;

    open spec fn view(&self) -> Fault {
        match self {
            TreeError::NoKey => Fault::NoKey,
            TreeError::MissingInformation(s) => Fault::MissingInformation(s@),
            TreeError::InvalidNumber(s) => Fault::InvalidNumber(s@),
            TreeError::InvalidClass(c, s) => Fault::InvalidClass(*c, s@),
            TreeError::PermanentMissing(i) => Fault::PermanentMissing(*i),
            TreeError::RemovableMissing(k) => Fault::RemovableMissing(*k),
            TreeError::UnknownKey(s) => Fault::UnknownKey(s@),
            TreeError::KeyInUse(s) => Fault::KeyInUse(s@),
            TreeError::PermanentIndestructible => Fault::PermanentIndestructible,
            TreeError::NotRegistered(s) => Fault::NotRegistered(s@),
        }
    }
}

/// The explanation a fault gives to a reader.
pub open spec fn fault_text(f: Fault) -> Seq<char> {
    match f {
        Fault::NoKey => "There is no key!"@,
        Fault::MissingInformation(p) => "Path '"@ + p + "' is missing information (Example: #r12)!"@,
        Fault::InvalidNumber(p) => "The path '"@ + p + "' is not a valid number!"@,
        Fault::InvalidClass(c, p) => "The second character '"@ + seq![c] + "' in '"@ + p
            + "' needs to be either 'r' or 'p' (Stands for storage stack)!"@,
        Fault::PermanentMissing(i) => "Permanent branch with index '"@ + decimal(i as nat) + "' does not exist!"@,
        Fault::RemovableMissing(k) => "Removable branch with slot '"@ + decimal(k as nat) + "' does not exist!"@,
        Fault::UnknownKey(k) => "The key '"@ + k + "' is not in the register!"@,
        Fault::KeyInUse(k) => "The key '"@ + k + "' is already in use!"@,
        Fault::PermanentIndestructible => "Widgets with no name are supposed to be permanent and cannot be destroyed directly!"@,
        Fault::NotRegistered(k) => "Widget registered as '"@ + k + "' does not exist!"@,
    }
}

fn push_text(out: &mut Vec<char>, s: &str)
    ensures
        final(out)@ == old(out)@ + s@,
{
    append_chars(out, &chars_of(s));
}

impl TreeError {
    /// A sentence that explains the error.
    pub fn message(&self) -> (r: String)
        ensures
            r@ == fault_text(self@),
    {
        let mut out: Vec<char> = Vec::new();
        match self {
            TreeError::NoKey => {
                push_text(&mut out, "There is no key!");
            },
            TreeError::MissingInformation(p) => {
                push_text(&mut out, "Path '");
                append_chars(&mut out, p);
                push_text(&mut out, "' is missing information (Example: #r12)!");
            },
            TreeError::InvalidNumber(p) => {
                push_text(&mut out, "The path '");
                append_chars(&mut out, p);
                push_text(&mut out, "' is not a valid number!");
            },
            TreeError::InvalidClass(c, p) => {
                push_text(&mut out, "The second character '");
                out.push(*c);
                push_text(&mut out, "' in '");
                append_chars(&mut out, p);
                push_text(&mut out, "' needs to be either 'r' or 'p' (Stands for storage stack)!");
            },
            TreeError::PermanentMissing(i) => {
                push_text(&mut out, "Permanent branch with index '");
                push_decimal(*i, &mut out);
                push_text(&mut out, "' does not exist!");
            },
            TreeError::RemovableMissing(k) => {
                push_text(&mut out, "Removable branch with slot '");
                push_decimal(*k, &mut out);
                push_text(&mut out, "' does not exist!");
            },
            TreeError::UnknownKey(k) => {
                push_text(&mut out, "The key '");
                append_chars(&mut out, k);
                push_text(&mut out, "' is not in the register!");
            },
            TreeError::KeyInUse(k) => {
                push_text(&mut out, "The key '");
                append_chars(&mut out, k);
                push_text(&mut out, "' is already in use!");
            },
            TreeError::PermanentIndestructible => {
                push_text(&mut out, "Widgets with no name are supposed to be permanent and cannot be destroyed directly!");
            },
            TreeError::NotRegistered(k) => {
                push_text(&mut out, "Widget registered as '");
                append_chars(&mut out, k);
                push_text(&mut out, "' does not exist!");
            },
        }
        assert(out@ =~= fault_text(self@));
        string_of(&out)
    }
}

} // verus!
