use vstd::prelude::*;

verus! {

/// What can go wrong while turning Dent text into a value.
///
/// Every variant ends the parse call that raised it: the grammar does no
/// local recovery.
#[derive(Clone, Debug, PartialEq)]
pub enum Error {
    /// A token that the grammar does not allow where it stands, by kind name.
    UnexpectedToken(String),
    /// `@name` where no function of that name is registered.
    UnknownFunction(String),
    /// The input ended inside a list or a dictionary.
    UnexpectedEof,
    /// A character that starts no token.
    UnexpectedChar(char),
    /// An input/output failure, by the kind's description.
    Io(String),
    /// A number span that is neither an integer nor a decimal: a run of
    /// digits and dots with more than one dot.
    InvalidNumber(String),
}

/// The mathematical form of an [`Error`].
pub enum Fault {
    UnexpectedToken(Seq<char>),
    UnknownFunction(Seq<char>),
    UnexpectedEof,
    UnexpectedChar(char),
    Io(Seq<char>),
    InvalidNumber(Seq<char>),
}

impl View for Error {
    type V = Fault;

    open spec fn view(&self) -> Fault {
        match self {
            Error::UnexpectedToken(k) => Fault::UnexpectedToken(k@),
            Error::UnknownFunction(n) => Fault::UnknownFunction(n@),
            Error::UnexpectedEof => Fault::UnexpectedEof,
            Error::UnexpectedChar(c) => Fault::UnexpectedChar(*c),
            Error::Io(k) => Fault::Io(k@),
            Error::InvalidNumber(n) => Fault::InvalidNumber(n@),
        }
    }
}

/// The message that [`Error::to_string`] gives for a fault.
pub open spec fn fault_message(f: Fault) -> Seq<char> {
    match f {
        Fault::UnexpectedToken(k) => "Unexpected token: "@ + k,
        Fault::UnknownFunction(n) => "Unknown function: "@ + n,
        Fault::UnexpectedEof => "Unexpected end of file"@,
        Fault::UnexpectedChar(c) => "Unexpected character: "@ + seq![c],
        Fault::Io(k) => "IO error: "@ + k,
        Fault::InvalidNumber(n) => "Invalid number: "@ + n,
    }
}

/// Relies on char::to_string: a string of that one character.
#[verifier::external_body]
fn char_text(c: char) -> (r: String)
    ensures
        r@ == seq![c],
{
    c.to_string()
}

impl Error {
    /// A one-line description of the error.
    pub fn to_string(&self) -> (r: String)
        ensures
            r@ == fault_message(self@),
    {
        let (head, tail): (&str, String) = match self {
            Error::UnexpectedToken(k) => ("Unexpected token: ", k.clone()),
            Error::UnknownFunction(n) => ("Unknown function: ", n.clone()),
            Error::UnexpectedEof => ("Unexpected end of file", String::new()),
            Error::UnexpectedChar(c) => ("Unexpected character: ", char_text(*c)),
            Error::Io(k) => ("IO error: ", k.clone()),
            Error::InvalidNumber(n) => ("Invalid number: ", n.clone()),
        };
        proof {
            reveal_strlit("Unexpected token: ");
            reveal_strlit("Unknown function: ");
            reveal_strlit("Unexpected end of file");
            reveal_strlit("Unexpected character: ");
            reveal_strlit("IO error: ");
            reveal_strlit("Invalid number: ");
        }
        let mut r = String::from_str(head);
        r.append(tail.as_str());
        proof {
            assert(tail@.len() == 0 ==> head@ + tail@ =~= head@);
        }
        r
    }
}

} // verus!
