use vstd::prelude::*;

verus! {

/// One element of a rendered machine instruction: a mnemonic, a register
/// name, a plain integer, or an address.
#[derive(Clone)]
pub enum Token<I: Copy> {
    Opcode(String),
    Register(String),
    Integer(I),
    Address(I),
}

/// Accumulates the tokens of one rendered instruction in order.
pub struct Formatter<I: Copy> {
    tokens: Vec<Token<I>>,
}

impl<I: Copy> View for Formatter<I> {
    type V = Seq<Token<I>>;

    closed spec fn view(&self) -> Seq<Token<I>> {
        self.tokens@
    }
}

impl<I: Copy> Formatter<I> {
    /// An empty formatter.
    pub fn new() -> (r: Self)
        ensures
            r@ == Seq::<Token<I>>::empty(),
    {
        Formatter { tokens: Vec::new() }
    }

    /// Appends an opcode token.
    pub fn add_opcode(&mut self, val: String)
        ensures
            final(self)@ == old(self)@.push(Token::Opcode(val)),
    {
        self.tokens.push(Token::Opcode(val));
    }

    /// Appends a register-name token.
    pub fn add_register(&mut self, val: String)
        ensures
            final(self)@ == old(self)@.push(Token::Register(val)),
    {
        self.tokens.push(Token::Register(val));
    }

    /// Appends an integer token.
    pub fn add_integer(&mut self, val: I)
        ensures
            final(self)@ == old(self)@.push(Token::Integer(val)),
    {
        self.tokens.push(Token::Integer(val));
    }

    /// Appends an address token.
    pub fn add_address(&mut self, val: I)
        ensures
            final(self)@ == old(self)@.push(Token::Address(val)),
    {
        self.tokens.push(Token::Address(val));
    }

    /// The tokens accumulated so far, in order.
    pub fn get_tokens(&self) -> (r: &Vec<Token<I>>)
        ensures
            r@ == self@,
    {
        &self.tokens
    }
}

/// Rendering hook for instruction types: an instruction writes the tokens
/// that display it into the formatter.
pub trait InstructionDisplay<I: Copy> {
    fn fmt(&self, fmt: &mut Formatter<I>);
}

} // verus!
