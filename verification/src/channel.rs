use vstd::prelude::*;
use std::io::Write;

verus! {

/// A character channel: the virtual machine writes its output to it and reads
/// its input from it.
///
/// A channel is described by two sequences. `pending` holds the characters it
/// will still hand out, in order; a channel that has none left answers every
/// `read` with `None`. `written` holds every character it has taken so far.
pub trait InputOutput {
    /// The characters that `read` will still hand out, the next one first.
    spec fn pending(&self) -> Seq<char>;

    /// The characters handed to `write` so far, the first one first.
    spec fn written(&self) -> Seq<char>;

    /// Hands out the next pending character, or `None` when none is left.
    fn read(&mut self) -> (r: Option<char>)
        ensures
            final(self).written() == old(self).written(),
            old(self).pending().len() == 0 ==> r is None && final(self).pending()
                == old(self).pending(),
            old(self).pending().len() > 0 ==> r == Some(old(self).pending()[0])
                && final(self).pending() == old(self).pending().skip(1),
    ;

    /// Takes one character.
    fn write(&mut self, ch: char)
        ensures
            final(self).written() == old(self).written().push(ch),
            final(self).pending() == old(self).pending(),
    ;
}

/// `String::push` puts the character behind the last one of the string.
pub assume_specification[ String::push ](s: &mut String, ch: char)
    ensures
        final(s)@ == old(s)@.push(ch),
;

/// A channel that drops what it is given and has no input. Of what it was
/// given it keeps a record that exists in proofs only.
pub struct DummyInputOutput {
    dropped: Ghost<Seq<char>>,
}

impl DummyInputOutput {
    /// A channel that has been given nothing.
    pub fn new() -> (c: DummyInputOutput)
        ensures
            c.written() == Seq::<char>::empty(),
            c.pending() == Seq::<char>::empty(),
    {
        DummyInputOutput { dropped: Ghost(Seq::empty()) }
    }
}

impl InputOutput for DummyInputOutput {
    closed spec fn pending(&self) -> Seq<char> {
        Seq::empty()
    }

    closed spec fn written(&self) -> Seq<char> {
        self.dropped@
    }

    fn read(&mut self) -> (r: Option<char>) {
        None
    }

    fn write(&mut self, ch: char) {
        self.dropped = Ghost(self.dropped@.push(ch));
    }
}

/// A channel that keeps what it is given in a string and has no input.
pub struct StringInputOutput {
    pub output: String,
}

impl StringInputOutput {
    /// A channel with an empty string.
    pub fn new() -> (c: StringInputOutput)
        ensures
            c.output@ == Seq::<char>::empty(),
    {
        StringInputOutput { output: String::new() }
    }
}

impl InputOutput for StringInputOutput {
    open spec fn pending(&self) -> Seq<char> {
        Seq::empty()
    }

    open spec fn written(&self) -> Seq<char> {
        self.output@
    }

    fn read(&mut self) -> (r: Option<char>) {
        None
    }

    fn write(&mut self, ch: char) {
        self.output.push(ch);
    }
}

/// A channel that hands out the characters of a prepared list, one by one,
/// and keeps what it is given in a string.
pub struct ScriptInputOutput {
    /// The prepared characters.
    pub input: Vec<char>,
    /// How many of them have been handed out.
    pub taken: usize,
    /// What the channel was given.
    pub output: String,
}

impl ScriptInputOutput {
    /// A channel that will hand out `input` and has been given nothing.
    pub fn new(input: Vec<char>) -> (c: ScriptInputOutput)
        ensures
            c.input@ == input@,
            c.taken == 0,
            c.output@ == Seq::<char>::empty(),
            c.pending() == input@,
    {
        let c = ScriptInputOutput { input, taken: 0, output: String::new() };
        proof {
            assert(c.input@.skip(0) =~= c.input@);
        }
        c
    }
}

impl InputOutput for ScriptInputOutput {
    open spec fn pending(&self) -> Seq<char> {
        if self.taken <= self.input@.len() {
            self.input@.skip(self.taken as int)
        } else {
            Seq::empty()
        }
    }

    open spec fn written(&self) -> Seq<char> {
        self.output@
    }

    fn read(&mut self) -> (r: Option<char>) {
        if self.taken < self.input.len() {
            let c = self.input[self.taken];
            proof {
                assert(self.input@.skip(self.taken as int).skip(1) =~= self.input@.skip(
                    self.taken + 1,
                ));
            }
            self.taken += 1;
            Some(c)
        } else {
            None
        }
    }

    fn write(&mut self, ch: char) {
        self.output.push(ch);
    }
}

/// A channel that prints what it is given on the standard output and has no
/// input. Of what it printed it keeps a record that exists in proofs only.
pub struct ConsoleInputOutput {
    printed: Ghost<Seq<char>>,
}

impl ConsoleInputOutput {
    /// A channel that has printed nothing.
    pub fn new() -> (c: ConsoleInputOutput)
        ensures
            c.written() == Seq::<char>::empty(),
            c.pending() == Seq::<char>::empty(),
    {
        ConsoleInputOutput { printed: Ghost(Seq::empty()) }
    }
}

impl InputOutput for ConsoleInputOutput {
    closed spec fn pending(&self) -> Seq<char> {
        Seq::empty()
    }

    closed spec fn written(&self) -> Seq<char> {
        self.printed@
    }

    fn read(&mut self) -> (r: Option<char>) {
        None
    }

    fn write(&mut self, ch: char) {
        print_char(ch);
        self.printed = Ghost(self.printed@.push(ch));
    }
}

/// Writes the character to the standard output, through `write!` on
/// `std::io::stdout()`. Nothing is claimed of it, and a failure of the
/// standard output is not reported.
#[verifier::external_body]
fn print_char(ch: char) {
    let _ = write!(std::io::stdout(), "{}", ch);
}

} // verus!
