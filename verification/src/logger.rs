use vstd::prelude::*;
use vstd::string::StringExecFns;

verus! {

/// Where messages for the user go.
pub trait Logger {
    /// Takes a message.
    fn print(&mut self, msg: String);

    /// Takes a message and ends the line.
    fn println(&mut self, msg: String);
}

/// A logger that keeps what it is given.
#[derive(Debug)]
pub struct AccumulatingLogger {
    data: String,
}

impl View for AccumulatingLogger {
    type V = Seq<char>;

    closed spec fn view(&self) -> Seq<char> {
        self.data@
    }
}

impl AccumulatingLogger {
    pub fn new() -> (r: Self)
        ensures
            r@ == Seq::<char>::empty(),
    {
        AccumulatingLogger { data: String::new() }
    }

    /// What was logged so far.
    pub fn get(&self) -> (r: &String)
        ensures
            r@ == self@,
    {
        &self.data
    }

    /// Forgets what was logged.
    pub fn reset(&mut self)
        ensures
            final(self)@ == Seq::<char>::empty(),
    {
        self.data = String::new();
    }
}

impl Logger for AccumulatingLogger {
    fn print(&mut self, msg: String)
        ensures
            final(self)@ == old(self)@ + msg@,
    {
        self.data.append(msg.as_str());
    }

    fn println(&mut self, msg: String)
        ensures
            final(self)@ == old(self)@ + msg@ + seq!['\n'],
    {
        self.data.append(msg.as_str());
        proof {
            reveal_strlit("\n");
            assert("\n"@ =~= seq!['\n']);
        }
        self.data.append("\n");
    }
}

/// The switch of a logger that can be silenced.
#[derive(Debug, Clone, Copy)]
pub struct ToggleableLogger {
    silent: bool,
}

impl ToggleableLogger {
    /// A logger that is not silent.
    pub fn new() -> (r: Self)
        ensures
            !r.silent(),
    {
        ToggleableLogger { silent: false }
    }

    /// Whether messages are dropped.
    pub closed spec fn silent(&self) -> bool {
        self.silent
    }

    pub fn toggle(&mut self, silent: bool)
        ensures
            final(self).silent() == silent,
    {
        self.silent = silent;
    }

    pub fn is_silent(&self) -> (r: bool)
        ensures
            r == self.silent(),
    {
        self.silent
    }

    /// What is to be shown of a message: the message itself, or nothing if
    /// the logger is silent.
    pub fn pass(&self, msg: String) -> (r: Option<String>)
        ensures
            self.silent() ==> r.is_none(),
            !self.silent() ==> r == Some(msg),
    {
        if self.silent {
            None
        } else {
            Some(msg)
        }
    }
}

/// A logger that drops what it is given.
#[derive(Debug, Clone, Copy)]
pub struct SilentLogger {}

impl SilentLogger {
    pub fn new() -> (r: Self) {
        SilentLogger {  }
    }
}

impl Logger for SilentLogger {
    fn print(&mut self, msg: String) {
    }

    fn println(&mut self, msg: String) {
    }
}

} // verus!
