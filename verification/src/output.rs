//! The status reporter: verbosity-gated, prefixed, line-oriented.

use vstd::prelude::*;
use vstd::string::StringExecFns;
use std::io::Write;
use crate::verbosity::VerbosityLevel;

verus! {

/// The full line one report writes out: the prefix in brackets,
/// a separator, then the message.
pub open spec fn spec_line(prefix: Seq<char>, msg: Seq<char>) -> Seq<char> {
    seq!['['] + prefix + seq![']', ':', ' '] + msg
}

/// Relies on std::io::Stdout: writes one prefixed line to the
/// primary output stream; a failed write is discarded on purpose.
#[verifier::external_body]
fn write_line_stdout(prefix: &str, msg: &str) {
    writeln!(std::io::stdout().lock(), "[{}]: {}", prefix, msg).ok();
}

/// Relies on std::io::Stderr: writes one prefixed line to the
/// secondary output stream; a failed write is discarded on purpose.
#[verifier::external_body]
fn write_line_stderr(prefix: &str, msg: &str) {
    writeln!(std::io::stderr().lock(), "[{}]: {}", prefix, msg).ok();
}

/// Writes prefixed status lines to one of the two output streams,
/// letting through only what the verbosity level admits.
///
/// The ghost log keeps every line that passed the filter, so the
/// contracts say exactly what reaches the chosen stream; writing
/// itself can fail silently and is never retried.
pub struct OutputHandler {
    /// Put in front of every message, in brackets.
    pub prefix: String,
    /// The filter threshold.
    pub verbosity_level: VerbosityLevel,
    /// Write to the secondary stream instead of the primary one.
    pub print_to_stderr: bool,
    /// Every line handed to the stream so far, oldest first.
    pub log: Ghost<Seq<Seq<char>>>,
}

impl OutputHandler {
    /// A reporter with an empty log.
    pub fn new(prefix: String, verbosity_level: VerbosityLevel, print_to_stderr: bool) -> (r:
        OutputHandler)
        ensures
            r.prefix == prefix,
            r.verbosity_level == verbosity_level,
            r.print_to_stderr == print_to_stderr,
            r.log@ == Seq::<Seq<char>>::empty(),
    {
        OutputHandler { prefix, verbosity_level, print_to_stderr, log: Ghost(Seq::empty()) }
    }

    /// Hands one line to the configured stream, unconditionally.
    fn print_with_prefix(&mut self, msg: &str)
        ensures
            final(self).prefix == old(self).prefix,
            final(self).verbosity_level == old(self).verbosity_level,
            final(self).print_to_stderr == old(self).print_to_stderr,
            final(self).log@ == old(self).log@.push(spec_line(old(self).prefix@, msg@)),
    {
        if self.print_to_stderr {
            write_line_stderr(self.prefix.as_str(), msg);
        } else {
            write_line_stdout(self.prefix.as_str(), msg);
        }
        self.log = Ghost(self.log@.push(spec_line(self.prefix@, msg@)));
    }

    /// Reports a lifecycle message: written unless the level is
    /// `Quiet`.
    pub fn print(&mut self, msg: &str)
        ensures
            final(self).prefix == old(self).prefix,
            final(self).verbosity_level == old(self).verbosity_level,
            final(self).print_to_stderr == old(self).print_to_stderr,
            final(self).log@ == if old(self).verbosity_level != VerbosityLevel::Quiet {
                old(self).log@.push(spec_line(old(self).prefix@, msg@))
            } else {
                old(self).log@
            },
    {
        match self.verbosity_level {
            VerbosityLevel::Verbose | VerbosityLevel::Normal => self.print_with_prefix(msg),
            _ => {},
        }
    }

    /// Reports a progress detail: written only at `Verbose`.
    pub fn print_verbose(&mut self, msg: &str)
        ensures
            final(self).prefix == old(self).prefix,
            final(self).verbosity_level == old(self).verbosity_level,
            final(self).print_to_stderr == old(self).print_to_stderr,
            final(self).log@ == if old(self).verbosity_level == VerbosityLevel::Verbose {
                old(self).log@.push(spec_line(old(self).prefix@, msg@))
            } else {
                old(self).log@
            },
    {
        if self.verbosity_level == VerbosityLevel::Verbose {
            self.print_with_prefix(msg)
        }
    }
}

} // verus!
