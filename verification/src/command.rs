//! The command line: which study to run, and on which files.

use vstd::prelude::*;

use crate::args::chars_of;
use crate::text::{
    decimal, lemma_decimal_digits, parse_usize, parsed, push_decimal, same_text,
};

verus! {

/// The studies and tools that can be run.
#[derive(Clone, Copy, Debug, PartialEq, Eq, Structural)]
pub enum Command {
    Sweep,
    Framed,
    L3live,
    Modeb,
    Transfer,
    Live,
    Dump,
    Readback,
    Goodput,
    Exp,
    Gprobe,
    Probe,
    Tprobe,
    Finder,
}

/// The command of that name.
pub open spec fn command_of(name: Seq<char>) -> Option<Command> {
    if name == "sweep"@ {
        Some(Command::Sweep)
    } else if name == "framed"@ {
        Some(Command::Framed)
    } else if name == "l3live"@ {
        Some(Command::L3live)
    } else if name == "modeb"@ {
        Some(Command::Modeb)
    } else if name == "transfer"@ {
        Some(Command::Transfer)
    } else if name == "live"@ {
        Some(Command::Live)
    } else if name == "dump"@ {
        Some(Command::Dump)
    } else if name == "readback"@ {
        Some(Command::Readback)
    } else if name == "goodput"@ {
        Some(Command::Goodput)
    } else if name == "exp"@ {
        Some(Command::Exp)
    } else if name == "gprobe"@ {
        Some(Command::Gprobe)
    } else if name == "probe"@ {
        Some(Command::Probe)
    } else if name == "tprobe"@ {
        Some(Command::Tprobe)
    } else if name == "finder"@ {
        Some(Command::Finder)
    } else {
        None
    }
}

/// The command that the arguments ask for, the program's name being the first.
pub fn parse_command(args: &[String]) -> (r: Option<Command>)
    ensures
        args@.len() < 2 ==> r is None,
        args@.len() >= 2 ==> r == command_of(args@[1]@),
{
    if args.len() < 2 {
        return None;
    }
    let name: &str = args[1].as_str();
    if same_text(name, "sweep") {
        Some(Command::Sweep)
    } else if same_text(name, "framed") {
        Some(Command::Framed)
    } else if same_text(name, "l3live") {
        Some(Command::L3live)
    } else if same_text(name, "modeb") {
        Some(Command::Modeb)
    } else if same_text(name, "transfer") {
        Some(Command::Transfer)
    } else if same_text(name, "live") {
        Some(Command::Live)
    } else if same_text(name, "dump") {
        Some(Command::Dump)
    } else if same_text(name, "readback") {
        Some(Command::Readback)
    } else if same_text(name, "goodput") {
        Some(Command::Goodput)
    } else if same_text(name, "exp") {
        Some(Command::Exp)
    } else if same_text(name, "gprobe") {
        Some(Command::Gprobe)
    } else if same_text(name, "probe") {
        Some(Command::Probe)
    } else if same_text(name, "tprobe") {
        Some(Command::Tprobe)
    } else if same_text(name, "finder") {
        Some(Command::Finder)
    } else {
        None
    }
}

/// The directory for image files: the argument after the command, or a default.
pub fn dump_dir(args: &[String]) -> (r: &str)
    ensures
        r@ == if args@.len() > 2 {
            args@[2]@
        } else {
            "psicode-sim-dump"@
        },
{
    if args.len() > 2 {
        args[2].as_str()
    } else {
        "psicode-sim-dump"
    }
}

/// The cell size that a photograph was taken with: the second argument after
/// the command, where it is a number that fits.
pub fn live_cell(args: &[String]) -> (r: Option<u8>)
    ensures
        r matches Some(cell) ==> args@.len() > 3 && parsed(args@[3]@) == Some(cell as usize),
        r is None ==> args@.len() <= 3 || parsed(args@[3]@) is None || parsed(args@[3]@)->0 > 255,
{
    if args.len() <= 3 {
        return None;
    }
    let chars: Vec<char> = chars_of(args[3].as_str());
    match parse_usize(chars.as_slice()) {
        Some(n) => {
            if n <= 255 {
                Some(n as u8)
            } else {
                None
            }
        },
        None => None,
    }
}

/// An image file of a dump.
#[derive(Clone, Copy, Debug, PartialEq, Eq, Structural)]
pub enum DumpFile {
    /// The frame as shown.
    Clean,
    /// The frame through a channel with a blur of `sigma` pixels.
    Blurred { sigma: usize },
    /// The frame through a channel that looks from the side.
    Perspective,
}

impl DumpFile {
    /// Name of the file.
    pub open spec fn file_name(self) -> Seq<char> {
        match self {
            DumpFile::Clean => "clean.ppm"@,
            DumpFile::Blurred { sigma } => "channel_s"@ + decimal(sigma as nat) + ".ppm"@,
            DumpFile::Perspective => "channel_perspective.ppm"@,
        }
    }

    /// Name of the file.
    pub fn name(self) -> (r: String)
        ensures
            r@ == self.file_name(),
    {
        match self {
            DumpFile::Clean => "clean.ppm".to_owned(),
            DumpFile::Blurred { sigma } => {
                let mut s: String = "channel_s".to_owned();
                push_decimal(&mut s, sigma);
                s.append(".ppm");
                s
            },
            DumpFile::Perspective => "channel_perspective.ppm".to_owned(),
        }
    }
}

/// The files of a dump, in the order in which they draw noise.
pub fn dump_files() -> (r: Vec<DumpFile>)
    ensures
        r@ == seq![
            DumpFile::Clean,
            DumpFile::Blurred { sigma: 1 },
            DumpFile::Blurred { sigma: 4 },
            DumpFile::Perspective,
        ],
{
    let mut r: Vec<DumpFile> = Vec::new();
    r.push(DumpFile::Clean);
    r.push(DumpFile::Blurred { sigma: 1 });
    r.push(DumpFile::Blurred { sigma: 4 });
    r.push(DumpFile::Perspective);
    r
}

/// A command has one name, and every other text asks for none of them.
pub proof fn lemma_command_names(a: Seq<char>, b: Seq<char>)
    requires
        command_of(a) is Some,
        command_of(a) == command_of(b),
    ensures
        a == b,
{
}

/// No two files of a dump share a name.
pub proof fn lemma_file_names_differ(a: DumpFile, b: DumpFile)
    requires
        a.file_name() == b.file_name(),
    ensures
        a == b,
{
    reveal_strlit("clean.ppm");
    reveal_strlit("channel_s");
    reveal_strlit(".ppm");
    reveal_strlit("channel_perspective.ppm");
    let n = a.file_name();
    match (a, b) {
        (DumpFile::Blurred { sigma: s }, DumpFile::Blurred { sigma: t }) => {
            let (p, q) = (decimal(s as nat), decimal(t as nat));
            assert(a.file_name().len() == 13 + p.len() && b.file_name().len() == 13 + q.len());
            assert(n.subrange(9, 9 + p.len() as int) =~= p);
            assert(n.subrange(9, 9 + p.len() as int) =~= q);
            lemma_decimal_digits(s as nat);
            lemma_decimal_digits(t as nat);
        },
        (DumpFile::Blurred { .. }, DumpFile::Perspective) => {
            assert(a.file_name()[8] != b.file_name()[8]);
        },
        (DumpFile::Perspective, DumpFile::Blurred { .. }) => {
            assert(a.file_name()[8] != b.file_name()[8]);
        },
        (DumpFile::Clean, DumpFile::Clean) => {},
        (DumpFile::Perspective, DumpFile::Perspective) => {},
        _ => {
            assert(a.file_name()[1] != b.file_name()[1]);
        },
    }
}

} // verus!
