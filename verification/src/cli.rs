//! The command line: `compress`, `decompress`, `stats` and `profile`, each
//! with its paths, and `--no-progress` accepted anywhere.
use vstd::prelude::*;
use crate::codec::{Codec, parse_spec, str_eq};
use crate::error::CodecError;

verus! {

/// What the program is asked to do.
pub enum Command<'a> {
    Compress { codec: Codec, input_path: &'a str, output_path: &'a str, show_progress: bool },
    Decompress { input_path: &'a str, output_path: &'a str, show_progress: bool },
    Stats { input_path: &'a str, archive_path: &'a str, show_progress: bool },
    Profile { input_path: &'a str, show_progress: bool },
}

/// A command with its paths as character sequences.
pub enum CommandView {
    Compress { codec: Codec, input_path: Seq<char>, output_path: Seq<char>, show_progress: bool },
    Decompress { input_path: Seq<char>, output_path: Seq<char>, show_progress: bool },
    Stats { input_path: Seq<char>, archive_path: Seq<char>, show_progress: bool },
    Profile { input_path: Seq<char>, show_progress: bool },
}

impl<'a> Command<'a> {
    pub open spec fn view(&self) -> CommandView {
        match *self {
            Command::Compress { codec, input_path, output_path, show_progress } => CommandView::Compress {
                codec,
                input_path: input_path@,
                output_path: output_path@,
                show_progress,
            },
            Command::Decompress { input_path, output_path, show_progress } => CommandView::Decompress {
                input_path: input_path@,
                output_path: output_path@,
                show_progress,
            },
            Command::Stats { input_path, archive_path, show_progress } => CommandView::Stats {
                input_path: input_path@,
                archive_path: archive_path@,
                show_progress,
            },
            Command::Profile { input_path, show_progress } => CommandView::Profile {
                input_path: input_path@,
                show_progress,
            },
        }
    }
}

/// The arguments with every `--no-progress` left out.
pub open spec fn drop_flag(args: Seq<Seq<char>>) -> Seq<Seq<char>>
    decreases args.len(),
{
    if args.len() == 0 {
        Seq::empty()
    } else if args.last() == "--no-progress"@ {
        drop_flag(args.drop_last())
    } else {
        drop_flag(args.drop_last()).push(args.last())
    }
}

/// The command that `args` (the program's name first) asks for.
pub open spec fn parse_args_spec(args: Seq<Seq<char>>) -> Result<CommandView, CodecError> {
    if args.len() < 2 {
        Err(CodecError::Usage)
    } else {
        let show_progress = !args.contains("--no-progress"@);
        let f = drop_flag(args);
        let cmd = args[1];
        if cmd == "compress"@ {
            if f.len() == 4 {
                Ok(
                    CommandView::Compress {
                        codec: Codec::BlockHuffman,
                        input_path: f[2],
                        output_path: f[3],
                        show_progress,
                    },
                )
            } else if f.len() == 6 && f[2] == "--codec"@ {
                match parse_spec(f[3]) {
                    Some(codec) => Ok(
                        CommandView::Compress { codec, input_path: f[4], output_path: f[5], show_progress },
                    ),
                    None => Err(CodecError::UnknownCodec),
                }
            } else {
                Err(CodecError::Usage)
            }
        } else if cmd == "decompress"@ {
            if f.len() == 4 {
                Ok(CommandView::Decompress { input_path: f[2], output_path: f[3], show_progress })
            } else {
                Err(CodecError::Usage)
            }
        } else if cmd == "stats"@ {
            if f.len() == 4 {
                Ok(CommandView::Stats { input_path: f[2], archive_path: f[3], show_progress })
            } else {
                Err(CodecError::Usage)
            }
        } else if cmd == "profile"@ {
            if f.len() == 3 {
                Ok(CommandView::Profile { input_path: f[2], show_progress })
            } else {
                Err(CodecError::Usage)
            }
        } else {
            Err(CodecError::Usage)
        }
    }
}

/// The arguments as character sequences.
pub open spec fn args_view(args: Seq<String>) -> Seq<Seq<char>> {
    args.map_values(|s: String| s@)
}

/// The arguments other than `--no-progress`, in order.
fn filtered_args<'a>(args: &'a [String]) -> (r: Vec<&'a str>)
    ensures
        r@.len() == drop_flag(args_view(args@)).len(),
        forall|i: int| 0 <= i < r@.len() ==> (#[trigger] r@[i])@ == drop_flag(args_view(args@))[i],
{
    let ghost av = args_view(args@);
    let mut r: Vec<&'a str> = Vec::new();
    let mut i: usize = 0;
    assert(av.take(0) =~= Seq::<Seq<char>>::empty());
    while i < args.len()
        invariant
            av == args_view(args@),
            i <= args@.len(),
            r@.len() == drop_flag(av.take(i as int)).len(),
            forall|j: int| 0 <= j < r@.len() ==> (#[trigger] r@[j])@ == drop_flag(av.take(i as int))[j],
        decreases args@.len() - i,
    {
        let a: &'a str = args[i].as_str();
        proof {
            assert(av.take(i as int + 1).drop_last() =~= av.take(i as int));
            assert(av.take(i as int + 1).last() == av[i as int]);
            reveal_strlit("--no-progress");
        }
        if !str_eq(a, "--no-progress") {
            r.push(a);
        }
        i = i + 1;
    }
    assert(av.take(args@.len() as int) =~= av);
    r
}

/// Whether `--no-progress` is among the arguments.
fn has_no_progress(args: &[String]) -> (b: bool)
    ensures
        b == args_view(args@).contains("--no-progress"@),
{
    let ghost av = args_view(args@);
    let mut i: usize = 0;
    while i < args.len()
        invariant
            av == args_view(args@),
            i <= args@.len(),
            forall|j: int| 0 <= j < i ==> av[j] != "--no-progress"@,
        decreases args@.len() - i,
    {
        if str_eq(args[i].as_str(), "--no-progress") {
            assert(av[i as int] == "--no-progress"@);
            return true;
        }
        i = i + 1;
    }
    false
}

/// Reads the command from the arguments (the program's name first).
pub fn parse_args<'a>(args: &'a [String]) -> (r: Result<Command<'a>, CodecError>)
    ensures
        match parse_args_spec(args_view(args@)) {
            Ok(c) => r is Ok && r->Ok_0.view() == c,
            Err(e) => r == Err::<Command<'a>, CodecError>(e),
        },
{
    let ghost av = args_view(args@);
    if args.len() < 2 {
        return Err(CodecError::Usage);
    }
    let show_progress = !has_no_progress(args);
    let f = filtered_args(args);
    let ghost fv = drop_flag(av);
    let cmd = args[1].as_str();
    assert(cmd@ == av[1]);
    if str_eq(cmd, "compress") {
        if f.len() == 4 {
            Ok(Command::Compress { codec: Codec::BlockHuffman, input_path: f[2], output_path: f[3], show_progress })
        } else if f.len() == 6 && str_eq(f[2], "--codec") {
            let codec = match Codec::parse(f[3]) {
                Ok(c) => c,
                Err(e) => {
                    return Err(e);
                },
            };
            Ok(Command::Compress { codec, input_path: f[4], output_path: f[5], show_progress })
        } else {
            Err(CodecError::Usage)
        }
    } else if str_eq(cmd, "decompress") {
        if f.len() == 4 {
            Ok(Command::Decompress { input_path: f[2], output_path: f[3], show_progress })
        } else {
            Err(CodecError::Usage)
        }
    } else if str_eq(cmd, "stats") {
        if f.len() == 4 {
            Ok(Command::Stats { input_path: f[2], archive_path: f[3], show_progress })
        } else {
            Err(CodecError::Usage)
        }
    } else if str_eq(cmd, "profile") {
        if f.len() == 3 {
            Ok(Command::Profile { input_path: f[2], show_progress })
        } else {
            Err(CodecError::Usage)
        }
    } else {
        Err(CodecError::Usage)
    }
}

/// Whether a command shows progress.
pub open spec fn shows_progress(c: CommandView) -> bool {
    match c {
        CommandView::Compress { show_progress, .. } => show_progress,
        CommandView::Decompress { show_progress, .. } => show_progress,
        CommandView::Stats { show_progress, .. } => show_progress,
        CommandView::Profile { show_progress, .. } => show_progress,
    }
}

/// Whatever the command, it shows progress exactly when no argument is
/// `--no-progress`.
pub proof fn lemma_progress_flag(args: Seq<Seq<char>>)
    ensures
        parse_args_spec(args) matches Ok(c) ==> shows_progress(c) == (forall|i: int|
            0 <= i < args.len() ==> #[trigger] args[i] != "--no-progress"@),
{
    if args.contains("--no-progress"@) {
        let i = choose|i: int| 0 <= i < args.len() && args[i] == "--no-progress"@;
        assert(args[i] == "--no-progress"@);
    }
}

proof fn lemma_drop_flag_none(args: Seq<Seq<char>>)
    requires
        forall|i: int| 0 <= i < args.len() ==> #[trigger] args[i] != "--no-progress"@,
    ensures
        drop_flag(args) == args,
    decreases args.len(),
{
    if args.len() > 0 {
        lemma_drop_flag_none(args.drop_last());
        assert(args.drop_last().push(args.last()) =~= args);
    }
}

/// Without `--no-progress`, each command takes its paths from the
/// arguments after it, in order, and shows progress: `compress IN OUT`
/// with the default Huffman coder, `compress --codec NAME IN OUT` with the
/// named coder, `decompress IN OUT`, `stats IN ARCHIVE` and `profile IN`.
pub proof fn lemma_command_shapes(args: Seq<Seq<char>>)
    requires
        forall|i: int| 0 <= i < args.len() ==> #[trigger] args[i] != "--no-progress"@,
    ensures
        args.len() == 4 && args[1] == "compress"@ ==> parse_args_spec(args) == Ok::<CommandView, CodecError>(
            CommandView::Compress { codec: Codec::BlockHuffman, input_path: args[2], output_path: args[3], show_progress: true },
        ),
        args.len() == 6 && args[1] == "compress"@ && args[2] == "--codec"@ && parse_spec(args[3]) is Some
            ==> parse_args_spec(args) == Ok::<CommandView, CodecError>(
            CommandView::Compress {
                codec: parse_spec(args[3])->Some_0,
                input_path: args[4],
                output_path: args[5],
                show_progress: true,
            },
        ),
        args.len() == 4 && args[1] == "decompress"@ ==> parse_args_spec(args) == Ok::<CommandView, CodecError>(
            CommandView::Decompress { input_path: args[2], output_path: args[3], show_progress: true },
        ),
        args.len() == 4 && args[1] == "stats"@ ==> parse_args_spec(args) == Ok::<CommandView, CodecError>(
            CommandView::Stats { input_path: args[2], archive_path: args[3], show_progress: true },
        ),
        args.len() == 3 && args[1] == "profile"@ ==> parse_args_spec(args) == Ok::<CommandView, CodecError>(
            CommandView::Profile { input_path: args[2], show_progress: true },
        ),
{
    lemma_drop_flag_none(args);
    assert(!args.contains("--no-progress"@));
    reveal_strlit("compress");
    reveal_strlit("decompress");
    reveal_strlit("stats");
    reveal_strlit("profile");
    assert("compress"@.len() == 8);
    assert("decompress"@.len() == 10);
    assert("stats"@.len() == 5);
    assert("profile"@.len() == 7);
    assert("stats"@[0] != "compress"@[0]);
    assert("profile"@[0] != "compress"@[0]);
    assert("profile"@[1] != "compress"@[1]);
}

} // verus!
