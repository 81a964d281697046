use hutter::cli::{parse_args, Command};
use hutter::codec::Codec;
use hutter::error::CodecError;

fn args(list: &[&str]) -> Vec<String> {
    list.iter().map(|s| s.to_string()).collect()
}

#[test]
fn compress_defaults_to_block_huffman() {
    let a = args(&["hutter", "compress", "in.txt", "out.bin"]);
    match parse_args(&a) {
        Ok(Command::Compress { codec, input_path, output_path, show_progress }) => {
            assert_eq!(codec, Codec::BlockHuffman);
            assert_eq!(input_path, "in.txt");
            assert_eq!(output_path, "out.bin");
            assert!(show_progress);
        }
        _ => panic!("expected a compress command"),
    }
}

#[test]
fn compress_with_codec_and_no_progress_anywhere() {
    let a = args(&["hutter", "compress", "--codec", "--no-progress", "ppmd", "in", "out"]);
    match parse_args(&a) {
        Ok(Command::Compress { codec, input_path, output_path, show_progress }) => {
            assert_eq!(codec, Codec::Ppmd);
            assert_eq!(input_path, "in");
            assert_eq!(output_path, "out");
            assert!(!show_progress);
        }
        _ => panic!("expected a compress command"),
    }
}

#[test]
fn other_commands() {
    let a = args(&["hutter", "decompress", "a", "b", "--no-progress"]);
    assert!(matches!(
        parse_args(&a),
        Ok(Command::Decompress { input_path: "a", output_path: "b", show_progress: false })
    ));
    let a = args(&["hutter", "stats", "a", "b"]);
    assert!(matches!(parse_args(&a), Ok(Command::Stats { input_path: "a", archive_path: "b", show_progress: true })));
    let a = args(&["hutter", "profile", "a"]);
    assert!(matches!(parse_args(&a), Ok(Command::Profile { input_path: "a", show_progress: true })));
}

#[test]
fn usage_errors() {
    assert!(matches!(parse_args(&args(&["hutter"])), Err(CodecError::Usage)));
    assert!(matches!(parse_args(&args(&["hutter", "squeeze", "a", "b"])), Err(CodecError::Usage)));
    assert!(matches!(parse_args(&args(&["hutter", "compress", "a"])), Err(CodecError::Usage)));
    assert!(matches!(parse_args(&args(&["hutter", "compress", "-c", "ppm", "a", "b"])), Err(CodecError::Usage)));
    assert!(matches!(parse_args(&args(&["hutter", "decompress", "a", "b", "c"])), Err(CodecError::Usage)));
    assert!(matches!(parse_args(&args(&["hutter", "profile"])), Err(CodecError::Usage)));
    assert!(matches!(
        parse_args(&args(&["hutter", "compress", "--codec", "zip", "a", "b"])),
        Err(CodecError::UnknownCodec)
    ));
}
