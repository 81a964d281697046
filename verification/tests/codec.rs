use hutter::codec::{decompress_auto, detect, Codec, Outcome, Restored};
use hutter::error::CodecError;

#[test]
fn ppm_names_select_distinct_byte_and_bit_families() {
    assert_eq!(Codec::parse("ppm-o6").unwrap(), Codec::BytePpmO6);
    assert_eq!(Codec::parse("ppm-bit-o64").unwrap(), Codec::BitPpmO64);
    assert_eq!(Codec::parse("ppm").unwrap(), Codec::BytePpmO3);
    assert_eq!(Codec::parse("ppm-bit").unwrap(), Codec::BitPpmO8);
    assert_eq!(Codec::parse("ppm-byte-mix").unwrap(), Codec::BytePpmMix);
    assert_eq!(Codec::parse("ppmd").unwrap(), Codec::Ppmd);
    assert_eq!(Codec::parse("ppmd-bit").unwrap(), Codec::PpmdBit);
    assert_eq!(Codec::parse("ppmd-mix").unwrap(), Codec::PpmdMix);
    assert_eq!(Codec::parse("ppm-bit-mix").unwrap(), Codec::BitPpmMix);
    assert_eq!(Codec::parse("ppm-mix").unwrap(), Codec::PpmMix);
    assert_eq!(Codec::parse("match").unwrap(), Codec::MatchModel);
    assert_eq!(Codec::parse("ppm-match-mix").unwrap(), Codec::PpmMatchMix);
}

/// Restores `archive` into a fresh output.
fn auto(archive: &[u8]) -> (Restored, Vec<u8>) {
    let mut out = Vec::new();
    let r = decompress_auto(archive, &mut out);
    (r, out)
}

const ALL: [Codec; 23] = [
    Codec::BlockHuffman,
    Codec::AdaptiveHuffman,
    Codec::Lz77,
    Codec::BytePpmO1,
    Codec::BytePpmO2,
    Codec::BytePpmO3,
    Codec::BytePpmO4,
    Codec::BytePpmO5,
    Codec::BytePpmO6,
    Codec::BitPpmO8,
    Codec::BitPpmOrder8,
    Codec::BitPpmO16,
    Codec::BitPpmO32,
    Codec::BitPpmO64,
    Codec::BytePpmMix,
    Codec::Ppmd,
    Codec::PpmdBit,
    Codec::PpmdMix,
    Codec::BitPpmMix,
    Codec::PpmMix,
    Codec::MatchModel,
    Codec::PpmMatchMix,
    Codec::WikiMix5,
];

#[test]
fn every_name_parses_back_to_its_codec() {
    for codec in ALL {
        assert_eq!(Codec::parse(codec.name()).unwrap(), codec);
    }
}

#[test]
fn codec_aliases_and_unknown_names() {
    assert_eq!(Codec::parse("block-huffman").unwrap(), Codec::BlockHuffman);
    assert_eq!(Codec::parse("context-huffman").unwrap(), Codec::AdaptiveHuffman);
    assert_eq!(Codec::parse("wmx5").unwrap(), Codec::WikiMix5);
    assert_eq!(Codec::parse("pmmatch").unwrap(), Codec::PpmMatchMix);
    assert_eq!(Codec::parse("ppm7"), Err(CodecError::UnknownCodec));
    assert_eq!(Codec::parse(""), Err(CodecError::UnknownCodec));
    assert_eq!(Codec::BytePpmO3.name(), "ppm");
    assert_eq!(Codec::AdaptiveHuffman.name(), "huffman-o1");
}

#[test]
fn auto_roundtrip_through_every_library_codec() {
    let input = b"banana bandana banana bandana banana bandana";
    for codec in ALL {
        match codec.compress(input) {
            Outcome::Done(result) => {
                let archive = result.unwrap();
                assert_eq!(detect(&archive), Ok(codec));
                match auto(&archive) {
                    (Restored::Done(result), restored) => {
                        result.unwrap();
                        assert_eq!(restored, input);
                    }
                    (Restored::Delegate(_), _) => panic!("a library codec was delegated"),
                }
            }
            Outcome::Delegate(delegated) => {
                assert_eq!(delegated, codec);
                assert!(matches!(
                    codec,
                    Codec::BlockHuffman
                        | Codec::BytePpmMix
                        | Codec::PpmdBit
                        | Codec::PpmdMix
                        | Codec::BitPpmMix
                        | Codec::PpmMix
                        | Codec::PpmMatchMix
                ));
            }
        }
    }
}

#[test]
fn auto_detection_errors_and_delegation() {
    assert!(matches!(auto(b"PP").0, Restored::Done(Err(CodecError::UnexpectedEof))));
    assert!(matches!(auto(b"ZZZZ1234").0, Restored::Done(Err(CodecError::UnknownFormat))));
    assert!(matches!(auto(b"PMIX\x00\x00\x00\x00\x00\x00\x00\x00").0, Restored::Delegate(Codec::PpmMix)));
    assert!(matches!(auto(b"PDBT").0, Restored::Delegate(Codec::PpmdBit)));
    assert_eq!(detect(b"WMX5"), Ok(Codec::WikiMix5));
    assert_eq!(detect(b"abc"), Err(CodecError::UnexpectedEof));
}

#[test]
fn auto_reports_each_codecs_header_errors() {
    assert!(matches!(auto(b"PPMD\x01\x00").0, Restored::Done(Err(CodecError::UnexpectedEof))));
    assert!(matches!(auto(b"AHF1\x00\x00\x00\x00").0, Restored::Done(Err(CodecError::InvalidBlockSize))));
    assert!(matches!(auto(b"AHF1\x00\x00\x01\x00\x05").0, Restored::Done(Err(CodecError::UnexpectedEof))));
    assert!(matches!(
        auto(b"PMAT\x01\x00\x00\x00\x00\x00\x00\x00XXXX").0,
        Restored::Done(Err(CodecError::LegacyFormat))
    ));
    match auto(b"WMX5\x00\x00\x00\x00\x00\x00\x00\x00") {
        (Restored::Done(Ok(())), v) => assert!(v.is_empty()),
        _ => panic!("an empty WMX5 archive restores to nothing"),
    }
}

#[test]
fn ppm_bit_is_the_order_three_bit_coder() {
    let input = b"the cat sat on the mat; the cat sat on the mat";
    let archive = match Codec::parse("ppm-bit").unwrap().compress(input) {
        Outcome::Done(result) => result.unwrap(),
        Outcome::Delegate(_) => panic!("ppm-bit runs in the library"),
    };
    assert_eq!(&archive[..4], b"PB03");
    assert_eq!(archive, hutter::ppm::compress_order3(input).unwrap());
    assert_ne!(archive[12..], hutter::ppm::compress_order8(input).unwrap()[12..]);
    let order8 = match Codec::parse("ppm-bit-o8").unwrap().compress(input) {
        Outcome::Done(result) => result.unwrap(),
        Outcome::Delegate(_) => panic!("ppm-bit-o8 runs in the library"),
    };
    assert_eq!(&order8[..4], b"PB08");
    assert_eq!(order8, hutter::ppm::compress_order8(input).unwrap());
    assert_eq!(detect(&order8), Ok(Codec::BitPpmOrder8));
    match auto(&order8) {
        (Restored::Done(Ok(())), restored) => assert_eq!(restored, input),
        _ => panic!("PB08 archives are restored by the library"),
    }
}

#[test]
fn auto_keeps_complete_huffman_blocks_on_error() {
    let input: Vec<u8> = (0..70_000u32).map(|i| (i % 7) as u8).collect();
    let mut archive = match Codec::AdaptiveHuffman.compress(&input) {
        Outcome::Done(result) => result.unwrap(),
        Outcome::Delegate(_) => panic!("huffman-o1 runs in the library"),
    };
    let first_payload = u32::from_le_bytes([archive[20], archive[21], archive[22], archive[23]]) as usize;
    let second = 16 + 8 + first_payload;
    archive[second..second + 4].copy_from_slice(&0u32.to_le_bytes());
    let (r, out) = auto(&archive);
    assert!(matches!(r, Restored::Done(Err(CodecError::InvalidBlockLength))));
    assert_eq!(out, &input[..65536]);
    // Another coder gives nothing on error.
    let (r, out) = auto(b"PPMD\x01\x00");
    assert!(matches!(r, Restored::Done(Err(CodecError::UnexpectedEof))));
    assert!(out.is_empty());
}
