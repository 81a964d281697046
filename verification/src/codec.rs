//! The codec catalogue: each codec's command-line name, the names and
//! aliases the command line accepts, and which codec an archive's four-byte
//! tag belongs to.
use vstd::prelude::*;
use vstd::string::StrSliceExecFns;
use crate::bits::{bytes_to_bits, le_u32, le_u64};
use crate::error::CodecError;
use crate::{adaptive_huffman, byte_ppm, hybrid_ppm, lz77, ppm, ppm_match_mix, ppmd, ppmd_bit, ppmd_mix, wikimix};

verus! {

/// Every codec the program offers.
#[derive(Clone, Copy, Debug, PartialEq, Eq, Structural)]
pub enum Codec {
    BlockHuffman,
    AdaptiveHuffman,
    Lz77,
    BytePpmO1,
    BytePpmO2,
    BytePpmO3,
    BytePpmO4,
    BytePpmO5,
    BytePpmO6,
    /// `ppm-bit`: the order-3 bit-level coder (`PB03` archives).
    BitPpmO8,
    /// `ppm-bit-o8`: the bit-level coder with contexts of up to 8 bits
    /// (`PB08` archives).
    BitPpmOrder8,
    BitPpmO16,
    BitPpmO32,
    BitPpmO64,
    BytePpmMix,
    Ppmd,
    PpmdBit,
    PpmdMix,
    BitPpmMix,
    PpmMix,
    MatchModel,
    PpmMatchMix,
    WikiMix5,
}

/// The name a codec is shown under.
pub open spec fn name_spec(c: Codec) -> Seq<char> {
    match c {
        Codec::BlockHuffman => "huffman"@,
        Codec::AdaptiveHuffman => "huffman-o1"@,
        Codec::Lz77 => "lz77"@,
        Codec::BytePpmO1 => "ppm-o1"@,
        Codec::BytePpmO2 => "ppm-o2"@,
        Codec::BytePpmO3 => "ppm"@,
        Codec::BytePpmO4 => "ppm-o4"@,
        Codec::BytePpmO5 => "ppm-o5"@,
        Codec::BytePpmO6 => "ppm-o6"@,
        Codec::BitPpmO8 => "ppm-bit"@,
        Codec::BitPpmOrder8 => "ppm-bit-o8"@,
        Codec::BitPpmO16 => "ppm-bit-o16"@,
        Codec::BitPpmO32 => "ppm-bit-o32"@,
        Codec::BitPpmO64 => "ppm-bit-o64"@,
        Codec::BytePpmMix => "ppm-byte-mix"@,
        Codec::Ppmd => "ppmd"@,
        Codec::PpmdBit => "ppmd-bit"@,
        Codec::PpmdMix => "ppmd-mix"@,
        Codec::BitPpmMix => "ppm-bit-mix"@,
        Codec::PpmMix => "ppm-mix"@,
        Codec::MatchModel => "match"@,
        Codec::PpmMatchMix => "ppm-match-mix"@,
        Codec::WikiMix5 => "wikimix5"@,
    }
}

/// The codec a command-line name or alias selects, if any.
pub open spec fn parse_spec(v: Seq<char>) -> Option<Codec> {
    if v == "block-huffman"@ || v == "huffman"@ {
        Some(Codec::BlockHuffman)
    } else if v == "adaptive-huffman"@ || v == "context-huffman"@ || v == "huffman-o1"@ {
        Some(Codec::AdaptiveHuffman)
    } else if v == "lz77"@ {
        Some(Codec::Lz77)
    } else if v == "ppm-o1"@ || v == "ppm1"@ {
        Some(Codec::BytePpmO1)
    } else if v == "ppm-o2"@ || v == "ppm2"@ {
        Some(Codec::BytePpmO2)
    } else if v == "ppm"@ || v == "ppm-o3"@ || v == "ppm3"@ {
        Some(Codec::BytePpmO3)
    } else if v == "ppm-o4"@ || v == "ppm4"@ {
        Some(Codec::BytePpmO4)
    } else if v == "ppm-o5"@ || v == "ppm5"@ {
        Some(Codec::BytePpmO5)
    } else if v == "ppm-o6"@ || v == "ppm6"@ {
        Some(Codec::BytePpmO6)
    } else if v == "ppm-bit"@ {
        Some(Codec::BitPpmO8)
    } else if v == "ppm-bit-o8"@ {
        Some(Codec::BitPpmOrder8)
    } else if v == "ppm-bit-o16"@ {
        Some(Codec::BitPpmO16)
    } else if v == "ppm-bit-o32"@ {
        Some(Codec::BitPpmO32)
    } else if v == "ppm-bit-o64"@ {
        Some(Codec::BitPpmO64)
    } else if v == "ppm-byte-mix"@ || v == "ppm-mix-byte"@ || v == "ppmbmix"@ {
        Some(Codec::BytePpmMix)
    } else if v == "ppmd"@ {
        Some(Codec::Ppmd)
    } else if v == "ppmd-bit"@ || v == "ppmdbit"@ {
        Some(Codec::PpmdBit)
    } else if v == "ppmd-mix"@ || v == "ppmdmix"@ {
        Some(Codec::PpmdMix)
    } else if v == "ppm-bit-mix"@ || v == "ppmbitmix"@ {
        Some(Codec::BitPpmMix)
    } else if v == "ppm-mix"@ || v == "ppmmix"@ || v == "pmix"@ {
        Some(Codec::PpmMix)
    } else if v == "match"@ || v == "match-model"@ || v == "match-only"@ {
        Some(Codec::MatchModel)
    } else if v == "ppm-match-mix"@ || v == "ppmmatchmix"@ || v == "pmmatch"@ {
        Some(Codec::PpmMatchMix)
    } else if v == "wikimix5"@ || v == "wikimix"@ || v == "wmx5"@ {
        Some(Codec::WikiMix5)
    } else {
        None
    }
}

/// Whether two strings hold the same characters.
pub fn str_eq(a: &str, b: &str) -> (r: bool)
    ensures
        r == (a@ == b@),
{
    let n = a.unicode_len();
    if n != b.unicode_len() {
        return false;
    }
    let mut i: usize = 0;
    while i < n
        invariant
            n == a@.len(),
            n == b@.len(),
            i <= n,
            forall|j: int| 0 <= j < i ==> a@[j] == b@[j],
        decreases n - i,
    {
        if a.get_char(i) != b.get_char(i) {
            return false;
        }
        i = i + 1;
    }
    assert(a@ =~= b@);
    true
}

impl Codec {
    /// The name the codec is shown under.
    pub fn name(self) -> (s: &'static str)
        ensures
            s@ == name_spec(self),
    {
        match self {
            Codec::BlockHuffman => "huffman",
            Codec::AdaptiveHuffman => "huffman-o1",
            Codec::Lz77 => "lz77",
            Codec::BytePpmO1 => "ppm-o1",
            Codec::BytePpmO2 => "ppm-o2",
            Codec::BytePpmO3 => "ppm",
            Codec::BytePpmO4 => "ppm-o4",
            Codec::BytePpmO5 => "ppm-o5",
            Codec::BytePpmO6 => "ppm-o6",
            Codec::BitPpmO8 => "ppm-bit",
            Codec::BitPpmOrder8 => "ppm-bit-o8",
            Codec::BitPpmO16 => "ppm-bit-o16",
            Codec::BitPpmO32 => "ppm-bit-o32",
            Codec::BitPpmO64 => "ppm-bit-o64",
            Codec::BytePpmMix => "ppm-byte-mix",
            Codec::Ppmd => "ppmd",
            Codec::PpmdBit => "ppmd-bit",
            Codec::PpmdMix => "ppmd-mix",
            Codec::BitPpmMix => "ppm-bit-mix",
            Codec::PpmMix => "ppm-mix",
            Codec::MatchModel => "match",
            Codec::PpmMatchMix => "ppm-match-mix",
            Codec::WikiMix5 => "wikimix5",
        }
    }

    /// The codec a command-line name or alias selects; any other name is refused.
    pub fn parse(value: &str) -> (r: Result<Codec, CodecError>)
        ensures
            match parse_spec(value@) {
                Some(c) => r == Ok::<Codec, CodecError>(c),
                None => r == Err::<Codec, CodecError>(CodecError::UnknownCodec),
            },
    {
        if str_eq(value, "block-huffman") || str_eq(value, "huffman") {
            Ok(Codec::BlockHuffman)
        } else if str_eq(value, "adaptive-huffman") || str_eq(value, "context-huffman") || str_eq(value, "huffman-o1") {
            Ok(Codec::AdaptiveHuffman)
        } else if str_eq(value, "lz77") {
            Ok(Codec::Lz77)
        } else if str_eq(value, "ppm-o1") || str_eq(value, "ppm1") {
            Ok(Codec::BytePpmO1)
        } else if str_eq(value, "ppm-o2") || str_eq(value, "ppm2") {
            Ok(Codec::BytePpmO2)
        } else if str_eq(value, "ppm") || str_eq(value, "ppm-o3") || str_eq(value, "ppm3") {
            Ok(Codec::BytePpmO3)
        } else if str_eq(value, "ppm-o4") || str_eq(value, "ppm4") {
            Ok(Codec::BytePpmO4)
        } else if str_eq(value, "ppm-o5") || str_eq(value, "ppm5") {
            Ok(Codec::BytePpmO5)
        } else if str_eq(value, "ppm-o6") || str_eq(value, "ppm6") {
            Ok(Codec::BytePpmO6)
        } else if str_eq(value, "ppm-bit") {
            Ok(Codec::BitPpmO8)
        } else if str_eq(value, "ppm-bit-o8") {
            Ok(Codec::BitPpmOrder8)
        } else if str_eq(value, "ppm-bit-o16") {
            Ok(Codec::BitPpmO16)
        } else if str_eq(value, "ppm-bit-o32") {
            Ok(Codec::BitPpmO32)
        } else if str_eq(value, "ppm-bit-o64") {
            Ok(Codec::BitPpmO64)
        } else if str_eq(value, "ppm-byte-mix") || str_eq(value, "ppm-mix-byte") || str_eq(value, "ppmbmix") {
            Ok(Codec::BytePpmMix)
        } else if str_eq(value, "ppmd") {
            Ok(Codec::Ppmd)
        } else if str_eq(value, "ppmd-bit") || str_eq(value, "ppmdbit") {
            Ok(Codec::PpmdBit)
        } else if str_eq(value, "ppmd-mix") || str_eq(value, "ppmdmix") {
            Ok(Codec::PpmdMix)
        } else if str_eq(value, "ppm-bit-mix") || str_eq(value, "ppmbitmix") {
            Ok(Codec::BitPpmMix)
        } else if str_eq(value, "ppm-mix") || str_eq(value, "ppmmix") || str_eq(value, "pmix") {
            Ok(Codec::PpmMix)
        } else if str_eq(value, "match") || str_eq(value, "match-model") || str_eq(value, "match-only") {
            Ok(Codec::MatchModel)
        } else if str_eq(value, "ppm-match-mix") || str_eq(value, "ppmmatchmix") || str_eq(value, "pmmatch") {
            Ok(Codec::PpmMatchMix)
        } else if str_eq(value, "wikimix5") || str_eq(value, "wikimix") || str_eq(value, "wmx5") {
            Ok(Codec::WikiMix5)
        } else {
            Err(CodecError::UnknownCodec)
        }
    }
}

/// Every codec's shown name selects that codec again.
pub proof fn lemma_parse_name(c: Codec)
    ensures
        parse_spec(name_spec(c)) == Some(c),
{
    reveal_strlit("adaptive-huffman");
    reveal_strlit("block-huffman");
    reveal_strlit("context-huffman");
    reveal_strlit("huffman");
    reveal_strlit("huffman-o1");
    reveal_strlit("lz77");
    reveal_strlit("match");
    reveal_strlit("match-model");
    reveal_strlit("match-only");
    reveal_strlit("pmix");
    reveal_strlit("pmmatch");
    reveal_strlit("ppm");
    reveal_strlit("ppm-bit");
    reveal_strlit("ppm-bit-mix");
    reveal_strlit("ppm-bit-o16");
    reveal_strlit("ppm-bit-o32");
    reveal_strlit("ppm-bit-o64");
    reveal_strlit("ppm-bit-o8");
    reveal_strlit("ppm-byte-mix");
    reveal_strlit("ppm-match-mix");
    reveal_strlit("ppm-mix");
    reveal_strlit("ppm-mix-byte");
    reveal_strlit("ppm-o1");
    reveal_strlit("ppm-o2");
    reveal_strlit("ppm-o3");
    reveal_strlit("ppm-o4");
    reveal_strlit("ppm-o5");
    reveal_strlit("ppm-o6");
    reveal_strlit("ppm1");
    reveal_strlit("ppm2");
    reveal_strlit("ppm3");
    reveal_strlit("ppm4");
    reveal_strlit("ppm5");
    reveal_strlit("ppm6");
    reveal_strlit("ppmbitmix");
    reveal_strlit("ppmbmix");
    reveal_strlit("ppmd");
    reveal_strlit("ppmd-bit");
    reveal_strlit("ppmd-mix");
    reveal_strlit("ppmdbit");
    reveal_strlit("ppmdmix");
    reveal_strlit("ppmmatchmix");
    reveal_strlit("ppmmix");
    reveal_strlit("wikimix");
    reveal_strlit("wikimix5");
    reveal_strlit("wmx5");
    assert("adaptive-huffman"@.len() == 16);
    assert("block-huffman"@.len() == 13);
    assert("context-huffman"@.len() == 15);
    assert("huffman"@.len() == 7);
    assert("huffman-o1"@.len() == 10);
    assert("lz77"@.len() == 4);
    assert("match"@.len() == 5);
    assert("match-model"@.len() == 11);
    assert("match-only"@.len() == 10);
    assert("pmix"@.len() == 4);
    assert("pmmatch"@.len() == 7);
    assert("ppm"@.len() == 3);
    assert("ppm-bit"@.len() == 7);
    assert("ppm-bit-mix"@.len() == 11);
    assert("ppm-bit-o16"@.len() == 11);
    assert("ppm-bit-o32"@.len() == 11);
    assert("ppm-bit-o64"@.len() == 11);
    assert("ppm-bit-o8"@.len() == 10);
    assert("ppm-byte-mix"@.len() == 12);
    assert("ppm-match-mix"@.len() == 13);
    assert("ppm-mix"@.len() == 7);
    assert("ppm-mix-byte"@.len() == 12);
    assert("ppm-o1"@.len() == 6);
    assert("ppm-o2"@.len() == 6);
    assert("ppm-o3"@.len() == 6);
    assert("ppm-o4"@.len() == 6);
    assert("ppm-o5"@.len() == 6);
    assert("ppm-o6"@.len() == 6);
    assert("ppm1"@.len() == 4);
    assert("ppm2"@.len() == 4);
    assert("ppm3"@.len() == 4);
    assert("ppm4"@.len() == 4);
    assert("ppm5"@.len() == 4);
    assert("ppm6"@.len() == 4);
    assert("ppmbitmix"@.len() == 9);
    assert("ppmbmix"@.len() == 7);
    assert("ppmd"@.len() == 4);
    assert("ppmd-bit"@.len() == 8);
    assert("ppmd-mix"@.len() == 8);
    assert("ppmdbit"@.len() == 7);
    assert("ppmdmix"@.len() == 7);
    assert("ppmmatchmix"@.len() == 11);
    assert("ppmmix"@.len() == 6);
    assert("wikimix"@.len() == 7);
    assert("wikimix5"@.len() == 8);
    assert("wmx5"@.len() == 4);
    match c {
        Codec::BlockHuffman => {
            assert("huffman"@[0] == 'h');
        },
        Codec::AdaptiveHuffman => {
            assert("huffman-o1"@[0] == 'h');
        },
        Codec::Lz77 => {
            assert("lz77"@[0] == 'l');
        },
        Codec::BytePpmO1 => {
            assert("ppm-o1"@[0] == 'p');
        },
        Codec::BytePpmO2 => {
            assert("ppm-o2"@[0] == 'p');
            assert("ppm-o1"@[5] != '2');
        },
        Codec::BytePpmO3 => {
            assert("ppm"@[0] == 'p');
        },
        Codec::BytePpmO4 => {
            assert("ppm-o4"@[0] == 'p');
            assert("ppm-o1"@[5] != '4');
            assert("ppm-o2"@[5] != '4');
            assert("ppm-o3"@[5] != '4');
        },
        Codec::BytePpmO5 => {
            assert("ppm-o5"@[0] == 'p');
            assert("ppm-o1"@[5] != '5');
            assert("ppm-o2"@[5] != '5');
            assert("ppm-o3"@[5] != '5');
            assert("ppm-o4"@[5] != '5');
        },
        Codec::BytePpmO6 => {
            assert("ppm-o6"@[0] == 'p');
            assert("ppm-o1"@[5] != '6');
            assert("ppm-o2"@[5] != '6');
            assert("ppm-o3"@[5] != '6');
            assert("ppm-o4"@[5] != '6');
            assert("ppm-o5"@[5] != '6');
        },
        Codec::BitPpmO8 => {
            assert("ppm-bit"@[0] == 'p');
            assert("huffman"@[0] != 'p');
        },
        Codec::BitPpmOrder8 => {
            assert("ppm-bit-o8"@[0] == 'p');
            assert("huffman-o1"@[0] != 'p');
            assert("match-only"@[0] != 'p');
        },
        Codec::BitPpmO16 => {
            assert("ppm-bit-o16"@[0] == 'p');
        },
        Codec::BitPpmO32 => {
            assert("ppm-bit-o32"@[0] == 'p');
            assert("ppm-bit-o16"@[9] != '3');
        },
        Codec::BitPpmO64 => {
            assert("ppm-bit-o64"@[0] == 'p');
            assert("ppm-bit-o16"@[9] != '6');
            assert("ppm-bit-o32"@[9] != '6');
        },
        Codec::BytePpmMix => {
            assert("ppm-byte-mix"@[0] == 'p');
        },
        Codec::Ppmd => {
            assert("ppmd"@[0] == 'p');
            assert("lz77"@[0] != 'p');
            assert("ppm1"@[3] != 'd');
            assert("ppm2"@[3] != 'd');
            assert("ppm3"@[3] != 'd');
            assert("ppm4"@[3] != 'd');
            assert("ppm5"@[3] != 'd');
            assert("ppm6"@[3] != 'd');
        },
        Codec::PpmdBit => {
            assert("ppmd-bit"@[0] == 'p');
        },
        Codec::PpmdMix => {
            assert("ppmd-mix"@[0] == 'p');
            assert("ppmd-bit"@[5] != 'm');
        },
        Codec::BitPpmMix => {
            assert("ppm-bit-mix"@[0] == 'p');
            assert("ppm-bit-o16"@[8] != 'm');
            assert("ppm-bit-o32"@[8] != 'm');
            assert("ppm-bit-o64"@[8] != 'm');
        },
        Codec::PpmMix => {
            assert("ppm-mix"@[0] == 'p');
            assert("huffman"@[0] != 'p');
            assert("ppm-bit"@[4] != 'm');
            assert("ppmbmix"@[3] != '-');
            assert("ppmdbit"@[3] != '-');
            assert("ppmdmix"@[3] != '-');
        },
        Codec::MatchModel => {
            assert("match"@[0] == 'm');
        },
        Codec::PpmMatchMix => {
            assert("ppm-match-mix"@[0] == 'p');
            assert("block-huffman"@[0] != 'p');
        },
        Codec::WikiMix5 => {
            assert("wikimix5"@[0] == 'w');
            assert("ppmd-bit"@[0] != 'w');
            assert("ppmd-mix"@[0] != 'w');
        },
    }
}

/// Every name and alias the command line accepts for codec `c`.
pub open spec fn aliases(c: Codec) -> Seq<Seq<char>> {
    match c {
        Codec::BlockHuffman => seq!["block-huffman"@, "huffman"@],
        Codec::AdaptiveHuffman => seq!["adaptive-huffman"@, "context-huffman"@, "huffman-o1"@],
        Codec::Lz77 => seq!["lz77"@],
        Codec::BytePpmO1 => seq!["ppm-o1"@, "ppm1"@],
        Codec::BytePpmO2 => seq!["ppm-o2"@, "ppm2"@],
        Codec::BytePpmO3 => seq!["ppm"@, "ppm-o3"@, "ppm3"@],
        Codec::BytePpmO4 => seq!["ppm-o4"@, "ppm4"@],
        Codec::BytePpmO5 => seq!["ppm-o5"@, "ppm5"@],
        Codec::BytePpmO6 => seq!["ppm-o6"@, "ppm6"@],
        Codec::BitPpmO8 => seq!["ppm-bit"@],
        Codec::BitPpmOrder8 => seq!["ppm-bit-o8"@],
        Codec::BitPpmO16 => seq!["ppm-bit-o16"@],
        Codec::BitPpmO32 => seq!["ppm-bit-o32"@],
        Codec::BitPpmO64 => seq!["ppm-bit-o64"@],
        Codec::BytePpmMix => seq!["ppm-byte-mix"@, "ppm-mix-byte"@, "ppmbmix"@],
        Codec::Ppmd => seq!["ppmd"@],
        Codec::PpmdBit => seq!["ppmd-bit"@, "ppmdbit"@],
        Codec::PpmdMix => seq!["ppmd-mix"@, "ppmdmix"@],
        Codec::BitPpmMix => seq!["ppm-bit-mix"@, "ppmbitmix"@],
        Codec::PpmMix => seq!["ppm-mix"@, "ppmmix"@, "pmix"@],
        Codec::MatchModel => seq!["match"@, "match-model"@, "match-only"@],
        Codec::PpmMatchMix => seq!["ppm-match-mix"@, "ppmmatchmix"@, "pmmatch"@],
        Codec::WikiMix5 => seq!["wikimix5"@, "wikimix"@, "wmx5"@],
    }
}

/// Every name and alias of a codec selects that codec, and a name selects
/// a codec only when it is one of that codec's names or aliases.
pub proof fn lemma_parse_aliases(c: Codec, v: Seq<char>)
    ensures
        aliases(c).contains(v) ==> parse_spec(v) == Some(c),
        parse_spec(v) == Some(c) ==> aliases(c).contains(v),
{
    reveal_strlit("adaptive-huffman");
    reveal_strlit("block-huffman");
    reveal_strlit("context-huffman");
    reveal_strlit("huffman");
    reveal_strlit("huffman-o1");
    reveal_strlit("lz77");
    reveal_strlit("match");
    reveal_strlit("match-model");
    reveal_strlit("match-only");
    reveal_strlit("pmix");
    reveal_strlit("pmmatch");
    reveal_strlit("ppm");
    reveal_strlit("ppm-bit");
    reveal_strlit("ppm-bit-mix");
    reveal_strlit("ppm-bit-o16");
    reveal_strlit("ppm-bit-o32");
    reveal_strlit("ppm-bit-o64");
    reveal_strlit("ppm-bit-o8");
    reveal_strlit("ppm-byte-mix");
    reveal_strlit("ppm-match-mix");
    reveal_strlit("ppm-mix");
    reveal_strlit("ppm-mix-byte");
    reveal_strlit("ppm-o1");
    reveal_strlit("ppm-o2");
    reveal_strlit("ppm-o3");
    reveal_strlit("ppm-o4");
    reveal_strlit("ppm-o5");
    reveal_strlit("ppm-o6");
    reveal_strlit("ppm1");
    reveal_strlit("ppm2");
    reveal_strlit("ppm3");
    reveal_strlit("ppm4");
    reveal_strlit("ppm5");
    reveal_strlit("ppm6");
    reveal_strlit("ppmbitmix");
    reveal_strlit("ppmbmix");
    reveal_strlit("ppmd");
    reveal_strlit("ppmd-bit");
    reveal_strlit("ppmd-mix");
    reveal_strlit("ppmdbit");
    reveal_strlit("ppmdmix");
    reveal_strlit("ppmmatchmix");
    reveal_strlit("ppmmix");
    reveal_strlit("wikimix");
    reveal_strlit("wikimix5");
    reveal_strlit("wmx5");
    assert("adaptive-huffman"@.len() == 16);
    assert("block-huffman"@.len() == 13);
    assert("context-huffman"@.len() == 15);
    assert("huffman"@.len() == 7);
    assert("huffman-o1"@.len() == 10);
    assert("lz77"@.len() == 4);
    assert("match"@.len() == 5);
    assert("match-model"@.len() == 11);
    assert("match-only"@.len() == 10);
    assert("pmix"@.len() == 4);
    assert("pmmatch"@.len() == 7);
    assert("ppm"@.len() == 3);
    assert("ppm-bit"@.len() == 7);
    assert("ppm-bit-mix"@.len() == 11);
    assert("ppm-bit-o16"@.len() == 11);
    assert("ppm-bit-o32"@.len() == 11);
    assert("ppm-bit-o64"@.len() == 11);
    assert("ppm-bit-o8"@.len() == 10);
    assert("ppm-byte-mix"@.len() == 12);
    assert("ppm-match-mix"@.len() == 13);
    assert("ppm-mix"@.len() == 7);
    assert("ppm-mix-byte"@.len() == 12);
    assert("ppm-o1"@.len() == 6);
    assert("ppm-o2"@.len() == 6);
    assert("ppm-o3"@.len() == 6);
    assert("ppm-o4"@.len() == 6);
    assert("ppm-o5"@.len() == 6);
    assert("ppm-o6"@.len() == 6);
    assert("ppm1"@.len() == 4);
    assert("ppm2"@.len() == 4);
    assert("ppm3"@.len() == 4);
    assert("ppm4"@.len() == 4);
    assert("ppm5"@.len() == 4);
    assert("ppm6"@.len() == 4);
    assert("ppmbitmix"@.len() == 9);
    assert("ppmbmix"@.len() == 7);
    assert("ppmd"@.len() == 4);
    assert("ppmd-bit"@.len() == 8);
    assert("ppmd-mix"@.len() == 8);
    assert("ppmdbit"@.len() == 7);
    assert("ppmdmix"@.len() == 7);
    assert("ppmmatchmix"@.len() == 11);
    assert("ppmmix"@.len() == 6);
    assert("wikimix"@.len() == 7);
    assert("wikimix5"@.len() == 8);
    assert("wmx5"@.len() == 4);
    if aliases(c).contains(v) {
        let k = choose|k: int| 0 <= k < aliases(c).len() && aliases(c)[k] == v;
        match c {
            Codec::BlockHuffman => {
                assert(parse_spec("block-huffman"@) == Some(Codec::BlockHuffman));
                assert(parse_spec("huffman"@) == Some(Codec::BlockHuffman));
            },
            Codec::AdaptiveHuffman => {
                assert(parse_spec("adaptive-huffman"@) == Some(Codec::AdaptiveHuffman));
                assert(parse_spec("context-huffman"@) == Some(Codec::AdaptiveHuffman));
                assert(parse_spec("huffman-o1"@) == Some(Codec::AdaptiveHuffman));
            },
            Codec::Lz77 => {
                assert(parse_spec("lz77"@) == Some(Codec::Lz77));
            },
            Codec::BytePpmO1 => {
                assert(parse_spec("ppm-o1"@) == Some(Codec::BytePpmO1));
                assert("ppm1"@[0] != "lz77"@[0]);
                assert(parse_spec("ppm1"@) == Some(Codec::BytePpmO1));
            },
            Codec::BytePpmO2 => {
                assert("ppm-o2"@[5] != "ppm-o1"@[5]);
                assert(parse_spec("ppm-o2"@) == Some(Codec::BytePpmO2));
                assert("ppm2"@[0] != "lz77"@[0]);
                assert("ppm2"@[3] != "ppm1"@[3]);
                assert(parse_spec("ppm2"@) == Some(Codec::BytePpmO2));
            },
            Codec::BytePpmO3 => {
                assert(parse_spec("ppm"@) == Some(Codec::BytePpmO3));
                assert("ppm-o3"@[5] != "ppm-o1"@[5]);
                assert("ppm-o3"@[5] != "ppm-o2"@[5]);
                assert(parse_spec("ppm-o3"@) == Some(Codec::BytePpmO3));
                assert("ppm3"@[0] != "lz77"@[0]);
                assert("ppm3"@[3] != "ppm1"@[3]);
                assert("ppm3"@[3] != "ppm2"@[3]);
                assert(parse_spec("ppm3"@) == Some(Codec::BytePpmO3));
            },
            Codec::BytePpmO4 => {
                assert("ppm-o4"@[5] != "ppm-o1"@[5]);
                assert("ppm-o4"@[5] != "ppm-o2"@[5]);
                assert("ppm-o4"@[5] != "ppm-o3"@[5]);
                assert(parse_spec("ppm-o4"@) == Some(Codec::BytePpmO4));
                assert("ppm4"@[0] != "lz77"@[0]);
                assert("ppm4"@[3] != "ppm1"@[3]);
                assert("ppm4"@[3] != "ppm2"@[3]);
                assert("ppm4"@[3] != "ppm3"@[3]);
                assert(parse_spec("ppm4"@) == Some(Codec::BytePpmO4));
            },
            Codec::BytePpmO5 => {
                assert("ppm-o5"@[5] != "ppm-o1"@[5]);
                assert("ppm-o5"@[5] != "ppm-o2"@[5]);
                assert("ppm-o5"@[5] != "ppm-o3"@[5]);
                assert("ppm-o5"@[5] != "ppm-o4"@[5]);
                assert(parse_spec("ppm-o5"@) == Some(Codec::BytePpmO5));
                assert("ppm5"@[0] != "lz77"@[0]);
                assert("ppm5"@[3] != "ppm1"@[3]);
                assert("ppm5"@[3] != "ppm2"@[3]);
                assert("ppm5"@[3] != "ppm3"@[3]);
                assert("ppm5"@[3] != "ppm4"@[3]);
                assert(parse_spec("ppm5"@) == Some(Codec::BytePpmO5));
            },
            Codec::BytePpmO6 => {
                assert("ppm-o6"@[5] != "ppm-o1"@[5]);
                assert("ppm-o6"@[5] != "ppm-o2"@[5]);
                assert("ppm-o6"@[5] != "ppm-o3"@[5]);
                assert("ppm-o6"@[5] != "ppm-o4"@[5]);
                assert("ppm-o6"@[5] != "ppm-o5"@[5]);
                assert(parse_spec("ppm-o6"@) == Some(Codec::BytePpmO6));
                assert("ppm6"@[0] != "lz77"@[0]);
                assert("ppm6"@[3] != "ppm1"@[3]);
                assert("ppm6"@[3] != "ppm2"@[3]);
                assert("ppm6"@[3] != "ppm3"@[3]);
                assert("ppm6"@[3] != "ppm4"@[3]);
                assert("ppm6"@[3] != "ppm5"@[3]);
                assert(parse_spec("ppm6"@) == Some(Codec::BytePpmO6));
            },
            Codec::BitPpmO8 => {
                assert("ppm-bit"@[0] != "huffman"@[0]);
                assert(parse_spec("ppm-bit"@) == Some(Codec::BitPpmO8));
            },
            Codec::BitPpmOrder8 => {
                assert("ppm-bit-o8"@[0] != "huffman-o1"@[0]);
                assert(parse_spec("ppm-bit-o8"@) == Some(Codec::BitPpmOrder8));
            },
            Codec::BitPpmO16 => {
                assert(parse_spec("ppm-bit-o16"@) == Some(Codec::BitPpmO16));
            },
            Codec::BitPpmO32 => {
                assert("ppm-bit-o32"@[9] != "ppm-bit-o16"@[9]);
                assert(parse_spec("ppm-bit-o32"@) == Some(Codec::BitPpmO32));
            },
            Codec::BitPpmO64 => {
                assert("ppm-bit-o64"@[9] != "ppm-bit-o16"@[9]);
                assert("ppm-bit-o64"@[9] != "ppm-bit-o32"@[9]);
                assert(parse_spec("ppm-bit-o64"@) == Some(Codec::BitPpmO64));
            },
            Codec::BytePpmMix => {
                assert(parse_spec("ppm-byte-mix"@) == Some(Codec::BytePpmMix));
                assert(parse_spec("ppm-mix-byte"@) == Some(Codec::BytePpmMix));
                assert("ppmbmix"@[0] != "huffman"@[0]);
                assert("ppmbmix"@[3] != "ppm-bit"@[3]);
                assert(parse_spec("ppmbmix"@) == Some(Codec::BytePpmMix));
            },
            Codec::Ppmd => {
                assert("ppmd"@[0] != "lz77"@[0]);
                assert("ppmd"@[3] != "ppm1"@[3]);
                assert("ppmd"@[3] != "ppm2"@[3]);
                assert("ppmd"@[3] != "ppm3"@[3]);
                assert("ppmd"@[3] != "ppm4"@[3]);
                assert("ppmd"@[3] != "ppm5"@[3]);
                assert("ppmd"@[3] != "ppm6"@[3]);
                assert(parse_spec("ppmd"@) == Some(Codec::Ppmd));
            },
            Codec::PpmdBit => {
                assert(parse_spec("ppmd-bit"@) == Some(Codec::PpmdBit));
                assert("ppmdbit"@[0] != "huffman"@[0]);
                assert("ppmdbit"@[3] != "ppm-bit"@[3]);
                assert("ppmdbit"@[3] != "ppmbmix"@[3]);
                assert(parse_spec("ppmdbit"@) == Some(Codec::PpmdBit));
            },
            Codec::PpmdMix => {
                assert("ppmd-mix"@[5] != "ppmd-bit"@[5]);
                assert(parse_spec("ppmd-mix"@) == Some(Codec::PpmdMix));
                assert("ppmdmix"@[0] != "huffman"@[0]);
                assert("ppmdmix"@[3] != "ppm-bit"@[3]);
                assert("ppmdmix"@[3] != "ppmbmix"@[3]);
                assert("ppmdmix"@[4] != "ppmdbit"@[4]);
                assert(parse_spec("ppmdmix"@) == Some(Codec::PpmdMix));
            },
            Codec::BitPpmMix => {
                assert("ppm-bit-mix"@[8] != "ppm-bit-o16"@[8]);
                assert("ppm-bit-mix"@[8] != "ppm-bit-o32"@[8]);
                assert("ppm-bit-mix"@[8] != "ppm-bit-o64"@[8]);
                assert(parse_spec("ppm-bit-mix"@) == Some(Codec::BitPpmMix));
                assert(parse_spec("ppmbitmix"@) == Some(Codec::BitPpmMix));
            },
            Codec::PpmMix => {
                assert("ppm-mix"@[0] != "huffman"@[0]);
                assert("ppm-mix"@[4] != "ppm-bit"@[4]);
                assert("ppm-mix"@[3] != "ppmbmix"@[3]);
                assert("ppm-mix"@[3] != "ppmdbit"@[3]);
                assert("ppm-mix"@[3] != "ppmdmix"@[3]);
                assert(parse_spec("ppm-mix"@) == Some(Codec::PpmMix));
                assert("ppmmix"@[3] != "ppm-o1"@[3]);
                assert("ppmmix"@[3] != "ppm-o2"@[3]);
                assert("ppmmix"@[3] != "ppm-o3"@[3]);
                assert("ppmmix"@[3] != "ppm-o4"@[3]);
                assert("ppmmix"@[3] != "ppm-o5"@[3]);
                assert("ppmmix"@[3] != "ppm-o6"@[3]);
                assert(parse_spec("ppmmix"@) == Some(Codec::PpmMix));
                assert("pmix"@[0] != "lz77"@[0]);
                assert("pmix"@[1] != "ppm1"@[1]);
                assert("pmix"@[1] != "ppm2"@[1]);
                assert("pmix"@[1] != "ppm3"@[1]);
                assert("pmix"@[1] != "ppm4"@[1]);
                assert("pmix"@[1] != "ppm5"@[1]);
                assert("pmix"@[1] != "ppm6"@[1]);
                assert("pmix"@[1] != "ppmd"@[1]);
                assert(parse_spec("pmix"@) == Some(Codec::PpmMix));
            },
            Codec::MatchModel => {
                assert(parse_spec("match"@) == Some(Codec::MatchModel));
                assert("match-model"@[0] != "ppm-bit-o16"@[0]);
                assert("match-model"@[0] != "ppm-bit-o32"@[0]);
                assert("match-model"@[0] != "ppm-bit-o64"@[0]);
                assert("match-model"@[0] != "ppm-bit-mix"@[0]);
                assert(parse_spec("match-model"@) == Some(Codec::MatchModel));
                assert("match-only"@[0] != "huffman-o1"@[0]);
                assert("match-only"@[0] != "ppm-bit-o8"@[0]);
                assert(parse_spec("match-only"@) == Some(Codec::MatchModel));
            },
            Codec::PpmMatchMix => {
                assert("ppm-match-mix"@[0] != "block-huffman"@[0]);
                assert(parse_spec("ppm-match-mix"@) == Some(Codec::PpmMatchMix));
                assert("ppmmatchmix"@[3] != "ppm-bit-o16"@[3]);
                assert("ppmmatchmix"@[3] != "ppm-bit-o32"@[3]);
                assert("ppmmatchmix"@[3] != "ppm-bit-o64"@[3]);
                assert("ppmmatchmix"@[3] != "ppm-bit-mix"@[3]);
                assert("ppmmatchmix"@[0] != "match-model"@[0]);
                assert(parse_spec("ppmmatchmix"@) == Some(Codec::PpmMatchMix));
                assert("pmmatch"@[0] != "huffman"@[0]);
                assert("pmmatch"@[1] != "ppm-bit"@[1]);
                assert("pmmatch"@[1] != "ppmbmix"@[1]);
                assert("pmmatch"@[1] != "ppmdbit"@[1]);
                assert("pmmatch"@[1] != "ppmdmix"@[1]);
                assert("pmmatch"@[1] != "ppm-mix"@[1]);
                assert(parse_spec("pmmatch"@) == Some(Codec::PpmMatchMix));
            },
            Codec::WikiMix5 => {
                assert("wikimix5"@[0] != "ppmd-bit"@[0]);
                assert("wikimix5"@[0] != "ppmd-mix"@[0]);
                assert(parse_spec("wikimix5"@) == Some(Codec::WikiMix5));
                assert("wikimix"@[0] != "huffman"@[0]);
                assert("wikimix"@[0] != "ppm-bit"@[0]);
                assert("wikimix"@[0] != "ppmbmix"@[0]);
                assert("wikimix"@[0] != "ppmdbit"@[0]);
                assert("wikimix"@[0] != "ppmdmix"@[0]);
                assert("wikimix"@[0] != "ppm-mix"@[0]);
                assert("wikimix"@[0] != "pmmatch"@[0]);
                assert(parse_spec("wikimix"@) == Some(Codec::WikiMix5));
                assert("wmx5"@[0] != "lz77"@[0]);
                assert("wmx5"@[0] != "ppm1"@[0]);
                assert("wmx5"@[0] != "ppm2"@[0]);
                assert("wmx5"@[0] != "ppm3"@[0]);
                assert("wmx5"@[0] != "ppm4"@[0]);
                assert("wmx5"@[0] != "ppm5"@[0]);
                assert("wmx5"@[0] != "ppm6"@[0]);
                assert("wmx5"@[0] != "ppmd"@[0]);
                assert("wmx5"@[0] != "pmix"@[0]);
                assert(parse_spec("wmx5"@) == Some(Codec::WikiMix5));
            },
        }
    }
    if parse_spec(v) == Some(c) {
        match c {
            Codec::BlockHuffman => {
                if v == "block-huffman"@ {
                    assert(aliases(c)[0] == v);
                }
                if v == "huffman"@ {
                    assert(aliases(c)[1] == v);
                }
            },
            Codec::AdaptiveHuffman => {
                if v == "adaptive-huffman"@ {
                    assert(aliases(c)[0] == v);
                }
                if v == "context-huffman"@ {
                    assert(aliases(c)[1] == v);
                }
                if v == "huffman-o1"@ {
                    assert(aliases(c)[2] == v);
                }
            },
            Codec::Lz77 => {
                if v == "lz77"@ {
                    assert(aliases(c)[0] == v);
                }
            },
            Codec::BytePpmO1 => {
                if v == "ppm-o1"@ {
                    assert(aliases(c)[0] == v);
                }
                if v == "ppm1"@ {
                    assert(aliases(c)[1] == v);
                }
            },
            Codec::BytePpmO2 => {
                if v == "ppm-o2"@ {
                    assert(aliases(c)[0] == v);
                }
                if v == "ppm2"@ {
                    assert(aliases(c)[1] == v);
                }
            },
            Codec::BytePpmO3 => {
                if v == "ppm"@ {
                    assert(aliases(c)[0] == v);
                }
                if v == "ppm-o3"@ {
                    assert(aliases(c)[1] == v);
                }
                if v == "ppm3"@ {
                    assert(aliases(c)[2] == v);
                }
            },
            Codec::BytePpmO4 => {
                if v == "ppm-o4"@ {
                    assert(aliases(c)[0] == v);
                }
                if v == "ppm4"@ {
                    assert(aliases(c)[1] == v);
                }
            },
            Codec::BytePpmO5 => {
                if v == "ppm-o5"@ {
                    assert(aliases(c)[0] == v);
                }
                if v == "ppm5"@ {
                    assert(aliases(c)[1] == v);
                }
            },
            Codec::BytePpmO6 => {
                if v == "ppm-o6"@ {
                    assert(aliases(c)[0] == v);
                }
                if v == "ppm6"@ {
                    assert(aliases(c)[1] == v);
                }
            },
            Codec::BitPpmO8 => {
                if v == "ppm-bit"@ {
                    assert(aliases(c)[0] == v);
                }
            },
            Codec::BitPpmOrder8 => {
                if v == "ppm-bit-o8"@ {
                    assert(aliases(c)[0] == v);
                }
            },
            Codec::BitPpmO16 => {
                if v == "ppm-bit-o16"@ {
                    assert(aliases(c)[0] == v);
                }
            },
            Codec::BitPpmO32 => {
                if v == "ppm-bit-o32"@ {
                    assert(aliases(c)[0] == v);
                }
            },
            Codec::BitPpmO64 => {
                if v == "ppm-bit-o64"@ {
                    assert(aliases(c)[0] == v);
                }
            },
            Codec::BytePpmMix => {
                if v == "ppm-byte-mix"@ {
                    assert(aliases(c)[0] == v);
                }
                if v == "ppm-mix-byte"@ {
                    assert(aliases(c)[1] == v);
                }
                if v == "ppmbmix"@ {
                    assert(aliases(c)[2] == v);
                }
            },
            Codec::Ppmd => {
                if v == "ppmd"@ {
                    assert(aliases(c)[0] == v);
                }
            },
            Codec::PpmdBit => {
                if v == "ppmd-bit"@ {
                    assert(aliases(c)[0] == v);
                }
                if v == "ppmdbit"@ {
                    assert(aliases(c)[1] == v);
                }
            },
            Codec::PpmdMix => {
                if v == "ppmd-mix"@ {
                    assert(aliases(c)[0] == v);
                }
                if v == "ppmdmix"@ {
                    assert(aliases(c)[1] == v);
                }
            },
            Codec::BitPpmMix => {
                if v == "ppm-bit-mix"@ {
                    assert(aliases(c)[0] == v);
                }
                if v == "ppmbitmix"@ {
                    assert(aliases(c)[1] == v);
                }
            },
            Codec::PpmMix => {
                if v == "ppm-mix"@ {
                    assert(aliases(c)[0] == v);
                }
                if v == "ppmmix"@ {
                    assert(aliases(c)[1] == v);
                }
                if v == "pmix"@ {
                    assert(aliases(c)[2] == v);
                }
            },
            Codec::MatchModel => {
                if v == "match"@ {
                    assert(aliases(c)[0] == v);
                }
                if v == "match-model"@ {
                    assert(aliases(c)[1] == v);
                }
                if v == "match-only"@ {
                    assert(aliases(c)[2] == v);
                }
            },
            Codec::PpmMatchMix => {
                if v == "ppm-match-mix"@ {
                    assert(aliases(c)[0] == v);
                }
                if v == "ppmmatchmix"@ {
                    assert(aliases(c)[1] == v);
                }
                if v == "pmmatch"@ {
                    assert(aliases(c)[2] == v);
                }
            },
            Codec::WikiMix5 => {
                if v == "wikimix5"@ {
                    assert(aliases(c)[0] == v);
                }
                if v == "wikimix"@ {
                    assert(aliases(c)[1] == v);
                }
                if v == "wmx5"@ {
                    assert(aliases(c)[2] == v);
                }
            },
        }
    }
}

/// The codec whose archives start with `tag`.
pub open spec fn tag_codec(tag: Seq<u8>) -> Option<Codec> {
    if tag == adaptive_huffman::magic_spec() {
        Some(Codec::AdaptiveHuffman)
    } else if tag == lz77::magic_spec() {
        Some(Codec::Lz77)
    } else if tag == byte_ppm::magic_order1_spec() {
        Some(Codec::BytePpmO1)
    } else if tag == byte_ppm::magic_order2_spec() {
        Some(Codec::BytePpmO2)
    } else if tag == byte_ppm::magic_order3_spec() {
        Some(Codec::BytePpmO3)
    } else if tag == byte_ppm::magic_order4_spec() {
        Some(Codec::BytePpmO4)
    } else if tag == byte_ppm::magic_order5_spec() {
        Some(Codec::BytePpmO5)
    } else if tag == byte_ppm::magic_order6_spec() {
        Some(Codec::BytePpmO6)
    } else if tag == ppm::magic_order3_spec() {
        Some(Codec::BitPpmO8)
    } else if tag == ppm::magic_order8_spec() {
        Some(Codec::BitPpmOrder8)
    } else if tag == ppm::magic_order16_spec() {
        Some(Codec::BitPpmO16)
    } else if tag == ppm::magic_order32_spec() {
        Some(Codec::BitPpmO32)
    } else if tag == ppm::magic_order64_spec() {
        Some(Codec::BitPpmO64)
    } else if tag == byte_ppm::magic_mix_spec() {
        Some(Codec::BytePpmMix)
    } else if tag == ppmd::magic_spec() {
        Some(Codec::Ppmd)
    } else if tag == ppmd_bit::magic_spec() {
        Some(Codec::PpmdBit)
    } else if tag == ppmd_mix::magic_spec() {
        Some(Codec::PpmdMix)
    } else if tag == ppm::magic_mix_spec() {
        Some(Codec::BitPpmMix)
    } else if tag == hybrid_ppm::magic_spec() {
        Some(Codec::PpmMix)
    } else if tag == ppm_match_mix::magic_match_only_spec() {
        Some(Codec::MatchModel)
    } else if tag == ppm_match_mix::magic_spec() {
        Some(Codec::PpmMatchMix)
    } else if tag == wikimix::magic_spec() {
        Some(Codec::WikiMix5)
    } else {
        None
    }
}

/// The tag a codec's archives start with (the block Huffman coder's is not
/// known here).
pub open spec fn codec_tag(c: Codec) -> Option<Seq<u8>> {
    match c {
        Codec::BlockHuffman => None,
        Codec::AdaptiveHuffman => Some(adaptive_huffman::magic_spec()),
        Codec::Lz77 => Some(lz77::magic_spec()),
        Codec::BytePpmO1 => Some(byte_ppm::magic_order1_spec()),
        Codec::BytePpmO2 => Some(byte_ppm::magic_order2_spec()),
        Codec::BytePpmO3 => Some(byte_ppm::magic_order3_spec()),
        Codec::BytePpmO4 => Some(byte_ppm::magic_order4_spec()),
        Codec::BytePpmO5 => Some(byte_ppm::magic_order5_spec()),
        Codec::BytePpmO6 => Some(byte_ppm::magic_order6_spec()),
        Codec::BitPpmO8 => Some(ppm::magic_order3_spec()),
        Codec::BitPpmOrder8 => Some(ppm::magic_order8_spec()),
        Codec::BitPpmO16 => Some(ppm::magic_order16_spec()),
        Codec::BitPpmO32 => Some(ppm::magic_order32_spec()),
        Codec::BitPpmO64 => Some(ppm::magic_order64_spec()),
        Codec::BytePpmMix => Some(byte_ppm::magic_mix_spec()),
        Codec::Ppmd => Some(ppmd::magic_spec()),
        Codec::PpmdBit => Some(ppmd_bit::magic_spec()),
        Codec::PpmdMix => Some(ppmd_mix::magic_spec()),
        Codec::BitPpmMix => Some(ppm::magic_mix_spec()),
        Codec::PpmMix => Some(hybrid_ppm::magic_spec()),
        Codec::MatchModel => Some(ppm_match_mix::magic_match_only_spec()),
        Codec::PpmMatchMix => Some(ppm_match_mix::magic_spec()),
        Codec::WikiMix5 => Some(wikimix::magic_spec()),
    }
}

/// Whether `archive` starts with `tag`.
pub fn tag_is(archive: &[u8], tag: [u8; 4]) -> (b: bool)
    requires
        archive@.len() >= 4,
    ensures
        b == (archive@.subrange(0, 4) == tag@),
{
    let b = archive[0] == tag[0] && archive[1] == tag[1] && archive[2] == tag[2] && archive[3] == tag[3];
    proof {
        if b {
            assert(archive@.subrange(0, 4) =~= tag@);
        } else if archive@.subrange(0, 4) == tag@ {
            assert(archive@.subrange(0, 4)[0] == archive@[0]);
            assert(archive@.subrange(0, 4)[1] == archive@[1]);
            assert(archive@.subrange(0, 4)[2] == archive@[2]);
            assert(archive@.subrange(0, 4)[3] == archive@[3]);
        }
    }
    b
}

/// The codec that wrote `archive`, told by its first four bytes.
pub fn detect(archive: &[u8]) -> (r: Result<Codec, CodecError>)
    ensures
        archive@.len() < 4 ==> r == Err::<Codec, CodecError>(CodecError::UnexpectedEof),
        archive@.len() >= 4 ==> match tag_codec(archive@.subrange(0, 4)) {
            Some(c) => r == Ok::<Codec, CodecError>(c),
            None => r == Err::<Codec, CodecError>(CodecError::UnknownFormat),
        },
{
    if archive.len() < 4 {
        return Err(CodecError::UnexpectedEof);
    }
    if tag_is(archive, adaptive_huffman::magic()) {
        Ok(Codec::AdaptiveHuffman)
    } else if tag_is(archive, lz77::magic()) {
        Ok(Codec::Lz77)
    } else if tag_is(archive, byte_ppm::magic_order1()) {
        Ok(Codec::BytePpmO1)
    } else if tag_is(archive, byte_ppm::magic_order2()) {
        Ok(Codec::BytePpmO2)
    } else if tag_is(archive, byte_ppm::magic_order3()) {
        Ok(Codec::BytePpmO3)
    } else if tag_is(archive, byte_ppm::magic_order4()) {
        Ok(Codec::BytePpmO4)
    } else if tag_is(archive, byte_ppm::magic_order5()) {
        Ok(Codec::BytePpmO5)
    } else if tag_is(archive, byte_ppm::magic_order6()) {
        Ok(Codec::BytePpmO6)
    } else if tag_is(archive, ppm::magic_order3()) {
        Ok(Codec::BitPpmO8)
    } else if tag_is(archive, ppm::magic_order8()) {
        Ok(Codec::BitPpmOrder8)
    } else if tag_is(archive, ppm::magic_order16()) {
        Ok(Codec::BitPpmO16)
    } else if tag_is(archive, ppm::magic_order32()) {
        Ok(Codec::BitPpmO32)
    } else if tag_is(archive, ppm::magic_order64()) {
        Ok(Codec::BitPpmO64)
    } else if tag_is(archive, byte_ppm::magic_mix()) {
        Ok(Codec::BytePpmMix)
    } else if tag_is(archive, ppmd::magic()) {
        Ok(Codec::Ppmd)
    } else if tag_is(archive, ppmd_bit::magic()) {
        Ok(Codec::PpmdBit)
    } else if tag_is(archive, ppmd_mix::magic()) {
        Ok(Codec::PpmdMix)
    } else if tag_is(archive, ppm::magic_mix()) {
        Ok(Codec::BitPpmMix)
    } else if tag_is(archive, hybrid_ppm::magic()) {
        Ok(Codec::PpmMix)
    } else if tag_is(archive, ppm_match_mix::magic_match_only()) {
        Ok(Codec::MatchModel)
    } else if tag_is(archive, ppm_match_mix::magic()) {
        Ok(Codec::PpmMatchMix)
    } else if tag_is(archive, wikimix::magic()) {
        Ok(Codec::WikiMix5)
    } else {
        Err(CodecError::UnknownFormat)
    }
}

/// An archive's tag leads back to the codec that wrote it.
pub proof fn lemma_tag_codec(c: Codec)
    ensures
        codec_tag(c) matches Some(t) ==> tag_codec(t) == Some(c),
{
}


/// Whether the codec's model computes in floating point (or, for the block
/// Huffman coder, is not part of this library): such a codec is run by the
/// caller, not here.
pub open spec fn delegated(c: Codec) -> bool {
    match c {
        Codec::BlockHuffman | Codec::BytePpmMix | Codec::PpmdBit | Codec::PpmdMix | Codec::BitPpmMix
        | Codec::PpmMix | Codec::PpmMatchMix => true,
        _ => false,
    }
}

/// `archive` is what codec `c` makes of `data`.
pub open spec fn compressed_by(c: Codec, data: Seq<u8>, archive: Seq<u8>) -> bool {
    match c {
        Codec::AdaptiveHuffman => adaptive_huffman::is_archive_of(archive, data),
        Codec::Lz77 => data.len() <= u64::MAX && archive == lz77::compress_spec(data),
        Codec::BytePpmO1 => byte_ppm::is_archive_of(archive, data, byte_ppm::magic_order1_spec(), 1),
        Codec::BytePpmO2 => byte_ppm::is_archive_of(archive, data, byte_ppm::magic_order2_spec(), 2),
        Codec::BytePpmO3 => byte_ppm::is_archive_of(archive, data, byte_ppm::magic_order3_spec(), 3),
        Codec::BytePpmO4 => byte_ppm::is_archive_of(archive, data, byte_ppm::magic_order4_spec(), 4),
        Codec::BytePpmO5 => byte_ppm::is_archive_of(archive, data, byte_ppm::magic_order5_spec(), 5),
        Codec::BytePpmO6 => byte_ppm::is_archive_of(archive, data, byte_ppm::magic_order6_spec(), 6),
        Codec::BitPpmO8 => ppm::is_archive_of(archive, data, ppm::magic_order3_spec(), 3),
        Codec::BitPpmOrder8 => ppm::is_archive_of(archive, data, ppm::magic_order8_spec(), 8),
        Codec::BitPpmO16 => ppm::is_archive_of(archive, data, ppm::magic_order16_spec(), 16),
        Codec::BitPpmO32 => ppm::is_archive_of(archive, data, ppm::magic_order32_spec(), 32),
        Codec::BitPpmO64 => ppm::is_archive_of(archive, data, ppm::magic_order64_spec(), 64),
        Codec::Ppmd => ppmd::is_archive_of(archive, data),
        Codec::MatchModel => ppm_match_mix::is_archive_of(archive, data),
        Codec::WikiMix5 => wikimix::is_archive_of(archive, data),
        _ => false,
    }
}

/// Codec `c` succeeds on `data` (its coder's deferred-bit counter stays
/// within the machine word, and the Huffman coder finds codes).
pub open spec fn compress_ok(c: Codec, data: Seq<u8>) -> bool {
    match c {
        Codec::AdaptiveHuffman => adaptive_huffman::compress_ok(data),
        Codec::Lz77 => true,
        Codec::BytePpmO1 => byte_ppm::compress_ok(data, 1),
        Codec::BytePpmO2 => byte_ppm::compress_ok(data, 2),
        Codec::BytePpmO3 => byte_ppm::compress_ok(data, 3),
        Codec::BytePpmO4 => byte_ppm::compress_ok(data, 4),
        Codec::BytePpmO5 => byte_ppm::compress_ok(data, 5),
        Codec::BytePpmO6 => byte_ppm::compress_ok(data, 6),
        Codec::BitPpmO8 => ppm::compress_ok(data, 3),
        Codec::BitPpmOrder8 => ppm::compress_ok(data, 8),
        Codec::BitPpmO16 => ppm::compress_ok(data, 16),
        Codec::BitPpmO32 => ppm::compress_ok(data, 32),
        Codec::BitPpmO64 => ppm::compress_ok(data, 64),
        Codec::Ppmd => ppmd::compress_ok(data),
        Codec::MatchModel => ppm_match_mix::compress_ok(data),
        Codec::WikiMix5 => wikimix::compress_ok(data),
        _ => false,
    }
}

/// What `compress` with codec `c` on `data` may return: success exactly
/// when the codec succeeds, and then its archive; otherwise the Huffman
/// coder's first failing block's error, or the arithmetic coder's overflow.
pub open spec fn compress_result(c: Codec, data: Seq<u8>, res: Result<Vec<u8>, CodecError>) -> bool {
    &&& (res is Ok <==> compress_ok(c, data))
    &&& match res {
        Ok(a) => compressed_by(c, data, a@),
        Err(e) => e == if c == Codec::AdaptiveHuffman {
            adaptive_huffman::blocks_error(data, 0, adaptive_huffman::init_freqs())
        } else {
            CodecError::PendingOverflow
        },
    }
}

/// What running a codec here gives: its result, or, for a codec the caller
/// runs, that codec.
pub enum Outcome {
    Done(Result<Vec<u8>, CodecError>),
    Delegate(Codec),
}

impl Codec {
    /// Compresses `data` with this codec.
    pub fn compress(self, data: &[u8]) -> (r: Outcome)
        ensures
            match r {
                Outcome::Delegate(c) => delegated(self) && c == self,
                Outcome::Done(res) => !delegated(self) && compress_result(self, data@, res),
            },
    {
        match self {
            Codec::AdaptiveHuffman => Outcome::Done(adaptive_huffman::compress(data)),
            Codec::Lz77 => {
                let a = lz77::compress(data);
                let n: usize = data.len();
                assert(n <= u64::MAX);
                Outcome::Done(Ok(a))
            },
            Codec::BytePpmO1 => Outcome::Done(byte_ppm::compress_order1(data)),
            Codec::BytePpmO2 => Outcome::Done(byte_ppm::compress_order2(data)),
            Codec::BytePpmO3 => Outcome::Done(byte_ppm::compress_order3(data)),
            Codec::BytePpmO4 => Outcome::Done(byte_ppm::compress_order4(data)),
            Codec::BytePpmO5 => Outcome::Done(byte_ppm::compress_order5(data)),
            Codec::BytePpmO6 => Outcome::Done(byte_ppm::compress_order6(data)),
            Codec::BitPpmO8 => Outcome::Done(ppm::compress_order3(data)),
            Codec::BitPpmOrder8 => Outcome::Done(ppm::compress_order8(data)),
            Codec::BitPpmO16 => Outcome::Done(ppm::compress_order16(data)),
            Codec::BitPpmO32 => Outcome::Done(ppm::compress_order32(data)),
            Codec::BitPpmO64 => Outcome::Done(ppm::compress_order64(data)),
            Codec::Ppmd => Outcome::Done(ppmd::compress(data)),
            Codec::MatchModel => Outcome::Done(ppm_match_mix::compress_match_only(data)),
            Codec::WikiMix5 => Outcome::Done(wikimix::compress(data)),
            _ => Outcome::Delegate(self),
        }
    }
}

/// What restoring an archive of the block-adaptive Huffman coder gives: the
/// bytes of every block restored in full, and the error that stopped it.
pub open spec fn huffman_restored(a: Seq<u8>, added: Seq<u8>, res: Result<(), CodecError>) -> bool {
    &&& added == adaptive_huffman::restored_spec(a).0
    &&& match adaptive_huffman::restored_spec(a).1 {
        None => res is Ok,
        Some(e) => res == Err::<(), CodecError>(e),
    }
}

/// Restoring fails with `e` and gives no bytes.
pub open spec fn fails(added: Seq<u8>, res: Result<(), CodecError>, e: CodecError) -> bool {
    added == Seq::<u8>::empty() && res == Err::<(), CodecError>(e)
}

/// What restoring the payload of a coder that writes a twelve-byte header
/// (tag, then the length as eight little-endian bytes) gives.
pub open spec fn payload_restored(c: Codec, a: Seq<u8>, added: Seq<u8>, res: Result<(), CodecError>) -> bool {
    let payload = a.subrange(12, a.len() as int);
    let n = le_u64(a.subrange(4, 12)) as nat;
    let byte_ppm_ok = |k: int| res is Ok && added == byte_ppm::decoded(payload, n, k).0;
    let bit_ppm_ok = |k: int|
        res is Ok && added.len() == n && bytes_to_bits(added) == ppm::sym_bools(
            ppm::bits_decoded(payload, 8 * n, k).0,
        );
    match c {
        Codec::BytePpmO1 => byte_ppm_ok(1),
        Codec::BytePpmO2 => byte_ppm_ok(2),
        Codec::BytePpmO3 => byte_ppm_ok(3),
        Codec::BytePpmO4 => byte_ppm_ok(4),
        Codec::BytePpmO5 => byte_ppm_ok(5),
        Codec::BytePpmO6 => byte_ppm_ok(6),
        Codec::BitPpmO8 => bit_ppm_ok(3),
        Codec::BitPpmOrder8 => bit_ppm_ok(8),
        Codec::BitPpmO16 => bit_ppm_ok(16),
        Codec::BitPpmO32 => bit_ppm_ok(32),
        Codec::BitPpmO64 => bit_ppm_ok(64),
        Codec::Ppmd => match ppmd::ppmd_decoded(payload, n).2 {
            None => res is Ok && added == ppmd::ppmd_decoded(payload, n).0,
            Some(e) => fails(added, res, e),
        },
        Codec::MatchModel => if !(a.len() >= 16 && a.subrange(12, 16) == ppm_match_mix::marker_spec()) {
            fails(added, res, CodecError::LegacyFormat)
        } else {
            res is Ok && added == ppm_match_mix::match_decoded(a.subrange(16, a.len() as int), n).0
        },
        Codec::WikiMix5 => res is Ok && added == wikimix::decoded(payload, n).0,
        _ => false,
    }
}

/// What restoring archive `a`, which carries the tag of codec `c`, gives
/// when this library runs that codec: the bytes `added` to the output, and
/// whether it succeeded.
pub open spec fn restored(c: Codec, a: Seq<u8>, added: Seq<u8>, res: Result<(), CodecError>) -> bool {
    match c {
        Codec::AdaptiveHuffman => huffman_restored(a, added, res),
        Codec::Lz77 => match lz77::decompress_spec(a) {
            Ok(v) => res is Ok && added == v,
            Err(e) => fails(added, res, e),
        },
        _ => if a.len() < 12 {
            fails(added, res, CodecError::UnexpectedEof)
        } else {
            payload_restored(c, a, added, res)
        },
    }
}

/// The bytes a codec's result gives.
pub open spec fn result_bytes(res: Result<Vec<u8>, CodecError>) -> Seq<u8> {
    match res {
        Ok(v) => v@,
        Err(_) => Seq::empty(),
    }
}

/// A codec's result without its bytes.
pub open spec fn result_status(res: Result<Vec<u8>, CodecError>) -> Result<(), CodecError> {
    match res {
        Ok(_) => Ok(()),
        Err(e) => Err(e),
    }
}

/// What restoring an archive here gives: success or the error, or, for a
/// codec the caller runs, that codec.
pub enum Restored {
    Done(Result<(), CodecError>),
    Delegate(Codec),
}

/// Restores archive `archive`, whose tag names `codec`, with a codec that
/// gives its bytes at the end.
#[verifier::spinoff_prover]
#[verifier::rlimit(30)]
fn restore_whole(codec: Codec, archive: &[u8]) -> (r: Outcome)
    requires
        archive@.len() >= 4,
        tag_codec(archive@.subrange(0, 4)) == Some(codec),
        codec != Codec::AdaptiveHuffman,
    ensures
        match r {
            Outcome::Delegate(c2) => delegated(codec) && c2 == codec,
            Outcome::Done(res) => !delegated(codec) && restored(
                codec,
                archive@,
                result_bytes(res),
                result_status(res),
            ),
        },
        forall|d: Seq<u8>|
            #![trigger compressed_by(codec, d, archive@)]
            compressed_by(codec, d, archive@) ==> match r {
                Outcome::Done(Ok(v)) => v@ == d,
                _ => false,
            },
{
    match codec {
        Codec::Lz77 => {
            proof {
                assert forall|d: Seq<u8>| compressed_by(Codec::Lz77, d, archive@) implies
                    lz77::decompress_spec(archive@) == Ok::<Seq<u8>, CodecError>(d) by {
                    lz77::lemma_roundtrip(d);
                }
            }
            Outcome::Done(lz77::decompress(archive))
        },
        Codec::BytePpmO1 => Outcome::Done(byte_ppm::decompress_order1(archive)),
        Codec::BytePpmO2 => Outcome::Done(byte_ppm::decompress_order2(archive)),
        Codec::BytePpmO3 => Outcome::Done(byte_ppm::decompress_order3(archive)),
        Codec::BytePpmO4 => Outcome::Done(byte_ppm::decompress_order4(archive)),
        Codec::BytePpmO5 => Outcome::Done(byte_ppm::decompress_order5(archive)),
        Codec::BytePpmO6 => Outcome::Done(byte_ppm::decompress_order6(archive)),
        Codec::BitPpmO8 => Outcome::Done(ppm::decompress_order3(archive)),
        Codec::BitPpmOrder8 => Outcome::Done(ppm::decompress_order8(archive)),
        Codec::BitPpmO16 => Outcome::Done(ppm::decompress_order16(archive)),
        Codec::BitPpmO32 => Outcome::Done(ppm::decompress_order32(archive)),
        Codec::BitPpmO64 => Outcome::Done(ppm::decompress_order64(archive)),
        Codec::Ppmd => Outcome::Done(ppmd::decompress(archive)),
        Codec::MatchModel => Outcome::Done(ppm_match_mix::decompress_match_only(archive)),
        Codec::WikiMix5 => Outcome::Done(wikimix::decompress(archive)),
        _ => Outcome::Delegate(codec),
    }
}

/// Restores an archive with the codec its tag names, appending the restored
/// bytes to `out`. The Huffman coder appends each block as it is restored,
/// so the complete blocks before an error stay; the other coders append
/// only on success.
pub fn decompress_auto(archive: &[u8], out: &mut Vec<u8>) -> (r: Restored)
    ensures
        archive@.len() < 4 ==> r == Restored::Done(Err(CodecError::UnexpectedEof)) && final(out)@ == old(out)@,
        archive@.len() >= 4 ==> match tag_codec(archive@.subrange(0, 4)) {
            None => r == Restored::Done(Err(CodecError::UnknownFormat)) && final(out)@ == old(out)@,
            Some(c) => match r {
                Restored::Delegate(c2) => delegated(c) && c2 == c && final(out)@ == old(out)@,
                Restored::Done(res) => !delegated(c) && exists|added: Seq<u8>|
                    #![trigger restored(c, archive@, added, res)]
                    final(out)@ == old(out)@ + added && restored(c, archive@, added, res),
            },
        },
        forall|c: Codec, d: Seq<u8>|
            #![trigger compressed_by(c, d, archive@)]
            compressed_by(c, d, archive@) ==> (r matches Restored::Done(Ok(_))) && final(out)@ == old(out)@ + d,
{
    let codec = match detect(archive) {
        Ok(c) => c,
        Err(e) => {
            proof {
                assert forall|c: Codec, d: Seq<u8>| compressed_by(c, d, archive@) implies false by {
                    lemma_archive_tag(c, d, archive@);
                }
            }
            return Restored::Done(Err(e));
        },
    };
    proof {
        assert forall|c: Codec, d: Seq<u8>| compressed_by(c, d, archive@) implies c == codec by {
            lemma_archive_tag(c, d, archive@);
        }
    }
    let ghost start = out@;
    if codec == Codec::AdaptiveHuffman {
        let res = adaptive_huffman::decompress(archive, out);
        proof {
            let added = adaptive_huffman::restored_spec(archive@).0;
            assert(out@ == start + added);
            match adaptive_huffman::restored_spec(archive@).1 {
                None => {
                    assert(res is Ok);
                },
                Some(e) => {},
            }
            assert(huffman_restored(archive@, added, res));
            assert(restored(codec, archive@, added, res));
            assert forall|d: Seq<u8>| compressed_by(codec, d, archive@) implies res is Ok && out@ == start + d by {}
        }
        return Restored::Done(res);
    }
    match restore_whole(codec, archive) {
        Outcome::Delegate(c) => Restored::Delegate(c),
        Outcome::Done(Err(e)) => {
            proof {
                assert(start + Seq::<u8>::empty() =~= start);
                assert(restored(codec, archive@, Seq::<u8>::empty(), Err::<(), CodecError>(e)));
            }
            Restored::Done(Err(e))
        },
        Outcome::Done(Ok(v)) => {
            let mut k: usize = 0;
            while k < v.len()
                invariant
                    k <= v@.len(),
                    out@ == start + v@.take(k as int),
                decreases v@.len() - k,
            {
                out.push(v[k]);
                k = k + 1;
                assert(out@ =~= start + v@.take(k as int));
            }
            assert(v@.take(v@.len() as int) =~= v@);
            proof {
                assert(restored(codec, archive@, v@, Ok::<(), CodecError>(())));
            }
            Restored::Done(Ok(()))
        },
    }
}

/// An archive a codec wrote carries that codec's tag.
pub proof fn lemma_archive_tag(c: Codec, d: Seq<u8>, archive: Seq<u8>)
    requires
        compressed_by(c, d, archive),
    ensures
        archive.len() >= 4,
        tag_codec(archive.subrange(0, 4)) == Some(c),
{
    if c == Codec::Lz77 {
        assert(archive.subrange(0, 4) =~= lz77::magic_spec());
    }
    lemma_tag_codec(c);
}

} // verus!
