//! Dictionary filter for English text: the most common words become single
//! bytes.
//!
//! A word of the list, with the space before it, is written as one byte from
//! 0x80 up. A byte that collides with these, and the escape byte 0x01 itself,
//! is written behind an escape. Everything else stands for itself. A word is
//! replaced only where no letter follows it, and a longer word goes before a
//! shorter one.

use vstd::prelude::*;
use vstd::utf8::encode_utf8;
use crate::error::Error;
use crate::lz::copy_into;
use crate::wire::write_bytes;

verus! {

/// Precedes a byte that stands for itself.
pub const ESCAPE: u8 = 0x01;

/// How many words the list has.
pub const WORD_COUNT: usize = 128;

/// The word behind token `0x80 + i`. The order is part of the format.
pub open spec fn word_text(i: int) -> Seq<char> {
    match i as u8 {
        0 => " the"@,
        1 => " of"@,
        2 => " and"@,
        3 => " to"@,
        4 => " in"@,
        5 => " is"@,
        6 => " for"@,
        7 => " on"@,
        8 => " that"@,
        9 => " by"@,
        10 => " with"@,
        11 => " this"@,
        12 => " at"@,
        13 => " from"@,
        14 => " are"@,
        15 => " as"@,
        16 => " you"@,
        17 => " it"@,
        18 => " not"@,
        19 => " or"@,
        20 => " be"@,
        21 => " have"@,
        22 => " an"@,
        23 => " was"@,
        24 => " your"@,
        25 => " all"@,
        26 => " we"@,
        27 => " can"@,
        28 => " will"@,
        29 => " more"@,
        30 => " about"@,
        31 => " but"@,
        32 => " they"@,
        33 => " one"@,
        34 => " their"@,
        35 => " has"@,
        36 => " what"@,
        37 => " when"@,
        38 => " which"@,
        39 => " if"@,
        40 => " my"@,
        41 => " me"@,
        42 => " been"@,
        43 => " like"@,
        44 => " its"@,
        45 => " some"@,
        46 => " would"@,
        47 => " than"@,
        48 => " these"@,
        49 => " could"@,
        50 => " them"@,
        51 => " our"@,
        52 => " out"@,
        53 => " also"@,
        54 => " had"@,
        55 => " new"@,
        56 => " just"@,
        57 => " only"@,
        58 => " so"@,
        59 => " over"@,
        60 => " back"@,
        61 => " who"@,
        62 => " into"@,
        63 => " first"@,
        64 => " because"@,
        65 => " people"@,
        66 => " any"@,
        67 => " other"@,
        68 => " very"@,
        69 => " after"@,
        70 => " should"@,
        71 => " well"@,
        72 => " where"@,
        73 => " time"@,
        74 => " now"@,
        75 => " how"@,
        76 => " before"@,
        77 => " still"@,
        78 => " must"@,
        79 => " such"@,
        80 => " said"@,
        81 => " two"@,
        82 => " made"@,
        83 => " much"@,
        84 => " then"@,
        85 => " see"@,
        86 => " use"@,
        87 => " work"@,
        88 => " many"@,
        89 => " good"@,
        90 => " each"@,
        91 => " find"@,
        92 => " year"@,
        93 => " day"@,
        94 => " make"@,
        95 => " come"@,
        96 => " most"@,
        97 => " look"@,
        98 => " used"@,
        99 => " here"@,
        100 => " down"@,
        101 => " take"@,
        102 => " there"@,
        103 => " those"@,
        104 => " even"@,
        105 => " last"@,
        106 => " life"@,
        107 => " right"@,
        108 => " think"@,
        109 => " know"@,
        110 => " get"@,
        111 => " under"@,
        112 => " between"@,
        113 => " long"@,
        114 => " same"@,
        115 => " few"@,
        116 => " through"@,
        117 => " never"@,
        118 => " too"@,
        119 => " own"@,
        120 => " while"@,
        121 => " being"@,
        122 => " another"@,
        123 => " part"@,
        124 => " does"@,
        125 => " without"@,
        126 => " world"@,
        _ => " every"@,
    }
}

/// The bytes of a word.
pub open spec fn word_bytes(i: int) -> Seq<u8> {
    encode_utf8(word_text(i))
}

/// The word behind token `0x80 + i`.
pub fn word(i: usize) -> (w: &'static str)
    requires
        i < WORD_COUNT,
    ensures
        w@ == word_text(i as int),
{
    match i {
        0 => " the",
        1 => " of",
        2 => " and",
        3 => " to",
        4 => " in",
        5 => " is",
        6 => " for",
        7 => " on",
        8 => " that",
        9 => " by",
        10 => " with",
        11 => " this",
        12 => " at",
        13 => " from",
        14 => " are",
        15 => " as",
        16 => " you",
        17 => " it",
        18 => " not",
        19 => " or",
        20 => " be",
        21 => " have",
        22 => " an",
        23 => " was",
        24 => " your",
        25 => " all",
        26 => " we",
        27 => " can",
        28 => " will",
        29 => " more",
        30 => " about",
        31 => " but",
        32 => " they",
        33 => " one",
        34 => " their",
        35 => " has",
        36 => " what",
        37 => " when",
        38 => " which",
        39 => " if",
        40 => " my",
        41 => " me",
        42 => " been",
        43 => " like",
        44 => " its",
        45 => " some",
        46 => " would",
        47 => " than",
        48 => " these",
        49 => " could",
        50 => " them",
        51 => " our",
        52 => " out",
        53 => " also",
        54 => " had",
        55 => " new",
        56 => " just",
        57 => " only",
        58 => " so",
        59 => " over",
        60 => " back",
        61 => " who",
        62 => " into",
        63 => " first",
        64 => " because",
        65 => " people",
        66 => " any",
        67 => " other",
        68 => " very",
        69 => " after",
        70 => " should",
        71 => " well",
        72 => " where",
        73 => " time",
        74 => " now",
        75 => " how",
        76 => " before",
        77 => " still",
        78 => " must",
        79 => " such",
        80 => " said",
        81 => " two",
        82 => " made",
        83 => " much",
        84 => " then",
        85 => " see",
        86 => " use",
        87 => " work",
        88 => " many",
        89 => " good",
        90 => " each",
        91 => " find",
        92 => " year",
        93 => " day",
        94 => " make",
        95 => " come",
        96 => " most",
        97 => " look",
        98 => " used",
        99 => " here",
        100 => " down",
        101 => " take",
        102 => " there",
        103 => " those",
        104 => " even",
        105 => " last",
        106 => " life",
        107 => " right",
        108 => " think",
        109 => " know",
        110 => " get",
        111 => " under",
        112 => " between",
        113 => " long",
        114 => " same",
        115 => " few",
        116 => " through",
        117 => " never",
        118 => " too",
        119 => " own",
        120 => " while",
        121 => " being",
        122 => " another",
        123 => " part",
        124 => " does",
        125 => " without",
        126 => " world",
        _ => " every",
    }
}

/// Whether `b` is an ASCII letter.
pub open spec fn letter(b: u8) -> bool {
    65 <= b <= 90 || 97 <= b <= 122
}

pub fn is_letter(b: u8) -> (r: bool)
    ensures
        r == letter(b),
{
    (65 <= b && b <= 90) || (97 <= b && b <= 122)
}

/// Whether word `t` stands at `i` with no letter behind it.
pub open spec fn word_at(input: Seq<u8>, i: int, t: int) -> bool {
    let w = word_bytes(t);
    let end = i + w.len();
    &&& w.len() >= 2
    &&& end <= input.len()
    &&& input.subrange(i, end) == w
    &&& end == input.len() || !letter(input[end])
}

/// The longest of the first `n` words that stands at `i`.
pub open spec fn longest_word(input: Seq<u8>, i: int, n: nat) -> Option<int>
    decreases n,
{
    if n == 0 {
        None
    } else {
        let before = longest_word(input, i, (n - 1) as nat);
        if word_at(input, i, n - 1) && (match before {
            Some(t) => word_bytes(n - 1).len() > word_bytes(t).len(),
            None => true,
        }) {
            Some(n - 1)
        } else {
            before
        }
    }
}

/// The word that is found at `i` stands there, and no longer one does; where
/// none is found, none stands there.
pub proof fn lemma_longest_word(input: Seq<u8>, i: int, n: nat)
    ensures
        match longest_word(input, i, n) {
            Some(t) => 0 <= t < n && word_at(input, i, t) && forall|u: int|
                0 <= u < n && #[trigger] word_at(input, i, u) ==> word_bytes(u).len() <= word_bytes(
                    t,
                ).len(),
            None => forall|u: int| 0 <= u < n ==> !#[trigger] word_at(input, i, u),
        },
    decreases n,
{
    if n > 0 {
        lemma_longest_word(input, i, (n - 1) as nat);
    }
}

/// The encoding of the input from `i` on.
pub open spec fn encoded_from(input: Seq<u8>, i: int) -> Seq<u8>
    decreases input.len() - i,
{
    if i >= input.len() {
        Seq::empty()
    } else {
        let b = input[i];
        proof {
            lemma_longest_word(input, i, 128);
        }
        match longest_word(input, i, 128) {
            Some(t) if b == 32 => seq![(0x80 + t) as u8] + encoded_from(
                input,
                i + word_bytes(t).len(),
            ),
            _ => if b == ESCAPE || b >= 0x80 {
                seq![ESCAPE, b] + encoded_from(input, i + 1)
            } else {
                seq![b] + encoded_from(input, i + 1)
            },
        }
    }
}

pub open spec fn encoded(input: Seq<u8>) -> Seq<u8> {
    encoded_from(input, 0)
}

/// What an encoded sequence stands for.
pub open spec fn decoded(s: Seq<u8>) -> Result<Seq<u8>, Error>
    decreases s.len(),
{
    if s.len() == 0 {
        Ok(Seq::empty())
    } else if s[0] == ESCAPE {
        if s.len() == 1 {
            Err(Error::DanglingEscape)
        } else {
            match decoded(s.skip(2)) {
                Ok(r) => Ok(seq![s[1]] + r),
                Err(e) => Err(e),
            }
        }
    } else {
        match decoded(s.skip(1)) {
            Ok(r) => Ok(
                if s[0] >= 0x80 {
                    word_bytes(s[0] - 0x80)
                } else {
                    seq![s[0]]
                } + r,
            ),
            Err(e) => Err(e),
        }
    }
}

proof fn lemma_encoded_from_decodes(input: Seq<u8>, i: int)
    requires
        0 <= i <= input.len(),
    ensures
        decoded(encoded_from(input, i)) == Ok::<Seq<u8>, Error>(input.skip(i)),
    decreases input.len() - i,
{
    let s = encoded_from(input, i);
    if i == input.len() {
        assert(input.skip(i) =~= Seq::empty());
    } else {
        let b = input[i];
        lemma_longest_word(input, i, 128);
        match longest_word(input, i, 128) {
            Some(t) if b == 32 => {
                let next = i + word_bytes(t).len();
                lemma_encoded_from_decodes(input, next);
                assert(s.skip(1) =~= encoded_from(input, next));
                assert(input.skip(i) =~= input.subrange(i, next) + input.skip(next));
            },
            _ => {
                lemma_encoded_from_decodes(input, i + 1);
                assert(input.skip(i) =~= seq![b] + input.skip(i + 1));
                if b == ESCAPE || b >= 0x80 {
                    assert(s.skip(2) =~= encoded_from(input, i + 1));
                } else {
                    assert(s.skip(1) =~= encoded_from(input, i + 1));
                }
            },
        }
    }
}

/// Decoding what was encoded gives the input back.
pub proof fn lemma_dict_round_trip(input: Seq<u8>)
    ensures
        decoded(encoded(input)) == Ok::<Seq<u8>, Error>(input),
{
    lemma_encoded_from_decodes(input, 0);
    assert(input.skip(0) =~= input);
}

/// A word of the list: a space and at least two small letters.
pub open spec fn well_spelled(s: Seq<char>) -> bool {
    &&& 3 <= s.len() <= 8
    &&& s[0] == ' '
    &&& forall|k: int| 1 <= k < s.len() ==> 'a' <= #[trigger] s[k] <= 'z'
}

spec fn char_at(s: Seq<char>, k: int) -> int {
    if k < s.len() {
        s[k] as int
    } else {
        0
    }
}

/// A key that tells apart the words of the list, by the letters behind the space.
spec fn word_key(s: Seq<char>) -> int {
    char_at(s, 1) + 128 * (char_at(s, 2) + 128 * (char_at(s, 3) + 128 * (char_at(s, 4) + 128 * (
    char_at(s, 5) + 128 * (char_at(s, 6) + 128 * char_at(s, 7))))))
}

/// The place of the word with a key.
spec fn place_of_key(k: int) -> int {
    if k == 1668212 {
        0
    } else if k == 13167 {
        1
    } else if k == 1652577 {
        2
    } else if k == 14324 {
        3
    } else if k == 14185 {
        4
    } else if k == 14825 {
        5
    } else if k == 1882086 {
        6
    } else if k == 14191 {
        7
    } else if k == 244872308 {
        8
    } else if k == 15586 {
        9
    } else if k == 220017911 {
        10
    } else if k == 242906228 {
        11
    } else if k == 14945 {
        12
    } else if k == 230422886 {
        13
    } else if k == 1669473 {
        14
    } else if k == 14817 {
        15
    } else if k == 1931257 {
        16
    } else if k == 14953 {
        17
    } else if k == 1914862 {
        18
    } else if k == 14703 {
        19
    } else if k == 13026 {
        20
    } else if k == 213758184 {
        21
    } else if k == 14177 {
        22
    } else if k == 1896695 {
        23
    } else if k == 241006585 {
        24
    } else if k == 1783393 {
        25
    } else if k == 13047 {
        26
    } else if k == 1814755 {
        27
    } else if k == 228275447 {
        28
    } else if k == 213694445 {
        29
    } else if k == 31385710945 {
        30
    } else if k == 1915618 {
        31
    } else if k == 255423604 {
        32
    } else if k == 1668975 {
        33
    } else if k == 30823511156 {
        34
    } else if k == 1896680 {
        35
    } else if k == 244872311 {
        36
    } else if k == 232354935 {
        37
    } else if k == 28126639223 {
        38
    } else if k == 13161 {
        39
    } else if k == 15597 {
        40
    } else if k == 13037 {
        41
    } else if k == 232354530 {
        42
    } else if k == 213578988 {
        43
    } else if k == 1899113 {
        44
    } else if k == 213612531 {
        45
    } else if k == 27071969271 {
        46
    } else if k == 232289396 {
        47
    } else if k == 27354821748 {
        48
    } else if k == 27071969251 {
        49
    } else if k == 230257780 {
        50
    } else if k == 1882863 {
        51
    } else if k == 1915631 {
        52
    } else if k == 234681953 {
        53
    } else if k == 1650920 {
        54
    } else if k == 1962734 {
        55
    } else if k == 245168874 {
        56
    } else if k == 255539055 {
        57
    } else if k == 14323 {
        58
    } else if k == 240745327 {
        59
    } else if k == 226029794 {
        60
    } else if k == 1832055 {
        61
    } else if k == 234698601 {
        62
    } else if k == 31381566694 {
        63
    } else if k == 448185679540962 {
        64
    } else if k == 3499561317104 {
        65
    } else if k == 1996641 {
        66
    } else if k == 30815173231 {
        67
    } else if k == 255636214 {
        68
    } else if k == 30815368033 {
        69
    } else if k == 3465212064883 {
        70
    } else if k == 228274935 {
        71
    } else if k == 27352724599 {
        72
    } else if k == 213611764 {
        73
    } else if k == 1964014 {
        74
    } else if k == 1964008 {
        75
    } else if k == 3501169685218 {
        76
    } else if k == 29219256947 {
        77
    } else if k == 245168877 {
        78
    } else if k == 219740915 {
        79
    } else if k == 211448051 {
        80
    } else if k == 1833972 {
        81
    } else if k == 213463277 {
        82
    } else if k == 219740909 {
        83
    } else if k == 232354932 {
        84
    } else if k == 1667827 {
        85
    } else if k == 1669621 {
        86
    } else if k == 226277367 {
        87
    } else if k == 255570157 {
        88
    } else if k == 211548135 {
        89
    } else if k == 219738341 {
        90
    } else if k == 211530982 {
        91
    } else if k == 240677625 {
        92
    } else if k == 1994980 {
        93
    } else if k == 213577965 {
        94
    } else if k == 213612515 {
        95
    } else if k == 245168109 {
        96
    } else if k == 226228204 {
        97
    } else if k == 211384821 {
        98
    } else if k == 213693160 {
        99
    } else if k == 232650724 {
        100
    } else if k == 213577972 {
        101
    } else if k == 27352724596 {
        102
    } else if k == 27354985588 {
        103
    } else if k == 232356709 {
        104
    } else if k == 245166316 {
        105
    } else if k == 213497068 {
        106
    } else if k == 31358317810 {
        107
    } else if k == 28955014260 {
        108
    } else if k == 251393899 {
        109
    } else if k == 1913575 {
        110
    } else if k == 30815106933 {
        111
    } else if k == 487282813252322 {
        112
    } else if k == 217823212 {
        113
    } else if k == 213610739 {
        114
    } else if k == 1962726 {
        115
    } else if k == 460967531820148 {
        116
    } else if k == 30815400686 {
        117
    } else if k == 1832948 {
        118
    } else if k == 1817583 {
        119
    } else if k == 27340207223 {
        120
    } else if k == 27881272034 {
        121
    } else if k == 504875798230881 {
        122
    } else if k == 245149936 {
        123
    } else if k == 242841572 {
        124
    } else if k == 514223501030647 {
        125
    } else if k == 27071920119 {
        126
    } else {
        127
    }
}

proof fn lemma_words_0(t: int)
    requires
        0 <= t < 16,
    ensures
        well_spelled(word_text(t)),
        place_of_key(word_key(word_text(t))) == t,
{
    if t == 0 {
        reveal_strlit(" the");
        assert(word_key(word_text(t)) == 1668212);
    } else if t == 1 {
        reveal_strlit(" of");
        assert(word_key(word_text(t)) == 13167);
    } else if t == 2 {
        reveal_strlit(" and");
        assert(word_key(word_text(t)) == 1652577);
    } else if t == 3 {
        reveal_strlit(" to");
        assert(word_key(word_text(t)) == 14324);
    } else if t == 4 {
        reveal_strlit(" in");
        assert(word_key(word_text(t)) == 14185);
    } else if t == 5 {
        reveal_strlit(" is");
        assert(word_key(word_text(t)) == 14825);
    } else if t == 6 {
        reveal_strlit(" for");
        assert(word_key(word_text(t)) == 1882086);
    } else if t == 7 {
        reveal_strlit(" on");
        assert(word_key(word_text(t)) == 14191);
    } else if t == 8 {
        reveal_strlit(" that");
        assert(word_key(word_text(t)) == 244872308);
    } else if t == 9 {
        reveal_strlit(" by");
        assert(word_key(word_text(t)) == 15586);
    } else if t == 10 {
        reveal_strlit(" with");
        assert(word_key(word_text(t)) == 220017911);
    } else if t == 11 {
        reveal_strlit(" this");
        assert(word_key(word_text(t)) == 242906228);
    } else if t == 12 {
        reveal_strlit(" at");
        assert(word_key(word_text(t)) == 14945);
    } else if t == 13 {
        reveal_strlit(" from");
        assert(word_key(word_text(t)) == 230422886);
    } else if t == 14 {
        reveal_strlit(" are");
        assert(word_key(word_text(t)) == 1669473);
    } else {
        reveal_strlit(" as");
        assert(word_key(word_text(t)) == 14817);
    }
}

proof fn lemma_words_16(t: int)
    requires
        16 <= t < 32,
    ensures
        well_spelled(word_text(t)),
        place_of_key(word_key(word_text(t))) == t,
{
    if t == 16 {
        reveal_strlit(" you");
        assert(word_key(word_text(t)) == 1931257);
    } else if t == 17 {
        reveal_strlit(" it");
        assert(word_key(word_text(t)) == 14953);
    } else if t == 18 {
        reveal_strlit(" not");
        assert(word_key(word_text(t)) == 1914862);
    } else if t == 19 {
        reveal_strlit(" or");
        assert(word_key(word_text(t)) == 14703);
    } else if t == 20 {
        reveal_strlit(" be");
        assert(word_key(word_text(t)) == 13026);
    } else if t == 21 {
        reveal_strlit(" have");
        assert(word_key(word_text(t)) == 213758184);
    } else if t == 22 {
        reveal_strlit(" an");
        assert(word_key(word_text(t)) == 14177);
    } else if t == 23 {
        reveal_strlit(" was");
        assert(word_key(word_text(t)) == 1896695);
    } else if t == 24 {
        reveal_strlit(" your");
        assert(word_key(word_text(t)) == 241006585);
    } else if t == 25 {
        reveal_strlit(" all");
        assert(word_key(word_text(t)) == 1783393);
    } else if t == 26 {
        reveal_strlit(" we");
        assert(word_key(word_text(t)) == 13047);
    } else if t == 27 {
        reveal_strlit(" can");
        assert(word_key(word_text(t)) == 1814755);
    } else if t == 28 {
        reveal_strlit(" will");
        assert(word_key(word_text(t)) == 228275447);
    } else if t == 29 {
        reveal_strlit(" more");
        assert(word_key(word_text(t)) == 213694445);
    } else if t == 30 {
        reveal_strlit(" about");
        assert(word_key(word_text(t)) == 31385710945);
    } else {
        reveal_strlit(" but");
        assert(word_key(word_text(t)) == 1915618);
    }
}

proof fn lemma_words_32(t: int)
    requires
        32 <= t < 48,
    ensures
        well_spelled(word_text(t)),
        place_of_key(word_key(word_text(t))) == t,
{
    if t == 32 {
        reveal_strlit(" they");
        assert(word_key(word_text(t)) == 255423604);
    } else if t == 33 {
        reveal_strlit(" one");
        assert(word_key(word_text(t)) == 1668975);
    } else if t == 34 {
        reveal_strlit(" their");
        assert(word_key(word_text(t)) == 30823511156);
    } else if t == 35 {
        reveal_strlit(" has");
        assert(word_key(word_text(t)) == 1896680);
    } else if t == 36 {
        reveal_strlit(" what");
        assert(word_key(word_text(t)) == 244872311);
    } else if t == 37 {
        reveal_strlit(" when");
        assert(word_key(word_text(t)) == 232354935);
    } else if t == 38 {
        reveal_strlit(" which");
        assert(word_key(word_text(t)) == 28126639223);
    } else if t == 39 {
        reveal_strlit(" if");
        assert(word_key(word_text(t)) == 13161);
    } else if t == 40 {
        reveal_strlit(" my");
        assert(word_key(word_text(t)) == 15597);
    } else if t == 41 {
        reveal_strlit(" me");
        assert(word_key(word_text(t)) == 13037);
    } else if t == 42 {
        reveal_strlit(" been");
        assert(word_key(word_text(t)) == 232354530);
    } else if t == 43 {
        reveal_strlit(" like");
        assert(word_key(word_text(t)) == 213578988);
    } else if t == 44 {
        reveal_strlit(" its");
        assert(word_key(word_text(t)) == 1899113);
    } else if t == 45 {
        reveal_strlit(" some");
        assert(word_key(word_text(t)) == 213612531);
    } else if t == 46 {
        reveal_strlit(" would");
        assert(word_key(word_text(t)) == 27071969271);
    } else {
        reveal_strlit(" than");
        assert(word_key(word_text(t)) == 232289396);
    }
}

proof fn lemma_words_48(t: int)
    requires
        48 <= t < 64,
    ensures
        well_spelled(word_text(t)),
        place_of_key(word_key(word_text(t))) == t,
{
    if t == 48 {
        reveal_strlit(" these");
        assert(word_key(word_text(t)) == 27354821748);
    } else if t == 49 {
        reveal_strlit(" could");
        assert(word_key(word_text(t)) == 27071969251);
    } else if t == 50 {
        reveal_strlit(" them");
        assert(word_key(word_text(t)) == 230257780);
    } else if t == 51 {
        reveal_strlit(" our");
        assert(word_key(word_text(t)) == 1882863);
    } else if t == 52 {
        reveal_strlit(" out");
        assert(word_key(word_text(t)) == 1915631);
    } else if t == 53 {
        reveal_strlit(" also");
        assert(word_key(word_text(t)) == 234681953);
    } else if t == 54 {
        reveal_strlit(" had");
        assert(word_key(word_text(t)) == 1650920);
    } else if t == 55 {
        reveal_strlit(" new");
        assert(word_key(word_text(t)) == 1962734);
    } else if t == 56 {
        reveal_strlit(" just");
        assert(word_key(word_text(t)) == 245168874);
    } else if t == 57 {
        reveal_strlit(" only");
        assert(word_key(word_text(t)) == 255539055);
    } else if t == 58 {
        reveal_strlit(" so");
        assert(word_key(word_text(t)) == 14323);
    } else if t == 59 {
        reveal_strlit(" over");
        assert(word_key(word_text(t)) == 240745327);
    } else if t == 60 {
        reveal_strlit(" back");
        assert(word_key(word_text(t)) == 226029794);
    } else if t == 61 {
        reveal_strlit(" who");
        assert(word_key(word_text(t)) == 1832055);
    } else if t == 62 {
        reveal_strlit(" into");
        assert(word_key(word_text(t)) == 234698601);
    } else {
        reveal_strlit(" first");
        assert(word_key(word_text(t)) == 31381566694);
    }
}

proof fn lemma_words_64(t: int)
    requires
        64 <= t < 80,
    ensures
        well_spelled(word_text(t)),
        place_of_key(word_key(word_text(t))) == t,
{
    if t == 64 {
        reveal_strlit(" because");
        assert(word_key(word_text(t)) == 448185679540962);
    } else if t == 65 {
        reveal_strlit(" people");
        assert(word_key(word_text(t)) == 3499561317104);
    } else if t == 66 {
        reveal_strlit(" any");
        assert(word_key(word_text(t)) == 1996641);
    } else if t == 67 {
        reveal_strlit(" other");
        assert(word_key(word_text(t)) == 30815173231);
    } else if t == 68 {
        reveal_strlit(" very");
        assert(word_key(word_text(t)) == 255636214);
    } else if t == 69 {
        reveal_strlit(" after");
        assert(word_key(word_text(t)) == 30815368033);
    } else if t == 70 {
        reveal_strlit(" should");
        assert(word_key(word_text(t)) == 3465212064883);
    } else if t == 71 {
        reveal_strlit(" well");
        assert(word_key(word_text(t)) == 228274935);
    } else if t == 72 {
        reveal_strlit(" where");
        assert(word_key(word_text(t)) == 27352724599);
    } else if t == 73 {
        reveal_strlit(" time");
        assert(word_key(word_text(t)) == 213611764);
    } else if t == 74 {
        reveal_strlit(" now");
        assert(word_key(word_text(t)) == 1964014);
    } else if t == 75 {
        reveal_strlit(" how");
        assert(word_key(word_text(t)) == 1964008);
    } else if t == 76 {
        reveal_strlit(" before");
        assert(word_key(word_text(t)) == 3501169685218);
    } else if t == 77 {
        reveal_strlit(" still");
        assert(word_key(word_text(t)) == 29219256947);
    } else if t == 78 {
        reveal_strlit(" must");
        assert(word_key(word_text(t)) == 245168877);
    } else {
        reveal_strlit(" such");
        assert(word_key(word_text(t)) == 219740915);
    }
}

proof fn lemma_words_80(t: int)
    requires
        80 <= t < 96,
    ensures
        well_spelled(word_text(t)),
        place_of_key(word_key(word_text(t))) == t,
{
    if t == 80 {
        reveal_strlit(" said");
        assert(word_key(word_text(t)) == 211448051);
    } else if t == 81 {
        reveal_strlit(" two");
        assert(word_key(word_text(t)) == 1833972);
    } else if t == 82 {
        reveal_strlit(" made");
        assert(word_key(word_text(t)) == 213463277);
    } else if t == 83 {
        reveal_strlit(" much");
        assert(word_key(word_text(t)) == 219740909);
    } else if t == 84 {
        reveal_strlit(" then");
        assert(word_key(word_text(t)) == 232354932);
    } else if t == 85 {
        reveal_strlit(" see");
        assert(word_key(word_text(t)) == 1667827);
    } else if t == 86 {
        reveal_strlit(" use");
        assert(word_key(word_text(t)) == 1669621);
    } else if t == 87 {
        reveal_strlit(" work");
        assert(word_key(word_text(t)) == 226277367);
    } else if t == 88 {
        reveal_strlit(" many");
        assert(word_key(word_text(t)) == 255570157);
    } else if t == 89 {
        reveal_strlit(" good");
        assert(word_key(word_text(t)) == 211548135);
    } else if t == 90 {
        reveal_strlit(" each");
        assert(word_key(word_text(t)) == 219738341);
    } else if t == 91 {
        reveal_strlit(" find");
        assert(word_key(word_text(t)) == 211530982);
    } else if t == 92 {
        reveal_strlit(" year");
        assert(word_key(word_text(t)) == 240677625);
    } else if t == 93 {
        reveal_strlit(" day");
        assert(word_key(word_text(t)) == 1994980);
    } else if t == 94 {
        reveal_strlit(" make");
        assert(word_key(word_text(t)) == 213577965);
    } else {
        reveal_strlit(" come");
        assert(word_key(word_text(t)) == 213612515);
    }
}

proof fn lemma_words_96(t: int)
    requires
        96 <= t < 112,
    ensures
        well_spelled(word_text(t)),
        place_of_key(word_key(word_text(t))) == t,
{
    if t == 96 {
        reveal_strlit(" most");
        assert(word_key(word_text(t)) == 245168109);
    } else if t == 97 {
        reveal_strlit(" look");
        assert(word_key(word_text(t)) == 226228204);
    } else if t == 98 {
        reveal_strlit(" used");
        assert(word_key(word_text(t)) == 211384821);
    } else if t == 99 {
        reveal_strlit(" here");
        assert(word_key(word_text(t)) == 213693160);
    } else if t == 100 {
        reveal_strlit(" down");
        assert(word_key(word_text(t)) == 232650724);
    } else if t == 101 {
        reveal_strlit(" take");
        assert(word_key(word_text(t)) == 213577972);
    } else if t == 102 {
        reveal_strlit(" there");
        assert(word_key(word_text(t)) == 27352724596);
    } else if t == 103 {
        reveal_strlit(" those");
        assert(word_key(word_text(t)) == 27354985588);
    } else if t == 104 {
        reveal_strlit(" even");
        assert(word_key(word_text(t)) == 232356709);
    } else if t == 105 {
        reveal_strlit(" last");
        assert(word_key(word_text(t)) == 245166316);
    } else if t == 106 {
        reveal_strlit(" life");
        assert(word_key(word_text(t)) == 213497068);
    } else if t == 107 {
        reveal_strlit(" right");
        assert(word_key(word_text(t)) == 31358317810);
    } else if t == 108 {
        reveal_strlit(" think");
        assert(word_key(word_text(t)) == 28955014260);
    } else if t == 109 {
        reveal_strlit(" know");
        assert(word_key(word_text(t)) == 251393899);
    } else if t == 110 {
        reveal_strlit(" get");
        assert(word_key(word_text(t)) == 1913575);
    } else {
        reveal_strlit(" under");
        assert(word_key(word_text(t)) == 30815106933);
    }
}

proof fn lemma_words_112(t: int)
    requires
        112 <= t < 128,
    ensures
        well_spelled(word_text(t)),
        place_of_key(word_key(word_text(t))) == t,
{
    if t == 112 {
        reveal_strlit(" between");
        assert(word_key(word_text(t)) == 487282813252322);
    } else if t == 113 {
        reveal_strlit(" long");
        assert(word_key(word_text(t)) == 217823212);
    } else if t == 114 {
        reveal_strlit(" same");
        assert(word_key(word_text(t)) == 213610739);
    } else if t == 115 {
        reveal_strlit(" few");
        assert(word_key(word_text(t)) == 1962726);
    } else if t == 116 {
        reveal_strlit(" through");
        assert(word_key(word_text(t)) == 460967531820148);
    } else if t == 117 {
        reveal_strlit(" never");
        assert(word_key(word_text(t)) == 30815400686);
    } else if t == 118 {
        reveal_strlit(" too");
        assert(word_key(word_text(t)) == 1832948);
    } else if t == 119 {
        reveal_strlit(" own");
        assert(word_key(word_text(t)) == 1817583);
    } else if t == 120 {
        reveal_strlit(" while");
        assert(word_key(word_text(t)) == 27340207223);
    } else if t == 121 {
        reveal_strlit(" being");
        assert(word_key(word_text(t)) == 27881272034);
    } else if t == 122 {
        reveal_strlit(" another");
        assert(word_key(word_text(t)) == 504875798230881);
    } else if t == 123 {
        reveal_strlit(" part");
        assert(word_key(word_text(t)) == 245149936);
    } else if t == 124 {
        reveal_strlit(" does");
        assert(word_key(word_text(t)) == 242841572);
    } else if t == 125 {
        reveal_strlit(" without");
        assert(word_key(word_text(t)) == 514223501030647);
    } else if t == 126 {
        reveal_strlit(" world");
        assert(word_key(word_text(t)) == 27071920119);
    } else {
        reveal_strlit(" every");
        assert(word_key(word_text(t)) == 32721435493);
    }
}

/// Every word of the list is well spelled, and no two are the same.
pub proof fn lemma_words(t: int, u: int)
    requires
        0 <= t < 128,
        0 <= u < 128,
    ensures
        well_spelled(word_text(t)),
        word_text(t) == word_text(u) ==> t == u,
{
    lemma_word(t);
    lemma_word(u);
}

proof fn lemma_word(t: int)
    requires
        0 <= t < 128,
    ensures
        well_spelled(word_text(t)),
        place_of_key(word_key(word_text(t))) == t,
{
    if t < 16 {
        lemma_words_0(t);
    } else if t < 32 {
        lemma_words_16(t);
    } else if t < 48 {
        lemma_words_32(t);
    } else if t < 64 {
        lemma_words_48(t);
    } else if t < 80 {
        lemma_words_64(t);
    } else if t < 96 {
        lemma_words_80(t);
    } else if t < 112 {
        lemma_words_96(t);
    } else {
        lemma_words_112(t);
    }
}

/// The bytes of a word: a space, and letters behind it.
proof fn lemma_word_bytes(t: int)
    requires
        0 <= t < 128,
    ensures
        3 <= word_bytes(t).len() <= 8,
        word_bytes(t)[0] == 32,
        forall|k: int| 1 <= k < word_bytes(t).len() ==> letter(#[trigger] word_bytes(t)[k]),
{
    let w = word_text(t);
    lemma_word(t);
    assert(vstd::utf8::is_ascii_chars(w)) by {
        assert forall|k: int|
            0 <= k < w.len() implies '\0' <= #[trigger] w[k] <= '\u{7f}' by {
            if k > 0 {
                assert('a' <= w[k] <= 'z');
            }
        }
    }
    vstd::utf8::is_ascii_chars_encode_utf8(w);
    assert forall|k: int| 1 <= k < word_bytes(t).len() implies letter(#[trigger] word_bytes(t)[k]) by {
        assert('a' <= w[k] <= 'z');
        assert(w[k] as u8 == word_bytes(t)[k]);
    }
}

/// The same word stands at `i` in the first of two pieces and in both joined,
/// where no letter follows the first.
proof fn lemma_word_at_joined(a: Seq<u8>, b: Seq<u8>, i: int, t: int)
    requires
        0 <= i < a.len(),
        0 <= t < 128,
        b.len() == 0 || !letter(b[0]),
    ensures
        word_at(a + b, i, t) == word_at(a, i, t),
{
    let w = word_bytes(t);
    let end = i + w.len();
    let c = a + b;
    lemma_word_bytes(t);
    if end <= a.len() {
        assert(c.subrange(i, end) =~= a.subrange(i, end));
    } else if end <= c.len() {
        let k = a.len() - i;
        assert(letter(w[k]));
        assert(c.subrange(i, end)[k] == b[0]);
    }
}

proof fn lemma_longest_word_joined(a: Seq<u8>, b: Seq<u8>, i: int, n: nat)
    requires
        0 <= i < a.len(),
        n <= 128,
        b.len() == 0 || !letter(b[0]),
    ensures
        longest_word(a + b, i, n) == longest_word(a, i, n),
    decreases n,
{
    if n > 0 {
        lemma_longest_word_joined(a, b, i, (n - 1) as nat);
        lemma_word_at_joined(a, b, i, n - 1);
    }
}

proof fn lemma_longest_word_shifted(a: Seq<u8>, b: Seq<u8>, i: int, n: nat)
    requires
        0 <= i,
    ensures
        longest_word(a + b, a.len() + i, n) == longest_word(b, i, n),
    decreases n,
{
    if n > 0 {
        lemma_longest_word_shifted(a, b, i, (n - 1) as nat);
        let end = i + word_bytes(n - 1).len();
        if end <= b.len() {
            assert((a + b).subrange(a.len() + i, a.len() + end) =~= b.subrange(i, end));
        }
    }
}

proof fn lemma_encoded_shifted(a: Seq<u8>, b: Seq<u8>, i: int)
    requires
        0 <= i <= b.len(),
    ensures
        encoded_from(a + b, a.len() + i) == encoded_from(b, i),
    decreases b.len() - i,
{
    if i < b.len() {
        lemma_longest_word_shifted(a, b, i, 128);
        lemma_longest_word(b, i, 128);
        match longest_word(b, i, 128) {
            Some(t) if b[i] == 32 => {
                lemma_encoded_shifted(a, b, i + word_bytes(t).len());
            },
            _ => {
                lemma_encoded_shifted(a, b, i + 1);
            },
        }
    }
}

proof fn lemma_encoded_joined_from(a: Seq<u8>, b: Seq<u8>, i: int)
    requires
        0 <= i <= a.len(),
        b.len() == 0 || !letter(b[0]),
    ensures
        encoded_from(a + b, i) == encoded_from(a, i) + encoded(b),
    decreases a.len() - i,
{
    let c = a + b;
    if i == a.len() {
        lemma_encoded_shifted(a, b, 0);
        assert(encoded_from(a, i) + encoded(b) =~= encoded(b));
    } else {
        lemma_longest_word_joined(a, b, i, 128);
        lemma_longest_word(a, i, 128);
        assert(c[i] == a[i]);
        match longest_word(a, i, 128) {
            Some(t) if a[i] == 32 => {
                let next = i + word_bytes(t).len();
                lemma_encoded_joined_from(a, b, next);
                assert(encoded_from(c, i) =~= encoded_from(a, i) + encoded(b));
            },
            _ => {
                lemma_encoded_joined_from(a, b, i + 1);
                assert(encoded_from(c, i) =~= encoded_from(a, i) + encoded(b));
            },
        }
    }
}

/// Encoding two pieces joined where no letter follows is joining their
/// encodings.
pub proof fn lemma_encoded_joined(a: Seq<u8>, b: Seq<u8>)
    requires
        b.len() == 0 || !letter(b[0]),
    ensures
        encoded(a + b) == encoded(a) + encoded(b),
{
    lemma_encoded_joined_from(a, b, 0);
}

/// Every word of the list becomes its token.
pub proof fn lemma_encoded_word(t: int)
    requires
        0 <= t < 128,
    ensures
        encoded(word_bytes(t)) == seq![(0x80 + t) as u8],
{
    let w = word_bytes(t);
    lemma_word_bytes(t);
    assert(w.subrange(0, w.len() as int) =~= w);
    assert(word_at(w, 0, t));
    lemma_longest_word(w, 0, 128);
    let u = longest_word(w, 0, 128)->Some_0;
    let v = word_bytes(u);
    assert(word_at(w, 0, u));
    assert(v.len() == w.len());
    assert(w.subrange(0, v.len() as int) =~= w);
    crate::text::lemma_utf8_round_trip(word_text(t));
    crate::text::lemma_utf8_round_trip(word_text(u));
    lemma_words(t, u);
    assert(encoded_from(w, w.len() as int) =~= Seq::empty());
    assert(encoded(w) =~= seq![(0x80 + t) as u8]);
}

/// A single byte stands for itself, behind an escape where it would be taken for
/// a token or an escape; nothing becomes nothing.
pub proof fn lemma_encoded_byte(x: u8)
    ensures
        encoded(Seq::empty()) == Seq::<u8>::empty(),
        x == 0x01 || x >= 0x80 ==> encoded(seq![x]) == seq![0x01u8, x],
        x != 0x01 && x < 0x80 ==> encoded(seq![x]) == seq![x],
        encoded(seq![x]) == (if x == ESCAPE || x >= 0x80 {
            seq![ESCAPE, x]
        } else {
            seq![x]
        }),
{
    let s = seq![x];
    lemma_longest_word(s, 0, 128);
    if let Some(t) = longest_word(s, 0, 128) {
        lemma_word_bytes(t);
    }
    assert(encoded_from(s, 1) =~= Seq::empty());
    assert(encoded(s) =~= (if x == ESCAPE || x >= 0x80 {
        seq![ESCAPE, x]
    } else {
        seq![x]
    }));
}

/// An encoding has at most two bytes for each byte of the input.
pub proof fn lemma_encoded_len(input: Seq<u8>)
    ensures
        encoded(input).len() <= 2 * input.len(),
{
    lemma_encoded_len_from(input, 0);
}

proof fn lemma_encoded_len_from(input: Seq<u8>, i: int)
    requires
        0 <= i <= input.len(),
    ensures
        encoded_from(input, i).len() <= 2 * (input.len() - i),
    decreases input.len() - i,
{
    if i < input.len() {
        lemma_longest_word(input, i, 128);
        match longest_word(input, i, 128) {
            Some(t) if input[i] == 32 => {
                lemma_encoded_len_from(input, i + word_bytes(t).len());
            },
            _ => {
                lemma_encoded_len_from(input, i + 1);
            },
        }
    }
}

/// Whether the bytes of `w` stand at `i` with no letter behind them.
fn stands_at(input: &[u8], i: usize, w: &[u8]) -> (r: bool)
    requires
        i <= input@.len(),
    ensures
        r == ({
            let end = i + w@.len();
            &&& w@.len() >= 2
            &&& end <= input@.len()
            &&& input@.subrange(i as int, end as int) == w@
            &&& end == input@.len() || !letter(input@[end as int])
        }),
{
    if w.len() < 2 || w.len() > input.len() - i {
        return false;
    }
    let mut k: usize = 0;
    while k < w.len()
        invariant
            k <= w@.len(),
            i + w.len() <= input.len(),
            forall|j: int| 0 <= j < k ==> #[trigger] input@[i + j] == w@[j],
        decreases w@.len() - k,
    {
        if input[i + k] != w[k] {
            assert(input@.subrange(i as int, i + w@.len())[k as int] != w@[k as int]);
            return false;
        }
        k = k + 1;
    }
    assert(input@.subrange(i as int, i + w@.len()) =~= w@) by {
        assert forall|j: int| 0 <= j < w@.len() implies input@.subrange(i as int, i + w@.len())[j]
            == w@[j] by {
            assert(input@[i + j] == w@[j]);
        }
    }
    let end: usize = i + w.len();
    end == input.len() || !is_letter(input[end])
}

/// The token of the longest word at `i`, and that word's length.
fn find_word(input: &[u8], i: usize) -> (r: Option<(u8, usize)>)
    requires
        i <= input@.len(),
    ensures
        match longest_word(input@, i as int, 128) {
            Some(t) => r matches Some((tok, n)) && tok == 0x80 + t && n == word_bytes(t).len(),
            None => r is None,
        },
{
    let mut best: Option<(u8, usize)> = None;
    let mut t: u8 = 0;
    while t < 128
        invariant
            t <= 128,
            i <= input@.len(),
            match longest_word(input@, i as int, t as nat) {
                Some(u) => 0 <= u < t && best == Some(
                    ((0x80 + u) as u8, word_bytes(u).len() as usize),
                ) && word_bytes(u).len() <= usize::MAX,
                None => best is None,
            },
        decreases 128 - t,
    {
        let w = word(t as usize).as_bytes();
        assert(w@ == word_bytes(t as int));
        if stands_at(input, i, w) {
            let longer: bool = match best {
                Some((_, n)) => w.len() > n,
                None => true,
            };
            if longer {
                best = Some((128 + t, w.len()));
            }
        }
        t = t + 1;
    }
    best
}

/// Replaces words by tokens.
pub fn encode(input: &[u8]) -> (out: Vec<u8>)
    ensures
        out@ == encoded(input@),
{
    let mut out: Vec<u8> = Vec::new();
    let mut i: usize = 0;
    while i < input.len()
        invariant
            i <= input@.len(),
            out@ + encoded_from(input@, i as int) == encoded(input@),
        decreases input@.len() - i,
    {
        let b: u8 = input[i];
        let ghost before = out@;
        let ghost rest = encoded_from(input@, i as int);
        let found: Option<(u8, usize)> = find_word(input, i);
        proof {
            lemma_longest_word(input@, i as int, 128);
        }
        match found {
            Some((tok, n)) if b == 32 => {
                out.push(tok);
                i = i + n;
            },
            _ => {
                if b == ESCAPE || b >= 0x80 {
                    out.push(ESCAPE);
                    out.push(b);
                } else {
                    out.push(b);
                }
                i = i + 1;
            },
        }
        assert(out@ + encoded_from(input@, i as int) =~= before + rest);
    }
    out
}

/// Restores the words; fails on an escape with nothing behind it.
pub fn decode(input: &[u8]) -> (res: Result<Vec<u8>, Error>)
    ensures
        match decoded(input@) {
            Ok(r) => res matches Ok(v) && v@ == r,
            Err(e) => res == Err::<Vec<u8>, Error>(e),
        },
{
    let mut out: Vec<u8> = Vec::new();
    let mut i: usize = 0;
    assert(input@.skip(0) =~= input@);
    while i < input.len()
        invariant
            i <= input@.len(),
            match decoded(input@.skip(i as int)) {
                Ok(r) => decoded(input@) == Ok::<Seq<u8>, Error>(out@ + r),
                Err(e) => decoded(input@) == Err::<Seq<u8>, Error>(e),
            },
        decreases input@.len() - i,
    {
        let b: u8 = input[i];
        let ghost before = out@;
        let ghost s = input@.skip(i as int);
        if b == ESCAPE {
            if i + 1 >= input.len() {
                return Err(Error::DanglingEscape);
            }
            assert(s.skip(2) =~= input@.skip(i + 2));
            out.push(input[i + 1]);
            i = i + 2;
        } else {
            assert(s.skip(1) =~= input@.skip(i + 1));
            if b >= 0x80 {
                let w = word((b - 128) as usize).as_bytes();
                write_bytes(&mut out, w);
            } else {
                out.push(b);
            }
            i = i + 1;
        }
        proof {
            if let Ok(r) = decoded(input@.skip(i as int)) {
                assert(out@ + r =~= before + decoded(s)->Ok_0);
            }
        }
    }
    Ok(out)
}

/// Whether a byte is printable ASCII or a line break, return or tab.
pub open spec fn printable(b: u8) -> bool {
    b == 10 || b == 13 || b == 9 || 0x20 <= b <= 0x7E
}

pub open spec fn printable_count(s: Seq<u8>) -> nat
    decreases s.len(),
{
    if s.len() == 0 {
        0
    } else {
        printable_count(s.drop_last()) + if printable(s.last()) {
            1nat
        } else {
            0nat
        }
    }
}

/// Whether at least nine tenths of a sample are printable; an empty sample is
/// no text.
pub fn looks_like_text(sample: &[u8]) -> (r: bool)
    ensures
        r == (sample@.len() > 0 && printable_count(sample@) * 100 >= sample@.len() * 90),
        r <==> sample@.len() > 0 && sample@.filter(
            |b: u8| b == '\n' as u8 || b == '\r' as u8 || b == '\t' as u8 || 0x20 <= b <= 0x7E,
        ).len() * 10 >= sample@.len() * 9,
{
    proof {
        lemma_printable_counted(sample@);
    }
    if sample.len() == 0 {
        return false;
    }
    let mut count: usize = 0;
    let mut i: usize = 0;
    while i < sample.len()
        invariant
            count <= i <= sample@.len(),
            count == printable_count(sample@.take(i as int)),
        decreases sample@.len() - i,
    {
        let b: u8 = sample[i];
        assert(sample@.take(i + 1).drop_last() =~= sample@.take(i as int));
        if b == 10 || b == 13 || b == 9 || (0x20 <= b && b <= 0x7E) {
            count = count + 1;
        }
        i = i + 1;
    }
    assert(sample@.take(i as int) =~= sample@);
    count as u128 * 100 >= sample.len() as u128 * 90
}

/// Collects everything that is written and encodes it at the end.
pub struct DictWriter {
    inner: Vec<u8>,
    buf: Vec<u8>,
}

impl DictWriter {
    /// What is already in the sink.
    pub closed spec fn sink(&self) -> Seq<u8> {
        self.inner@
    }

    /// What was written so far.
    pub closed spec fn written(&self) -> Seq<u8> {
        self.buf@
    }

    /// A writer that appends to `inner`.
    pub fn new(inner: Vec<u8>) -> (w: Self)
        ensures
            w.sink() == inner@,
            w.written() == Seq::<u8>::empty(),
    {
        DictWriter { inner, buf: Vec::new() }
    }

    /// Takes all of `data` and returns its length.
    pub fn write(&mut self, data: &[u8]) -> (n: usize)
        ensures
            n == data@.len(),
            final(self).sink() == old(self).sink(),
            final(self).written() == old(self).written() + data@,
    {
        write_bytes(&mut self.buf, data);
        data.len()
    }

    /// Encodes what was written and returns the sink.
    pub fn finish(self) -> (out: Vec<u8>)
        ensures
            out@ == self.sink() + encoded(self.written()),
    {
        let mut out = self.inner;
        let coded = encode(&self.buf);
        write_bytes(&mut out, &coded);
        out
    }
}

/// Decodes its whole input at once and gives the bytes out.
pub struct DictReader {
    decoded: Vec<u8>,
    pos: usize,
}

impl DictReader {
    #[verifier::type_invariant]
    spec fn inv(self) -> bool {
        self.pos <= self.decoded@.len()
    }

    /// What is still to be given out.
    pub closed spec fn pending(&self) -> Seq<u8> {
        self.decoded@.skip(self.pos as int)
    }

    pub fn new(inner: &[u8]) -> (res: Result<Self, Error>)
        ensures
            match decoded(inner@) {
                Ok(r) => res matches Ok(d) && d.pending() == r,
                Err(e) => res matches Err(f) && f == e,
            },
    {
        match decode(inner) {
            Ok(decoded) => {
                assert(decoded@.skip(0) =~= decoded@);
                Ok(DictReader { decoded, pos: 0 })
            },
            Err(e) => Err(e),
        }
    }

    /// Fills the front of `dst` with the next bytes and returns how many.
    pub fn read(&mut self, dst: &mut [u8]) -> (n: usize)
        ensures
            n <= old(dst)@.len(),
            n <= old(self).pending().len(),
            n == old(dst)@.len() || n == old(self).pending().len(),
            final(dst)@ == old(self).pending().take(n as int) + old(dst)@.skip(n as int),
            final(self).pending() == old(self).pending().skip(n as int),
    {
        proof {
            use_type_invariant(&*self);
        }
        let ghost left = self.pending();
        let src = vstd::slice::slice_subrange(
            self.decoded.as_slice(),
            self.pos,
            self.decoded.len(),
        );
        assert(src@ =~= left);
        let n: usize = copy_into(dst, src);
        self.pos = self.pos + n;
        assert(self.pending() =~= left.skip(n as int));
        n
    }
}

proof fn lemma_printable_counted(s: Seq<u8>)
    ensures
        printable_count(s) == s.filter(
            |b: u8| b == '\n' as u8 || b == '\r' as u8 || b == '\t' as u8 || 0x20 <= b <= 0x7E,
        ).len(),
    decreases s.len(),
{
    reveal(Seq::filter);
    if s.len() > 0 {
        lemma_printable_counted(s.drop_last());
    }
}

/// The words of the list, which are part of the format, and the token of each.
pub proof fn lemma_word_list(t: int)
    requires
        0 <= t < 128,
    ensures
        t == 0 ==> encoded(encode_utf8(" the"@)) == seq![0x80u8],
        t == 1 ==> encoded(encode_utf8(" of"@)) == seq![0x81u8],
        t == 2 ==> encoded(encode_utf8(" and"@)) == seq![0x82u8],
        t == 3 ==> encoded(encode_utf8(" to"@)) == seq![0x83u8],
        t == 4 ==> encoded(encode_utf8(" in"@)) == seq![0x84u8],
        t == 5 ==> encoded(encode_utf8(" is"@)) == seq![0x85u8],
        t == 6 ==> encoded(encode_utf8(" for"@)) == seq![0x86u8],
        t == 7 ==> encoded(encode_utf8(" on"@)) == seq![0x87u8],
        t == 8 ==> encoded(encode_utf8(" that"@)) == seq![0x88u8],
        t == 9 ==> encoded(encode_utf8(" by"@)) == seq![0x89u8],
        t == 10 ==> encoded(encode_utf8(" with"@)) == seq![0x8au8],
        t == 11 ==> encoded(encode_utf8(" this"@)) == seq![0x8bu8],
        t == 12 ==> encoded(encode_utf8(" at"@)) == seq![0x8cu8],
        t == 13 ==> encoded(encode_utf8(" from"@)) == seq![0x8du8],
        t == 14 ==> encoded(encode_utf8(" are"@)) == seq![0x8eu8],
        t == 15 ==> encoded(encode_utf8(" as"@)) == seq![0x8fu8],
        t == 16 ==> encoded(encode_utf8(" you"@)) == seq![0x90u8],
        t == 17 ==> encoded(encode_utf8(" it"@)) == seq![0x91u8],
        t == 18 ==> encoded(encode_utf8(" not"@)) == seq![0x92u8],
        t == 19 ==> encoded(encode_utf8(" or"@)) == seq![0x93u8],
        t == 20 ==> encoded(encode_utf8(" be"@)) == seq![0x94u8],
        t == 21 ==> encoded(encode_utf8(" have"@)) == seq![0x95u8],
        t == 22 ==> encoded(encode_utf8(" an"@)) == seq![0x96u8],
        t == 23 ==> encoded(encode_utf8(" was"@)) == seq![0x97u8],
        t == 24 ==> encoded(encode_utf8(" your"@)) == seq![0x98u8],
        t == 25 ==> encoded(encode_utf8(" all"@)) == seq![0x99u8],
        t == 26 ==> encoded(encode_utf8(" we"@)) == seq![0x9au8],
        t == 27 ==> encoded(encode_utf8(" can"@)) == seq![0x9bu8],
        t == 28 ==> encoded(encode_utf8(" will"@)) == seq![0x9cu8],
        t == 29 ==> encoded(encode_utf8(" more"@)) == seq![0x9du8],
        t == 30 ==> encoded(encode_utf8(" about"@)) == seq![0x9eu8],
        t == 31 ==> encoded(encode_utf8(" but"@)) == seq![0x9fu8],
        t == 32 ==> encoded(encode_utf8(" they"@)) == seq![0xa0u8],
        t == 33 ==> encoded(encode_utf8(" one"@)) == seq![0xa1u8],
        t == 34 ==> encoded(encode_utf8(" their"@)) == seq![0xa2u8],
        t == 35 ==> encoded(encode_utf8(" has"@)) == seq![0xa3u8],
        t == 36 ==> encoded(encode_utf8(" what"@)) == seq![0xa4u8],
        t == 37 ==> encoded(encode_utf8(" when"@)) == seq![0xa5u8],
        t == 38 ==> encoded(encode_utf8(" which"@)) == seq![0xa6u8],
        t == 39 ==> encoded(encode_utf8(" if"@)) == seq![0xa7u8],
        t == 40 ==> encoded(encode_utf8(" my"@)) == seq![0xa8u8],
        t == 41 ==> encoded(encode_utf8(" me"@)) == seq![0xa9u8],
        t == 42 ==> encoded(encode_utf8(" been"@)) == seq![0xaau8],
        t == 43 ==> encoded(encode_utf8(" like"@)) == seq![0xabu8],
        t == 44 ==> encoded(encode_utf8(" its"@)) == seq![0xacu8],
        t == 45 ==> encoded(encode_utf8(" some"@)) == seq![0xadu8],
        t == 46 ==> encoded(encode_utf8(" would"@)) == seq![0xaeu8],
        t == 47 ==> encoded(encode_utf8(" than"@)) == seq![0xafu8],
        t == 48 ==> encoded(encode_utf8(" these"@)) == seq![0xb0u8],
        t == 49 ==> encoded(encode_utf8(" could"@)) == seq![0xb1u8],
        t == 50 ==> encoded(encode_utf8(" them"@)) == seq![0xb2u8],
        t == 51 ==> encoded(encode_utf8(" our"@)) == seq![0xb3u8],
        t == 52 ==> encoded(encode_utf8(" out"@)) == seq![0xb4u8],
        t == 53 ==> encoded(encode_utf8(" also"@)) == seq![0xb5u8],
        t == 54 ==> encoded(encode_utf8(" had"@)) == seq![0xb6u8],
        t == 55 ==> encoded(encode_utf8(" new"@)) == seq![0xb7u8],
        t == 56 ==> encoded(encode_utf8(" just"@)) == seq![0xb8u8],
        t == 57 ==> encoded(encode_utf8(" only"@)) == seq![0xb9u8],
        t == 58 ==> encoded(encode_utf8(" so"@)) == seq![0xbau8],
        t == 59 ==> encoded(encode_utf8(" over"@)) == seq![0xbbu8],
        t == 60 ==> encoded(encode_utf8(" back"@)) == seq![0xbcu8],
        t == 61 ==> encoded(encode_utf8(" who"@)) == seq![0xbdu8],
        t == 62 ==> encoded(encode_utf8(" into"@)) == seq![0xbeu8],
        t == 63 ==> encoded(encode_utf8(" first"@)) == seq![0xbfu8],
        t == 64 ==> encoded(encode_utf8(" because"@)) == seq![0xc0u8],
        t == 65 ==> encoded(encode_utf8(" people"@)) == seq![0xc1u8],
        t == 66 ==> encoded(encode_utf8(" any"@)) == seq![0xc2u8],
        t == 67 ==> encoded(encode_utf8(" other"@)) == seq![0xc3u8],
        t == 68 ==> encoded(encode_utf8(" very"@)) == seq![0xc4u8],
        t == 69 ==> encoded(encode_utf8(" after"@)) == seq![0xc5u8],
        t == 70 ==> encoded(encode_utf8(" should"@)) == seq![0xc6u8],
        t == 71 ==> encoded(encode_utf8(" well"@)) == seq![0xc7u8],
        t == 72 ==> encoded(encode_utf8(" where"@)) == seq![0xc8u8],
        t == 73 ==> encoded(encode_utf8(" time"@)) == seq![0xc9u8],
        t == 74 ==> encoded(encode_utf8(" now"@)) == seq![0xcau8],
        t == 75 ==> encoded(encode_utf8(" how"@)) == seq![0xcbu8],
        t == 76 ==> encoded(encode_utf8(" before"@)) == seq![0xccu8],
        t == 77 ==> encoded(encode_utf8(" still"@)) == seq![0xcdu8],
        t == 78 ==> encoded(encode_utf8(" must"@)) == seq![0xceu8],
        t == 79 ==> encoded(encode_utf8(" such"@)) == seq![0xcfu8],
        t == 80 ==> encoded(encode_utf8(" said"@)) == seq![0xd0u8],
        t == 81 ==> encoded(encode_utf8(" two"@)) == seq![0xd1u8],
        t == 82 ==> encoded(encode_utf8(" made"@)) == seq![0xd2u8],
        t == 83 ==> encoded(encode_utf8(" much"@)) == seq![0xd3u8],
        t == 84 ==> encoded(encode_utf8(" then"@)) == seq![0xd4u8],
        t == 85 ==> encoded(encode_utf8(" see"@)) == seq![0xd5u8],
        t == 86 ==> encoded(encode_utf8(" use"@)) == seq![0xd6u8],
        t == 87 ==> encoded(encode_utf8(" work"@)) == seq![0xd7u8],
        t == 88 ==> encoded(encode_utf8(" many"@)) == seq![0xd8u8],
        t == 89 ==> encoded(encode_utf8(" good"@)) == seq![0xd9u8],
        t == 90 ==> encoded(encode_utf8(" each"@)) == seq![0xdau8],
        t == 91 ==> encoded(encode_utf8(" find"@)) == seq![0xdbu8],
        t == 92 ==> encoded(encode_utf8(" year"@)) == seq![0xdcu8],
        t == 93 ==> encoded(encode_utf8(" day"@)) == seq![0xddu8],
        t == 94 ==> encoded(encode_utf8(" make"@)) == seq![0xdeu8],
        t == 95 ==> encoded(encode_utf8(" come"@)) == seq![0xdfu8],
        t == 96 ==> encoded(encode_utf8(" most"@)) == seq![0xe0u8],
        t == 97 ==> encoded(encode_utf8(" look"@)) == seq![0xe1u8],
        t == 98 ==> encoded(encode_utf8(" used"@)) == seq![0xe2u8],
        t == 99 ==> encoded(encode_utf8(" here"@)) == seq![0xe3u8],
        t == 100 ==> encoded(encode_utf8(" down"@)) == seq![0xe4u8],
        t == 101 ==> encoded(encode_utf8(" take"@)) == seq![0xe5u8],
        t == 102 ==> encoded(encode_utf8(" there"@)) == seq![0xe6u8],
        t == 103 ==> encoded(encode_utf8(" those"@)) == seq![0xe7u8],
        t == 104 ==> encoded(encode_utf8(" even"@)) == seq![0xe8u8],
        t == 105 ==> encoded(encode_utf8(" last"@)) == seq![0xe9u8],
        t == 106 ==> encoded(encode_utf8(" life"@)) == seq![0xeau8],
        t == 107 ==> encoded(encode_utf8(" right"@)) == seq![0xebu8],
        t == 108 ==> encoded(encode_utf8(" think"@)) == seq![0xecu8],
        t == 109 ==> encoded(encode_utf8(" know"@)) == seq![0xedu8],
        t == 110 ==> encoded(encode_utf8(" get"@)) == seq![0xeeu8],
        t == 111 ==> encoded(encode_utf8(" under"@)) == seq![0xefu8],
        t == 112 ==> encoded(encode_utf8(" between"@)) == seq![0xf0u8],
        t == 113 ==> encoded(encode_utf8(" long"@)) == seq![0xf1u8],
        t == 114 ==> encoded(encode_utf8(" same"@)) == seq![0xf2u8],
        t == 115 ==> encoded(encode_utf8(" few"@)) == seq![0xf3u8],
        t == 116 ==> encoded(encode_utf8(" through"@)) == seq![0xf4u8],
        t == 117 ==> encoded(encode_utf8(" never"@)) == seq![0xf5u8],
        t == 118 ==> encoded(encode_utf8(" too"@)) == seq![0xf6u8],
        t == 119 ==> encoded(encode_utf8(" own"@)) == seq![0xf7u8],
        t == 120 ==> encoded(encode_utf8(" while"@)) == seq![0xf8u8],
        t == 121 ==> encoded(encode_utf8(" being"@)) == seq![0xf9u8],
        t == 122 ==> encoded(encode_utf8(" another"@)) == seq![0xfau8],
        t == 123 ==> encoded(encode_utf8(" part"@)) == seq![0xfbu8],
        t == 124 ==> encoded(encode_utf8(" does"@)) == seq![0xfcu8],
        t == 125 ==> encoded(encode_utf8(" without"@)) == seq![0xfdu8],
        t == 126 ==> encoded(encode_utf8(" world"@)) == seq![0xfeu8],
        t == 127 ==> encoded(encode_utf8(" every"@)) == seq![0xffu8],
{
    lemma_encoded_word(t);
}

/// A word becomes its token only as a whole word: exactly where no letter of ASCII stands
/// behind it.
pub proof fn lemma_whole_words_only(t: int, rest: Seq<u8>)
    requires
        0 <= t < 128,
    ensures
        rest.len() == 0 || !(65 <= rest[0] <= 90 || 97 <= rest[0] <= 122) ==> encoded(
            word_bytes(t) + rest,
        ) == seq![(0x80 + t) as u8] + encoded(rest),
        rest.len() > 0 && (65 <= rest[0] <= 90 || 97 <= rest[0] <= 122) ==> encoded(
            word_bytes(t) + rest,
        ).len() > 0 && encoded(word_bytes(t) + rest)[0] != 0x80 + t,
{
    let w = word_bytes(t);
    let s = w + rest;
    if rest.len() == 0 || !(65 <= rest[0] <= 90 || 97 <= rest[0] <= 122) {
        lemma_encoded_joined(w, rest);
        lemma_encoded_word(t);
    } else {
        lemma_word_bytes(t);
        lemma_longest_word(s, 0, 128);
        assert(!word_at(s, 0, t)) by {
            assert(s[w.len() as int] == rest[0]);
        }
        assert(s[0] == w[0]);
    }
}

} // verus!
