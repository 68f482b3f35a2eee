//! Word tokenizer: splits text at Unicode word boundaries and folds every
//! word to a lower-case form without combining diacritical marks.

use unicode_normalization::UnicodeNormalization;
use unicode_segmentation::UnicodeSegmentation;
use vstd::prelude::*;
use vstd::utf8::{decode_utf8, encode_utf8, encode_utf8_decode_utf8, valid_utf8};

verus! {

/// The canonical decomposition (NFD) of a text, as
/// `unicode_normalization` computes it.
pub uninterp spec fn nfd(text: Seq<char>) -> Seq<char>;

/// The lower-case mapping of a character, as `char::to_lowercase` yields
/// it.
pub uninterp spec fn lowercase(c: char) -> Seq<char>;

/// The words of a text with the byte offsets at which they start, as
/// `unicode_segmentation` finds them.
pub uninterp spec fn unicode_word_indices(text: Seq<char>) -> Seq<(usize, Seq<char>)>;

/// `String::clear` removes all contents.
pub assume_specification[ String::clear ](s: &mut String)
    ensures
        final(s)@ == Seq::<char>::empty(),
;

/// `String::push` appends one character.
pub assume_specification[ String::push ](s: &mut String, ch: char)
    ensures
        final(s)@ == old(s)@.push(ch),
;

/// Calls `UnicodeNormalization::nfd` of `unicode_normalization` on
/// `segment` and collects the characters it yields. The contract only
/// gives that sequence its name.
#[verifier::external_body]
fn decompose(segment: &str) -> (chars: Vec<char>)
    ensures
        chars@ == nfd(segment@),
{
    segment.nfd().collect()
}

/// Calls `char::to_lowercase` and collects the characters it yields. The
/// contract only gives that sequence its name.
#[verifier::external_body]
fn to_lowercase(c: char) -> (lower: Vec<char>)
    ensures
        lower@ == lowercase(c),
{
    c.to_lowercase().collect()
}

/// Calls `UnicodeSegmentation::unicode_word_indices` of
/// `unicode_segmentation` on `input` and collects what it yields. The
/// contract gives that sequence its name and adds what the iterator's
/// source shows of every item: the word is a slice of `input` that starts
/// at the offset given with it, so it ends inside `input`.
#[verifier::external_body]
fn word_indices<'a>(input: &'a str) -> (words: Vec<(usize, &'a str)>)
    ensures
        words@.map_values(|w: (usize, &str)| (w.0, w.1@)) == unicode_word_indices(input@),
        forall|i: int|
            0 <= i < words@.len() ==> (#[trigger] words@[i]).0 + encode_utf8(words@[i].1@).len()
                <= encode_utf8(input@).len(),
{
    input.unicode_word_indices().collect()
}

/// Calls `core::str::from_utf8`: the text that `bytes` encode, or nothing
/// if they are not valid UTF-8.
#[verifier::external_body]
fn from_utf8<'a>(bytes: &'a [u8]) -> (text: Option<&'a str>)
    ensures
        text is Some <==> valid_utf8(bytes@),
        text matches Some(t) ==> encode_utf8(t@) == bytes@,
{
    core::str::from_utf8(bytes).ok()
}

/// Whether `x` lies in the block of combining diacritical marks,
/// U+0300 to U+036F.
pub open spec fn spec_is_diacritic(x: char) -> bool {
    0x0300 <= x as u32 <= 0x036f
}

/// Tells whether `x` is a combining diacritical mark.
#[verifier::when_used_as_spec(spec_is_diacritic)]
pub fn is_diacritic(x: char) -> (b: bool)
    ensures
        b == spec_is_diacritic(x),
{
    '\u{0300}' <= x && x <= '\u{036f}'
}

/// `c` with the ASCII capitals mapped to their small letters.
pub open spec fn spec_ascii_lowercase(c: char) -> char {
    if 'A' <= c <= 'Z' {
        ((c as u8) + 32) as char
    } else {
        c
    }
}

/// Maps an ASCII capital to its small letter and leaves every other
/// character as it is.
#[verifier::when_used_as_spec(spec_ascii_lowercase)]
pub fn ascii_lowercase(c: char) -> (lower: char)
    ensures
        lower == spec_ascii_lowercase(c),
{
    if 'A' <= c && c <= 'Z' {
        ((c as u8) + 32) as char
    } else {
        c
    }
}

/// What one character contributes to a folded word: nothing if it is a
/// diacritic, its small letter if it is ASCII, and else its lower-case
/// mapping.
pub open spec fn fold_char(c: char) -> Seq<char> {
    if is_diacritic(c) {
        Seq::empty()
    } else if c as u32 <= 0x7f {
        seq![ascii_lowercase(c)]
    } else {
        lowercase(c)
    }
}

/// The characters `chars`, folded one by one.
pub open spec fn fold(chars: Seq<char>) -> Seq<char>
    decreases chars.len(),
{
    if chars.len() == 0 {
        Seq::empty()
    } else {
        fold(chars.drop_last()) + fold_char(chars.last())
    }
}

/// The normal form of a word: decomposed, then folded.
pub open spec fn normalized(segment: Seq<char>) -> Seq<char> {
    fold(nfd(segment))
}

/// Replaces the contents of `buf` with the folded form of `chars`.
pub fn fold_into(chars: &[char], buf: &mut String)
    ensures
        final(buf)@ == fold(chars@),
{
    buf.clear();
    let mut i: usize = 0;
    while i < chars.len()
        invariant
            i <= chars@.len(),
            buf@ == fold(chars@.subrange(0, i as int)),
        decreases chars@.len() - i,
    {
        let x = chars[i];
        let ghost before = buf@;
        proof {
            assert(chars@.subrange(0, i + 1).drop_last() =~= chars@.subrange(0, i as int));
        }
        if !is_diacritic(x) {
            if x as u32 <= 0x7f {
                buf.push(ascii_lowercase(x));
            } else {
                let lower = to_lowercase(x);
                let mut j: usize = 0;
                while j < lower.len()
                    invariant
                        j <= lower@.len(),
                        buf@ == before + lower@.subrange(0, j as int),
                    decreases lower@.len() - j,
                {
                    buf.push(lower[j]);
                    j = j + 1;
                    proof {
                        assert(buf@ =~= before + lower@.subrange(0, j as int));
                    }
                }
                proof {
                    assert(lower@.subrange(0, j as int) =~= lower@);
                }
            }
        }
        proof {
            assert(buf@ =~= before + fold_char(x));
        }
        i = i + 1;
    }
    proof {
        assert(chars@.subrange(0, i as int) =~= chars@);
    }
}

/// Replaces the contents of `buf` with the normal form of `segment`.
pub fn normalize_into(segment: &str, buf: &mut String)
    ensures
        final(buf)@ == normalized(segment@),
{
    let chars = decompose(segment);
    fold_into(chars.as_slice(), buf);
}

/// One word of a text: its normal form and the bytes of the text that it
/// spans, from `start` up to `end`.
pub struct Token {
    pub text: String,
    pub start: usize,
    pub end: usize,
}

/// The token for a word that starts at byte `start`.
pub open spec fn token_matches(token: Token, start: usize, word: Seq<char>) -> bool {
    &&& token.text@ == normalized(word)
    &&& token.start == start
    &&& token.end == start + encode_utf8(word).len()
}

/// Whether `tokens` are the tokens of `words`, one for each in order.
pub open spec fn tokens_match(tokens: Seq<Token>, words: Seq<(usize, Seq<char>)>) -> bool {
    &&& tokens.len() == words.len()
    &&& forall|i: int|
        0 <= i < tokens.len() ==> token_matches(#[trigger] tokens[i], words[i].0, words[i].1)
}

/// The tokens of `input`: one for every word, in the order of the text.
pub fn tokenize(input: &str) -> (tokens: Vec<Token>)
    ensures
        tokens_match(tokens@, unicode_word_indices(input@)),
{
    let words = word_indices(input);
    let ghost named = unicode_word_indices(input@);
    // No word ends behind the text, and the length of the text fits.
    let length: usize = input.as_bytes().len();
    let mut tokens: Vec<Token> = Vec::new();
    let mut i: usize = 0;
    while i < words.len()
        invariant
            i <= words@.len(),
            words@.map_values(|w: (usize, &str)| (w.0, w.1@)) == named,
            forall|k: int|
                0 <= k < words@.len() ==> (#[trigger] words@[k]).0 + encode_utf8(
                    words@[k].1@,
                ).len() <= encode_utf8(input@).len(),
            encode_utf8(input@).len() == length,
            tokens_match(tokens@, named.subrange(0, i as int)),
        decreases words@.len() - i,
    {
        let (start, segment) = words[i];
        proof {
            assert(named[i as int] == (start, segment@));
            assert(words@[i as int].0 + encode_utf8(words@[i as int].1@).len() <= encode_utf8(
                input@,
            ).len());
        }
        let mut text = String::new();
        normalize_into(segment, &mut text);
        let token = Token { text, start, end: start + segment.len() };
        let ghost before = tokens@;
        tokens.push(token);
        i = i + 1;
        proof {
            let prefix = named.subrange(0, i as int);
            assert forall|k: int| 0 <= k < tokens@.len() implies token_matches(
                #[trigger] tokens@[k],
                prefix[k].0,
                prefix[k].1,
            ) by {
                if k < before.len() {
                    assert(tokens@[k] == before[k]);
                    assert(named.subrange(0, i - 1)[k] == prefix[k]);
                }
            }
        }
    }
    proof {
        assert(named.subrange(0, i as int) =~= named);
    }
    tokens
}

/// The tokens of the text that `bytes` encode. Bytes that are not valid
/// UTF-8 have no tokens.
pub fn tokenize_bytes(bytes: &[u8]) -> (tokens: Vec<Token>)
    ensures
        valid_utf8(bytes@) ==> tokens_match(
            tokens@,
            unicode_word_indices(decode_utf8(bytes@)),
        ),
        !valid_utf8(bytes@) ==> tokens@.len() == 0,
{
    match from_utf8(bytes) {
        Some(input) => {
            proof {
                encode_utf8_decode_utf8(input@);
            }
            tokenize(input)
        },
        None => Vec::new(),
    }
}

} // verus!
