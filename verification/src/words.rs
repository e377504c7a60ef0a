//! Text as words, the runs of bytes between white space, and the words
//! read as numbers: a list of unsigned numbers, a row of signed numbers,
//! and a pair of signed numbers at the start of a line.
use vstd::prelude::*;
use vstd::string::StringSliceAdditionalSpecFns;
use vstd::string::StringExecFns;
use crate::text::{next_space, next_token, parse_i32, parse_unsigned, reads_signed, reads_unsigned, trim_lo};

verus! {

/// The words of `s[from..to]` in order, each as the place where it starts
/// and the place after its last byte.
pub open spec fn words(s: Seq<u8>, from: int, to: int) -> Seq<(int, int)>
    decreases to - from,
{
    let a = trim_lo(s, from, to);
    let b = next_space(s, a, to);
    if from <= a < b <= to {
        seq![(a, b)] + words(s, b, to)
    } else {
        Seq::empty()
    }
}

/// Every word lies within `s[from..to]` and holds at least one byte.
pub proof fn lemma_words_within(s: Seq<u8>, from: int, to: int, i: int)
    requires
        0 <= i < words(s, from, to).len(),
    ensures
        from <= words(s, from, to)[i].0 < words(s, from, to)[i].1 <= to,
    decreases to - from,
{
    let a = trim_lo(s, from, to);
    let b = next_space(s, a, to);
    if i > 0 {
        lemma_words_within(s, b, to, i - 1);
    }
}

/// A word ends before a later one starts.
pub proof fn lemma_words_rise(s: Seq<u8>, from: int, to: int, i: int, j: int)
    requires
        0 <= i < j < words(s, from, to).len(),
    ensures
        words(s, from, to)[i].1 <= words(s, from, to)[j].0,
    decreases to - from,
{
    let a = trim_lo(s, from, to);
    let b = next_space(s, a, to);
    if i == 0 {
        lemma_words_within(s, b, to, j - 1);
    } else {
        lemma_words_rise(s, b, to, i - 1, j - 1);
    }
}

/// What a word reads as, as a number of 32 bits with a sign.
pub open spec fn reads_i32(s: Seq<u8>, word: (int, int)) -> Option<int> {
    reads_signed(s, word.0, word.1, -0x8000_0000, 0x7FFF_FFFF)
}

/// What a word reads as, as a number of 64 bits without a sign.
pub open spec fn reads_u64(s: Seq<u8>, word: (int, int)) -> Option<nat> {
    reads_unsigned(s, word.0, word.1, 0xFFFF_FFFF_FFFF_FFFF)
}

/// Finds the words of `s[from..to]`.
pub fn word_spans(s: &[u8], from: usize, to: usize) -> (spans: Vec<(usize, usize)>)
    requires
        from <= to <= s.len(),
    ensures
        spans.len() == words(s@, from as int, to as int).len(),
        forall|i: int|
            0 <= i < spans.len() ==> (#[trigger] spans[i]).0 == words(s@, from as int, to as int)[i].0 && spans[i].1
                == words(s@, from as int, to as int)[i].1 && from <= spans[i].0 < spans[i].1 <= to,
{
    let mut spans: Vec<(usize, usize)> = Vec::new();
    let mut pos: usize = from;
    let mut going: bool = true;
    let ghost all = words(s@, from as int, to as int);
    let ghost mut acc: Seq<(int, int)> = Seq::empty();
    proof {
        assert(acc + all =~= all);
    }
    while going
        invariant
            from <= pos <= to <= s.len(),
            all == words(s@, from as int, to as int),
            going ==> all == acc + words(s@, pos as int, to as int),
            !going ==> all == acc,
            spans.len() == acc.len(),
            forall|i: int|
                0 <= i < spans.len() ==> (#[trigger] spans[i]).0 == acc[i].0 && spans[i].1 == acc[i].1 && from
                    <= spans[i].0 < spans[i].1 <= to,
        decreases to - pos + (if going { 1int } else { 0int }),
    {
        match next_token(s, pos, to) {
            None => {
                proof {
                    assert(words(s@, pos as int, to as int) =~= Seq::empty());
                    assert(acc + Seq::<(int, int)>::empty() =~= acc);
                }
                going = false;
            },
            Some((a, b)) => {
                let ghost before = acc;
                spans.push((a, b));
                proof {
                    acc = acc.push((a as int, b as int));
                    let rest = words(s@, b as int, to as int);
                    assert(words(s@, pos as int, to as int) == seq![(a as int, b as int)] + rest);
                    assert(before + (seq![(a as int, b as int)] + rest) =~= acc + rest);
                }
                pos = b;
            },
        }
    }
    spans
}

/// Reads every word of the text as a number of 64 bits without a sign;
/// `None` where some word is no such number.
pub fn parse_numbers(input: &str) -> (res: Option<Vec<u64>>)
    ensures
        match res {
            Some(v) => v.len() == words(input.spec_bytes(), 0, input.spec_bytes().len() as int).len() && forall|
                i: int,
            |
                0 <= i < v.len() ==> reads_u64(
                    input.spec_bytes(),
                    words(input.spec_bytes(), 0, input.spec_bytes().len() as int)[i],
                ) == Some(#[trigger] v[i] as nat),
            None => exists|i: int|
                0 <= i < words(input.spec_bytes(), 0, input.spec_bytes().len() as int).len() && reads_u64(
                    input.spec_bytes(),
                    #[trigger] words(input.spec_bytes(), 0, input.spec_bytes().len() as int)[i],
                ) is None,
        },
{
    let s = input.as_bytes();
    let spans = word_spans(s, 0, s.len());
    let ghost all = words(s@, 0, s.len() as int);
    let mut out: Vec<u64> = Vec::new();
    let mut k: usize = 0;
    while k < spans.len()
        invariant
            k <= spans.len(),
            s@ == input.spec_bytes(),
            all == words(s@, 0, s.len() as int),
            spans.len() == all.len(),
            forall|i: int|
                0 <= i < spans.len() ==> (#[trigger] spans[i]).0 == all[i].0 && spans[i].1 == all[i].1
                    && spans[i].0 < spans[i].1 <= s.len(),
            out.len() == k,
            forall|i: int| 0 <= i < k ==> reads_u64(s@, all[i]) == Some(#[trigger] out[i] as nat),
        decreases spans.len() - k,
    {
        let (a, b) = spans[k];
        match parse_unsigned(s, a, b, 0xFFFF_FFFF_FFFF_FFFF) {
            Some(v) => {
                out.push(v);
            },
            None => {
                proof {
                    assert(reads_u64(s@, all[k as int]) is None);
                }
                return None;
            },
        }
        k = k + 1;
    }
    Some(out)
}

/// Reads every word of the line as a number of 32 bits with a sign;
/// `None` where some word is no such number.
pub fn parse_number_row(line: &str) -> (res: Option<Vec<i32>>)
    ensures
        match res {
            Some(v) => v.len() == words(line.spec_bytes(), 0, line.spec_bytes().len() as int).len() && forall|
                i: int,
            |
                0 <= i < v.len() ==> reads_i32(
                    line.spec_bytes(),
                    words(line.spec_bytes(), 0, line.spec_bytes().len() as int)[i],
                ) == Some(#[trigger] v[i] as int),
            None => exists|i: int|
                0 <= i < words(line.spec_bytes(), 0, line.spec_bytes().len() as int).len() && reads_i32(
                    line.spec_bytes(),
                    #[trigger] words(line.spec_bytes(), 0, line.spec_bytes().len() as int)[i],
                ) is None,
        },
{
    let s = line.as_bytes();
    let spans = word_spans(s, 0, s.len());
    let ghost all = words(s@, 0, s.len() as int);
    let mut out: Vec<i32> = Vec::new();
    let mut k: usize = 0;
    while k < spans.len()
        invariant
            k <= spans.len(),
            s@ == line.spec_bytes(),
            all == words(s@, 0, s.len() as int),
            spans.len() == all.len(),
            forall|i: int|
                0 <= i < spans.len() ==> (#[trigger] spans[i]).0 == all[i].0 && spans[i].1 == all[i].1
                    && spans[i].0 < spans[i].1 <= s.len(),
            out.len() == k,
            forall|i: int| 0 <= i < k ==> reads_i32(s@, all[i]) == Some(#[trigger] out[i] as int),
        decreases spans.len() - k,
    {
        let (a, b) = spans[k];
        match parse_i32(s, a, b) {
            Some(v) => {
                out.push(v);
            },
            None => {
                proof {
                    assert(reads_i32(s@, all[k as int]) is None);
                }
                return None;
            },
        }
        k = k + 1;
    }
    Some(out)
}

/// Why a line holds no pair of numbers.
#[derive(Debug, PartialEq, Eq, Clone, Copy)]
pub enum PairFault {
    /// The line has no word.
    NoFirst,
    /// The first word is no number.
    FirstNotInteger,
    /// The line has one word only.
    NoSecond,
    /// The second word is no number.
    SecondNotInteger,
}

impl PairFault {
    /// The fault in words.
    pub fn message(&self) -> (text: String)
        ensures
            text@ == (match *self {
                PairFault::NoFirst => "No first number"@,
                PairFault::FirstNotInteger => "First number is not an integer"@,
                PairFault::NoSecond => "No second number"@,
                PairFault::SecondNotInteger => "Second number is not an integer"@,
            }),
    {
        match self {
            PairFault::NoFirst => String::from_str("No first number"),
            PairFault::FirstNotInteger => String::from_str("First number is not an integer"),
            PairFault::NoSecond => String::from_str("No second number"),
            PairFault::SecondNotInteger => String::from_str("Second number is not an integer"),
        }
    }
}

/// What the first two words of a line read as: a pair of numbers, or the
/// first fault met.
pub open spec fn pair_view(s: Seq<u8>) -> Result<(int, int), PairFault> {
    let all = words(s, 0, s.len() as int);
    if all.len() == 0 {
        Err(PairFault::NoFirst)
    } else if reads_i32(s, all[0]) is None {
        Err(PairFault::FirstNotInteger)
    } else if all.len() == 1 {
        Err(PairFault::NoSecond)
    } else if reads_i32(s, all[1]) is None {
        Err(PairFault::SecondNotInteger)
    } else {
        Ok((reads_i32(s, all[0])->0, reads_i32(s, all[1])->0))
    }
}

/// Reads the first two words of a line as a pair of numbers of 32 bits
/// with a sign; what follows them is not read.
pub fn parse_int_pair(line: &str) -> (res: Result<(i32, i32), PairFault>)
    ensures
        match res {
            Ok((a, b)) => pair_view(line.spec_bytes()) == Ok::<(int, int), PairFault>((a as int, b as int)),
            Err(fault) => pair_view(line.spec_bytes()) == Err::<(int, int), PairFault>(fault),
        },
{
    let s = line.as_bytes();
    let spans = word_spans(s, 0, s.len());
    if spans.len() == 0 {
        return Err(PairFault::NoFirst);
    }
    let (a0, b0) = spans[0];
    let first: i32 = match parse_i32(s, a0, b0) {
        Some(v) => v,
        None => {
            return Err(PairFault::FirstNotInteger);
        },
    };
    if spans.len() == 1 {
        return Err(PairFault::NoSecond);
    }
    let (a1, b1) = spans[1];
    let second: i32 = match parse_i32(s, a1, b1) {
        Some(v) => v,
        None => {
            return Err(PairFault::SecondNotInteger);
        },
    };
    Ok((first, second))
}

} // verus!
