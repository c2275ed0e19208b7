//! Reading an assignment mask and a print mode from command-line words.
//!
//! One word gives a mask as a binary numeral, as `true` or `false`, or as a
//! decimal numeral. Several words give the variables one by one, the first
//! word bit 0: each is `true`, `1`, `false` or `0`. Letters count in either
//! case.

use crate::diagnostic::{decimal, push_decimal};
use crate::text::chars_of;
use vstd::arithmetic::power2::{lemma_pow2_unfold, pow2};
use vstd::bits::{lemma_usize_pow2_no_overflow, lemma_usize_shl_is_mul};
use vstd::layout::unsigned_int_max_values;
use vstd::prelude::*;
use vstd::string::*;

verus! {

/// How a syntax tree is shown.
#[derive(Debug, PartialEq, Eq, Clone, Copy, Structural)]
pub enum AstPrintMode {
    /// Level by level, operators as symbols.
    Default,
    /// With box characters, operators as symbols.
    Pretty,
    /// Level by level, operators by name.
    Extended,
    /// With box characters, operators by name.
    PrettyExtended,
}

/// The number of nodes above which the level-by-level picture is slow
/// enough to ask first.
pub const ASK_ABOVE: usize = 10;

impl AstPrintMode {
    /// Whether the mode draws with box characters.
    pub open spec fn is_pretty(self) -> bool {
        self == AstPrintMode::Pretty || self == AstPrintMode::PrettyExtended
    }

    /// Whether the mode writes operators by name.
    pub open spec fn is_extended(self) -> bool {
        self == AstPrintMode::Extended || self == AstPrintMode::PrettyExtended
    }

    /// The mode that the two flags choose.
    pub fn from(pretty: bool, extended: bool) -> (mode: Self)
        ensures
            mode.is_pretty() == pretty,
            mode.is_extended() == extended,
    {
        match (pretty, extended) {
            (true, true) => AstPrintMode::PrettyExtended,
            (true, false) => AstPrintMode::Pretty,
            (false, true) => AstPrintMode::Extended,
            (false, false) => AstPrintMode::Default,
        }
    }

    /// Whether to ask before a tree of `nodes` nodes is shown in this mode:
    /// a level-by-level picture of more than `ASK_ABOVE` nodes.
    pub fn asks_first(&self, nodes: usize) -> (ask: bool)
        ensures
            ask == (!self.is_pretty() && nodes > ASK_ABOVE),
    {
        (*self == AstPrintMode::Default || *self == AstPrintMode::Extended) && nodes > ASK_ABOVE
    }

    /// The mode after the answer to that question: with box characters if
    /// the answer is `y`, and unchanged otherwise.
    pub fn after_answer(self, answer: &str) -> (mode: Self)
        ensures
            mode.is_extended() == self.is_extended(),
            mode.is_pretty() == (self.is_pretty() || answer@ == seq!['y']),
    {
        if answer.unicode_len() == 1 && answer.get_char(0) == 'y' {
            assert(answer@ =~= seq!['y']);
            match self {
                AstPrintMode::Default => AstPrintMode::Pretty,
                AstPrintMode::Extended => AstPrintMode::PrettyExtended,
                mode => mode,
            }
        } else {
            self
        }
    }
}

/// The number of the character `c`, that of the small letter for a
/// capital letter of the alphabet.
pub open spec fn lower_code(c: char) -> int {
    if 'A' <= c && c <= 'Z' {
        c as int + 32
    } else {
        c as int
    }
}

/// Whether `s` is the word `word`, letters taken in either case.
pub open spec fn same_word(s: Seq<char>, word: Seq<char>) -> bool {
    &&& s.len() == word.len()
    &&& forall|i: int| 0 <= i < s.len() ==> lower_code(#[trigger] s[i]) == lower_code(word[i])
}

fn code(c: char) -> (n: u32)
    ensures
        n == lower_code(c),
{
    let n = c as u32;
    if 'A' <= c && c <= 'Z' {
        n + 32
    } else {
        n
    }
}

/// Whether `s` is the word `word`, letters taken in either case.
pub fn eq_ignore_case(s: &str, word: &str) -> (same: bool)
    ensures
        same == same_word(s@, word@),
{
    let left = chars_of(s);
    let right = chars_of(word);
    let len = left.len();
    if len != right.len() {
        return false;
    }
    let mut i: usize = 0;
    while i < len
        invariant
            i <= len,
            left@ == s@,
            right@ == word@,
            len == s@.len(),
            len == word@.len(),
            forall|k: int| 0 <= k < i ==> lower_code(#[trigger] s@[k]) == lower_code(word@[k]),
        decreases len - i,
    {
        if code(left[i]) != code(right[i]) {
            return false;
        }
        i += 1;
    }
    true
}

/// Whether `c` is a digit of a numeral to the base `radix`, for a base up
/// to ten.
pub open spec fn is_digit(c: char, radix: nat) -> bool {
    '0' <= c && (c as int) < ('0' as int) + radix
}

/// Whether every character of `s` is a digit to the base `radix`.
pub open spec fn all_digits(s: Seq<char>, radix: nat) -> bool {
    forall|i: int| 0 <= i < s.len() ==> is_digit(#[trigger] s[i], radix)
}

/// What `char::is_numeric` returns for `c`.
pub uninterp spec fn char_is_numeric(c: char) -> bool;

/// `char::is_numeric` depends on the character alone.
pub assume_specification[ char::is_numeric ](c: char) -> (numeric: bool)
    ensures
        numeric == char_is_numeric(c),
;

/// Whether every character of `s` is numeric.
pub open spec fn all_numeric(s: Seq<char>) -> bool {
    forall|i: int| 0 <= i < s.len() ==> char_is_numeric(#[trigger] s[i])
}

/// The number that the digits `s` write to the base `radix`.
pub open spec fn numeral_value(s: Seq<char>, radix: nat) -> nat
    decreases s.len(),
{
    if s.len() == 0 {
        0
    } else {
        (numeral_value(s.drop_last(), radix) * radix + ((s.last() as int) - ('0' as int))) as nat
    }
}

/// What reading the words gives.
pub enum Reading {
    /// The mask that the words write.
    Mask(nat),
    /// The words write no mask: the message says which word and why.
    Invalid(Seq<char>),
    /// The words write a mask that no unsigned machine integer holds, or
    /// the one word is empty.
    Unreadable,
}

/// Why words could not be read as a mask.
#[derive(Debug, PartialEq, Eq)]
pub enum StatesError {
    /// The words write no mask.
    Invalid(String),
    /// The words write a mask that no unsigned machine integer holds, or
    /// the one word is empty.
    Unreadable,
}

/// The message for a single word that writes no mask.
pub open spec fn single_message(word: Seq<char>) -> Seq<char> {
    "Invalid input: "@ + word
        + "\nEither must be a boolean (true|false|0|1) or a binary string (010101) or number (uint)"@
}

/// The message for word number `index` of several, which writes no value.
pub open spec fn word_message(word: Seq<char>, index: nat) -> Seq<char> {
    "Invalid input: "@ + word + " at index "@ + decimal(index)
        + "\nEither must be a boolean (true|false|0|1)"@
}

/// The mask that a numeral of the value `value` gives.
pub open spec fn numeral_reading(value: nat) -> Reading {
    if value <= usize::MAX {
        Reading::Mask(value)
    } else {
        Reading::Unreadable
    }
}

/// What a single word gives.
pub open spec fn single_reading(word: Seq<char>) -> Reading {
    if all_digits(word, 2) {
        if word.len() == 0 {
            Reading::Unreadable
        } else {
            numeral_reading(numeral_value(word, 2))
        }
    } else if same_word(word, "true"@) {
        Reading::Mask(1)
    } else if same_word(word, "false"@) {
        Reading::Mask(0)
    } else if all_numeric(word) {
        if all_digits(word, 10) {
            numeral_reading(numeral_value(word, 10))
        } else {
            Reading::Unreadable
        }
    } else {
        Reading::Invalid(single_message(word))
    }
}

/// The value that one of several words writes, if it writes one.
pub open spec fn word_value(word: Seq<char>) -> Option<bool> {
    if same_word(word, "true"@) || same_word(word, "1"@) {
        Some(true)
    } else if same_word(word, "false"@) || same_word(word, "0"@) {
        Some(false)
    } else {
        None
    }
}

/// What the words from number `index` on give, where the words before
/// them gave the mask `mask`. The first word that writes no value decides;
/// so does a true value whose bit no unsigned machine integer has.
pub open spec fn several_reading(words: Seq<Seq<char>>, index: nat, mask: nat) -> Reading
    decreases words.len() - index,
{
    if index >= words.len() {
        Reading::Mask(mask)
    } else {
        match word_value(words[index as int]) {
            None => Reading::Invalid(word_message(words[index as int], index)),
            Some(false) => several_reading(words, index + 1, mask),
            Some(true) => if index >= usize::BITS {
                Reading::Unreadable
            } else {
                several_reading(words, index + 1, mask + pow2(index))
            },
        }
    }
}

/// What the words give: one word a mask as a whole, several words the
/// values of the variables, the first word that of bit 0.
pub open spec fn states_reading(words: Seq<Seq<char>>) -> Reading {
    if words.len() == 1 {
        single_reading(words[0])
    } else {
        several_reading(words, 0, 0)
    }
}

/// A numeral is worth at least as much as any of its beginnings.
proof fn lemma_numeral_grows(s: Seq<char>, radix: nat, i: int)
    requires
        radix >= 1,
        all_digits(s, radix),
        0 <= i <= s.len(),
    ensures
        numeral_value(s.subrange(0, i), radix) <= numeral_value(s, radix),
    decreases s.len() - i,
{
    if i < s.len() {
        let shorter = s.subrange(0, i);
        let longer = s.subrange(0, i + 1);
        assert(longer.drop_last() =~= shorter);
        assert(is_digit(s[i], radix));
        assert(numeral_value(shorter, radix) * radix >= numeral_value(shorter, radix))
            by (nonlinear_arith)
            requires
                radix >= 1,
        ;
        lemma_numeral_grows(s, radix, i + 1);
    } else {
        assert(s.subrange(0, i) =~= s);
    }
}

/// Whether every character of `s` is a digit to the base `radix`.
fn only_digits(s: &Vec<char>, radix: u32) -> (all: bool)
    requires
        radix == 2 || radix == 10,
    ensures
        all == all_digits(s@, radix as nat),
{
    let len = s.len();
    let mut i: usize = 0;
    while i < len
        invariant
            i <= len,
            len == s@.len(),
            radix == 2 || radix == 10,
            forall|k: int| 0 <= k < i ==> is_digit(#[trigger] s@[k], radix as nat),
        decreases len - i,
    {
        let c = s[i];
        let last = if radix == 2 {
            '1'
        } else {
            '9'
        };
        if !('0' <= c && c <= last) {
            return false;
        }
        i += 1;
    }
    true
}

/// Whether every character of `s` is numeric.
fn only_numeric(s: &Vec<char>) -> (all: bool)
    ensures
        all == all_numeric(s@),
{
    let len = s.len();
    let mut i: usize = 0;
    while i < len
        invariant
            i <= len,
            len == s@.len(),
            forall|k: int| 0 <= k < i ==> char_is_numeric(#[trigger] s@[k]),
        decreases len - i,
    {
        if !s[i].is_numeric() {
            return false;
        }
        i += 1;
    }
    true
}

/// Reads the digits `s` as a numeral to the base `radix`.
fn read_numeral(s: &Vec<char>, radix: u32) -> (value: Option<usize>)
    requires
        2 <= radix <= 10,
        all_digits(s@, radix as nat),
    ensures
        match value {
            Some(v) => numeral_reading(numeral_value(s@, radix as nat)) == Reading::Mask(v as nat),
            None => numeral_reading(numeral_value(s@, radix as nat)) == Reading::Unreadable,
        },
{
    let len = s.len();
    let mut value: usize = 0;
    let mut i: usize = 0;
    while i < len
        invariant
            i <= len,
            len == s@.len(),
            2 <= radix <= 10,
            all_digits(s@, radix as nat),
            value == numeral_value(s@.subrange(0, i as int), radix as nat),
        decreases len - i,
    {
        let c = s[i];
        let digit = ((c as u32) - ('0' as u32)) as usize;
        proof {
            let shorter = s@.subrange(0, i as int);
            let longer = s@.subrange(0, i + 1);
            assert(longer.drop_last() =~= shorter);
            assert(is_digit(s@[i as int], radix as nat));
            lemma_numeral_grows(s@, radix as nat, i + 1);
        }
        let scaled = match value.checked_mul(radix as usize) {
            Some(scaled) => scaled,
            None => {
                return None;
            },
        };
        value = match scaled.checked_add(digit) {
            Some(next) => next,
            None => {
                return None;
            },
        };
        i += 1;
    }
    proof {
        assert(s@.subrange(0, i as int) =~= s@);
    }
    Some(value)
}

/// The texts of a list of words.
pub open spec fn words_view(words: Seq<String>) -> Seq<Seq<char>> {
    words.map_values(|word: String| word@)
}

/// Whether what was read is what the words give.
pub open spec fn read_as(res: Result<usize, StatesError>, reading: Reading) -> bool {
    match res {
        Ok(mask) => reading == Reading::Mask(mask as nat),
        Err(StatesError::Invalid(msg)) => reading == Reading::Invalid(msg@),
        Err(StatesError::Unreadable) => reading == Reading::Unreadable,
    }
}

/// Reads a single word as a mask.
fn parse_single_state(word: &str) -> (res: Result<usize, StatesError>)
    ensures
        read_as(res, single_reading(word@)),
{
    let chars = chars_of(word);
    if only_digits(&chars, 2) {
        if chars.len() == 0 {
            return Err(StatesError::Unreadable);
        }
        match read_numeral(&chars, 2) {
            Some(mask) => Ok(mask),
            None => Err(StatesError::Unreadable),
        }
    } else if eq_ignore_case(word, "true") {
        Ok(1)
    } else if eq_ignore_case(word, "false") {
        Ok(0)
    } else if only_numeric(&chars) {
        if only_digits(&chars, 10) {
            match read_numeral(&chars, 10) {
                Some(mask) => Ok(mask),
                None => Err(StatesError::Unreadable),
            }
        } else {
            Err(StatesError::Unreadable)
        }
    } else {
        let mut msg = String::from_str("Invalid input: ");
        msg.append(word);
        msg.append(
            "\nEither must be a boolean (true|false|0|1) or a binary string (010101) or number (uint)",
        );
        Err(StatesError::Invalid(msg))
    }
}

/// Reads the words as an assignment mask.
///
/// One word is a binary numeral, `true`, `false` or a decimal numeral.
/// Several words, or none, are the values of the variables, the first word
/// that of bit 0.
pub fn parse_ident_states(input: &Vec<String>) -> (res: Result<usize, StatesError>)
    ensures
        read_as(res, states_reading(words_view(input@))),
{
    let ghost words = words_view(input@);
    if input.len() == 1 {
        assert(words[0] == input@[0]@);
        return parse_single_state(input[0].as_str());
    }
    let mut mask: usize = 0;
    let mut i: usize = 0;
    proof {
        vstd::arithmetic::power2::lemma2_to64();
    }
    while i < input.len()
        invariant
            i <= input.len(),
            input.len() != 1,
            words == words_view(input@),
            mask < pow2(i as nat) || i >= usize::BITS,
            several_reading(words, 0, 0) == several_reading(words, i as nat, mask as nat),
        decreases input.len() - i,
    {
        assert(words[i as int] == input@[i as int]@);
        let word = input[i].as_str();
        if eq_ignore_case(word, "true") || eq_ignore_case(word, "1") {
            if i >= usize::BITS as usize {
                return Err(StatesError::Unreadable);
            }
            proof {
                lemma_usize_pow2_no_overflow(i as nat);
                lemma_usize_shl_is_mul(1, i);
                lemma_pow2_unfold((i + 1) as nat);
                unsigned_int_max_values();
                if i + 1 < usize::BITS {
                    lemma_usize_pow2_no_overflow((i + 1) as nat);
                } else {
                    assert(pow2((i + 1) as nat) == usize::MAX + 1);
                }
            }
            mask = mask + (1usize << i);
        } else if eq_ignore_case(word, "false") || eq_ignore_case(word, "0") {
            proof {
                lemma_pow2_unfold((i + 1) as nat);
            }
        } else {
            let mut msg = String::from_str("Invalid input: ");
            msg.append(word);
            msg.append(" at index ");
            push_decimal(&mut msg, i);
            msg.append("\nEither must be a boolean (true|false|0|1)");
            return Err(StatesError::Invalid(msg));
        }
        i += 1;
    }
    Ok(mask)
}

} // verus!
