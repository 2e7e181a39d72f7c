//! The tokens of contest input: the words between the white space of the lines read so far,
//! handed out one by one in the order in which they stand.

use crate::shared::push_char;
use vstd::prelude::*;

verus! {

/// Whether `c` is white space, as `char::is_whitespace` tells it: whether the character has
/// the property `White_Space` of the Unicode standard.
pub uninterp spec fn white_space(c: char) -> bool;

/// `char::is_whitespace`: whether the character is white space.
#[verifier::external_body]
fn is_space(c: char) -> (r: bool)
    ensures
        r == white_space(c),
{
    c.is_whitespace()
}

/// `begun`, where it holds anything, as a list of one token.
pub open spec fn closed_token(begun: Seq<char>) -> Seq<Seq<char>> {
    if begun.len() > 0 {
        seq![begun]
    } else {
        Seq::empty()
    }
}

/// The tokens of `text` read after the characters `begun` of a token: a token ends before
/// white space and at the end of the text, and white space belongs to no token.
pub open spec fn tokens_from(text: Seq<char>, begun: Seq<char>) -> Seq<Seq<char>>
    decreases text.len(),
{
    if text.len() == 0 {
        closed_token(begun)
    } else if white_space(text[0]) {
        closed_token(begun) + tokens_from(text.skip(1), Seq::empty())
    } else {
        tokens_from(text.skip(1), begun.push(text[0]))
    }
}

/// The tokens of `text`: its longest stretches without white space, in order.
pub open spec fn tokens_of(text: Seq<char>) -> Seq<Seq<char>> {
    tokens_from(text, Seq::empty())
}

/// Whether `token` is a word: it holds a character, and none that is white space.
pub open spec fn is_word(token: Seq<char>) -> bool {
    token.len() > 0 && forall|i: int| 0 <= i < token.len() ==> !white_space(#[trigger] token[i])
}

/// Every token read after the beginning of a word is a word.
pub proof fn lemma_tokens_from_are_words(text: Seq<char>, begun: Seq<char>, k: int)
    requires
        forall|i: int| 0 <= i < begun.len() ==> !white_space(#[trigger] begun[i]),
        0 <= k < tokens_from(text, begun).len(),
    ensures
        is_word(tokens_from(text, begun)[k]),
    decreases text.len(),
{
    if text.len() > 0 {
        if white_space(text[0]) {
            if k >= closed_token(begun).len() {
                lemma_tokens_from_are_words(
                    text.skip(1),
                    Seq::empty(),
                    k - closed_token(begun).len(),
                );
            }
        } else {
            lemma_tokens_from_are_words(text.skip(1), begun.push(text[0]), k);
        }
    }
}

/// Every token of a text is a word.
pub proof fn lemma_tokens_are_words(text: Seq<char>, k: int)
    requires
        0 <= k < tokens_of(text).len(),
    ensures
        is_word(tokens_of(text)[k]),
{
    lemma_tokens_from_are_words(text, Seq::empty(), k);
}

/// The value of the digit `c`, and `None` for a character that is no digit from 0 to 9.
pub open spec fn digit_value(c: char) -> Option<int> {
    if c == '0' {
        Some(0)
    } else if c == '1' {
        Some(1)
    } else if c == '2' {
        Some(2)
    } else if c == '3' {
        Some(3)
    } else if c == '4' {
        Some(4)
    } else if c == '5' {
        Some(5)
    } else if c == '6' {
        Some(6)
    } else if c == '7' {
        Some(7)
    } else if c == '8' {
        Some(8)
    } else if c == '9' {
        Some(9)
    } else {
        None
    }
}

/// Whether `c` is one of the digits from 0 to 9.
pub open spec fn is_digit(c: char) -> bool {
    digit_value(c) is Some
}

/// Whether `text` is a number in decimal: one digit or more and nothing else.
pub open spec fn all_digits(text: Seq<char>) -> bool {
    text.len() >= 1 && forall|i: int| 0 <= i < text.len() ==> is_digit(#[trigger] text[i])
}

/// The number that the digits `text` stand for.
pub open spec fn digits_value(text: Seq<char>) -> int
    decreases text.len(),
{
    if text.len() == 0 {
        0
    } else {
        digits_value(text.drop_last()) * 10 + digit_value(text.last()).unwrap()
    }
}

/// `text` without a plus sign in front.
pub open spec fn unsigned_part(text: Seq<char>) -> Seq<char> {
    if text.len() > 0 && text[0] == '+' {
        text.skip(1)
    } else {
        text
    }
}

/// The natural number up to `high` that `text` stands for: digits, with a plus sign in
/// front of them or none; `None` for any other text and for a greater number.
pub open spec fn unsigned_within(text: Seq<char>, high: int) -> Option<int> {
    let digits = unsigned_part(text);
    if all_digits(digits) && digits_value(digits) <= high {
        Some(digits_value(digits))
    } else {
        None
    }
}

/// The whole number from `low` to `high` that `text` stands for: digits, with a plus or a
/// minus sign in front of them or none; `None` for any other text and for a number beyond.
pub open spec fn signed_within(text: Seq<char>, low: int, high: int) -> Option<int> {
    if text.len() > 0 && text[0] == '-' {
        let digits = text.skip(1);
        if all_digits(digits) && -digits_value(digits) >= low {
            Some(-digits_value(digits))
        } else {
            None
        }
    } else {
        unsigned_within(text, high)
    }
}

/// The natural number that `text` stands for, if it is a machine integer.
pub open spec fn unsigned_of(text: Seq<char>) -> Option<usize> {
    match unsigned_within(text, usize::MAX as int) {
        Some(v) => Some(v as usize),
        None => None,
    }
}

/// The whole number that `text` stands for, if it is a machine integer.
pub open spec fn signed_of(text: Seq<char>) -> Option<isize> {
    match signed_within(text, isize::MIN as int, isize::MAX as int) {
        Some(v) => Some(v as isize),
        None => None,
    }
}

/// Digits stand for a natural number.
proof fn lemma_digits_natural(text: Seq<char>)
    requires
        forall|i: int| 0 <= i < text.len() ==> is_digit(#[trigger] text[i]),
    ensures
        0 <= digits_value(text),
    decreases text.len(),
{
    if text.len() > 0 {
        lemma_digits_natural(text.drop_last());
        assert(is_digit(text[text.len() - 1]));
    }
}

/// Digits stand for no less than the first of them do.
proof fn lemma_digits_grow(text: Seq<char>, k: int)
    requires
        0 <= k <= text.len(),
        forall|i: int| 0 <= i < text.len() ==> is_digit(#[trigger] text[i]),
    ensures
        digits_value(text.take(k)) <= digits_value(text),
    decreases text.len() - k,
{
    if k < text.len() {
        lemma_digits_grow(text, k + 1);
        assert(text.take(k + 1).drop_last() =~= text.take(k));
        lemma_digits_natural(text.take(k));
        assert(is_digit(text[k]));
    } else {
        assert(text.take(k) =~= text);
    }
}

fn digit_of(c: char) -> (d: Option<u128>)
    ensures
        match d {
            Some(v) => digit_value(c) == Some(v as int),
            None => digit_value(c) is None,
        },
{
    if c == '0' {
        Some(0)
    } else if c == '1' {
        Some(1)
    } else if c == '2' {
        Some(2)
    } else if c == '3' {
        Some(3)
    } else if c == '4' {
        Some(4)
    } else if c == '5' {
        Some(5)
    } else if c == '6' {
        Some(6)
    } else if c == '7' {
        Some(7)
    } else if c == '8' {
        Some(8)
    } else if c == '9' {
        Some(9)
    } else {
        None
    }
}

/// The number that the characters of `text` from `start` on stand for, if they are digits
/// and the number is at most `bound`.
fn magnitude(text: &Vec<char>, start: usize, bound: u128) -> (value: Option<u128>)
    requires
        start <= text@.len(),
    ensures
        match value {
            Some(v) => all_digits(text@.skip(start as int)) && v == digits_value(
                text@.skip(start as int),
            ) && v <= bound,
            None => !(all_digits(text@.skip(start as int)) && digits_value(
                text@.skip(start as int),
            ) <= bound),
        },
{
    let ghost digits = text@.skip(start as int);
    if start >= text.len() {
        return None;
    }
    let mut acc: u128 = 0;
    let mut i: usize = start;
    proof {
        assert(digits.take(0) =~= Seq::<char>::empty());
    }
    while i < text.len()
        invariant
            start <= i <= text@.len(),
            start < text@.len(),
            digits == text@.skip(start as int),
            forall|k: int| 0 <= k < i - start ==> is_digit(#[trigger] digits[k]),
            acc == digits_value(digits.take(i - start)),
            acc <= bound,
        decreases text@.len() - i,
    {
        let c = text[i];
        proof {
            assert(digits[i - start] == c);
            assert(digits.take(i - start + 1).drop_last() =~= digits.take(i - start));
        }
        match digit_of(c) {
            None => {
                return None;
            },
            Some(d) => {
                if bound < d || acc > (bound - d) / 10 {
                    proof {
                        if all_digits(digits) {
                            lemma_digits_grow(digits, i - start + 1);
                        }
                    }
                    return None;
                }
                acc = acc * 10 + d;
            },
        }
        i += 1;
    }
    proof {
        assert(digits.take(i - start) =~= digits);
    }
    Some(acc)
}

/// Reads `text` as a natural number up to `high`.
pub fn parse_unsigned_within(text: &Vec<char>, high: u128) -> (value: Option<u128>)
    ensures
        match value {
            Some(v) => unsigned_within(text@, high as int) == Some(v as int),
            None => unsigned_within(text@, high as int) is None,
        },
{
    let start: usize = if text.len() > 0 && text[0] == '+' {
        1
    } else {
        0
    };
    proof {
        assert(text@.skip(0) =~= text@);
    }
    magnitude(text, start, high)
}

/// Reads `text` as a whole number from the opposite of `depth` up to `high`.
pub fn parse_signed_within(text: &Vec<char>, depth: u128, high: u128) -> (value: Option<i128>)
    requires
        depth <= 0x8000_0000_0000_0000_0000_0000_0000_0000,
        high <= i128::MAX,
    ensures
        match value {
            Some(v) => signed_within(text@, -(depth as int), high as int) == Some(v as int) && -(
            depth as int) <= v <= high,
            None => signed_within(text@, -(depth as int), high as int) is None,
        },
{
    if text.len() > 0 && text[0] == '-' {
        match magnitude(text, 1, depth) {
            Some(v) => {
                if v == 0x8000_0000_0000_0000_0000_0000_0000_0000 {
                    Some(i128::MIN)
                } else {
                    Some(-(v as i128))
                }
            },
            None => None,
        }
    } else {
        match parse_unsigned_within(text, high) {
            Some(v) => Some(v as i128),
            None => None,
        }
    }
}

/// Reads `text` as a natural number.
pub fn parse_unsigned(text: &Vec<char>) -> (value: Option<usize>)
    ensures
        value == unsigned_of(text@),
{
    match parse_unsigned_within(text, usize::MAX as u128) {
        Some(v) => Some(v as usize),
        None => None,
    }
}

/// Reads `text` as a whole number.
pub fn parse_signed(text: &Vec<char>) -> (value: Option<isize>)
    ensures
        value == signed_of(text@),
{
    match parse_signed_within(text, isize::MAX as u128 + 1, isize::MAX as u128) {
        Some(v) => Some(v as isize),
        None => None,
    }
}

/// The tokens that were read and not yet taken.
pub struct Input {
    buffer: Vec<Vec<char>>,
}

/// The tokens that `kept` holds, the last of them first.
pub open spec fn reversed_views(kept: Seq<Vec<char>>) -> Seq<Seq<char>> {
    Seq::new(kept.len(), |i: int| kept[kept.len() - 1 - i]@)
}

/// The tokens that `found` holds, in order.
pub open spec fn views(found: Seq<Vec<char>>) -> Seq<Seq<char>> {
    Seq::new(found.len(), |i: int| found[i]@)
}

impl Input {
    /// The tokens that were read and not yet taken, the next one first.
    pub closed spec fn pending(&self) -> Seq<Seq<char>> {
        reversed_views(self.buffer@)
    }

    /// Makes an input of which nothing was read yet.
    pub fn new() -> (input: Input)
        ensures
            input.pending().len() == 0,
    {
        Input { buffer: Vec::new() }
    }

    /// Tells whether a token is pending.
    pub fn has_token(&self) -> (r: bool)
        ensures
            r == (self.pending().len() > 0),
    {
        self.buffer.len() > 0
    }

    /// Reads a line: its tokens come behind those that are pending.
    pub fn feed(&mut self, line: &Vec<char>)
        ensures
            final(self).pending() == old(self).pending() + tokens_of(line@),
    {
        let mut found: Vec<Vec<char>> = Vec::new();
        let mut current: Vec<char> = Vec::new();
        let mut i: usize = 0;
        proof {
            assert(line@.skip(0) =~= line@);
            assert(views(found@) + tokens_of(line@) =~= tokens_of(line@));
        }
        while i < line.len()
            invariant
                i <= line@.len(),
                views(found@) + tokens_from(line@.skip(i as int), current@) == tokens_of(line@),
            decreases line@.len() - i,
        {
            let c = line[i];
            let ghost rest = line@.skip(i as int);
            proof {
                assert(rest.skip(1) =~= line@.skip(i + 1));
                assert(rest[0] == c);
            }
            if is_space(c) {
                if current.len() > 0 {
                    let ghost before = found@;
                    let ghost token = current@;
                    found.push(current);
                    current = Vec::new();
                    proof {
                        assert(views(found@) =~= views(before) + seq![token]);
                        assert(views(found@) + tokens_from(line@.skip(i + 1), current@) =~= views(
                            before,
                        ) + (seq![token] + tokens_from(line@.skip(i + 1), Seq::empty())));
                    }
                } else {
                    proof {
                        assert(closed_token(current@) + tokens_from(
                            line@.skip(i + 1),
                            Seq::empty(),
                        ) =~= tokens_from(line@.skip(i + 1), Seq::empty()));
                        assert(current@ =~= Seq::<char>::empty());
                    }
                }
            } else {
                current.push(c);
            }
            i += 1;
        }
        if current.len() > 0 {
            let ghost before = found@;
            let ghost token = current@;
            found.push(current);
            proof {
                assert(views(found@) =~= views(before) + seq![token]);
            }
        }
        proof {
            assert(views(found@) =~= tokens_of(line@));
        }
        let ghost kept = self.buffer@;
        let ghost all = found@;
        let mut fresh: Vec<Vec<char>> = Vec::new();
        while found.len() > 0
            invariant
                found@.len() <= all.len(),
                found@ == all.take(found@.len() as int),
                fresh@.len() == all.len() - found@.len(),
                forall|k: int| 0 <= k < fresh@.len() ==> fresh@[k] == all[all.len() - 1 - k],
            decreases found@.len(),
        {
            let token = found.pop();
            proof {
                assert(found@ =~= all.take(found@.len() as int));
            }
            match token {
                Some(t) => {
                    fresh.push(t);
                },
                None => {},
            }
        }
        fresh.append(&mut self.buffer);
        self.buffer = fresh;
        proof {
            assert(self.buffer@.len() == all.len() + kept.len());
            assert(reversed_views(self.buffer@) =~= reversed_views(kept) + views(all));
        }
    }

    /// Takes the next token, if one is pending.
    pub fn chars(&mut self) -> (token: Option<Vec<char>>)
        ensures
            match token {
                Some(t) => old(self).pending().len() > 0 && t@ == old(self).pending()[0]
                    && final(self).pending() == old(self).pending().skip(1),
                None => old(self).pending().len() == 0 && final(self).pending().len() == 0,
            },
    {
        let token = self.buffer.pop();
        proof {
            if token.is_some() {
                assert(self.pending() =~= old(self).pending().skip(1));
            }
        }
        token
    }

    /// Takes the next token and reads it as a place counted from 1, which it returns counted
    /// from 0; `None` where no token is pending, or the token is no natural number, or is 0.
    pub fn usize1(&mut self) -> (place: Option<usize>)
        ensures
            old(self).pending().len() == 0 ==> place is None && final(self).pending().len() == 0,
            old(self).pending().len() > 0 ==> final(self).pending() == old(self).pending().skip(1)
                && place == match unsigned_of(old(self).pending()[0]) {
                Some(v) => if v >= 1 {
                    Some((v - 1) as usize)
                } else {
                    None
                },
                None => None,
            },
    {
        match self.chars() {
            Some(chars) => match parse_unsigned(&chars) {
                Some(v) => if v >= 1 {
                    Some(v - 1)
                } else {
                    None
                },
                None => None,
            },
            None => None,
        }
    }

    /// Takes the next token and reads it as a whole number, of which it returns the number
    /// before; `None` where no token is pending, or the token is no whole number, or the
    /// number before it is no machine integer.
    pub fn isize1(&mut self) -> (place: Option<isize>)
        ensures
            old(self).pending().len() == 0 ==> place is None && final(self).pending().len() == 0,
            old(self).pending().len() > 0 ==> final(self).pending() == old(self).pending().skip(1)
                && place == match signed_of(old(self).pending()[0]) {
                Some(v) => if v > isize::MIN {
                    Some((v - 1) as isize)
                } else {
                    None
                },
                None => None,
            },
    {
        match self.chars() {
            Some(chars) => match parse_signed(&chars) {
                Some(v) => if v > isize::MIN {
                    Some(v - 1)
                } else {
                    None
                },
                None => None,
            },
            None => None,
        }
    }

    /// Reads a value from the next tokens; `None` where they do not stand for one.
    pub fn read<T: ParseLine>(&mut self) -> (value: Option<T>)
        ensures
            match value {
                Some(v) => T::readable(old(self).pending()) && T::accepts(old(self).pending(), v)
                    && final(self).pending() == T::rest_of(old(self).pending()),
                None => !T::readable(old(self).pending()),
            },
    {
        T::parse_line(self)
    }

    /// Reads `n` values of one type from the next tokens, in order; `None` where the tokens
    /// give out or one of the values is not there.
    pub fn vec<T: ParseLine>(&mut self, n: usize) -> (values: Option<Vec<T>>)
        ensures
            match values {
                Some(v) => v@.len() == n && reads_all::<T>(old(self).pending(), v@)
                    && final(self).pending() == rest_after::<T>(old(self).pending(), n as nat),
                None => exists|k: int|
                    0 <= k < n && !T::readable(
                        #[trigger] rest_after::<T>(old(self).pending(), k as nat),
                    ),
            },
    {
        let ghost first = self.pending();
        let mut values: Vec<T> = Vec::new();
        let mut i: usize = 0;
        while i < n
            invariant
                i <= n,
                values@.len() == i,
                first == old(self).pending(),
                self.pending() == rest_after::<T>(first, i as nat),
                reads_all::<T>(first, values@),
            decreases n - i,
        {
            let ghost before = self.pending();
            let ghost read = values@;
            match T::parse_line(self) {
                Some(v) => {
                    values.push(v);
                    proof {
                        assert(rest_after::<T>(first, (i + 1) as nat) == T::rest_of(before));
                        assert(values@.drop_last() =~= read);
                    }
                },
                None => {
                    proof {
                        let k = i as int;
                        assert(0 <= k < n && !T::readable(rest_after::<T>(first, k as nat)));
                    }
                    return None;
                },
            }
            i += 1;
        }
        Some(values)
    }

    /// Takes the next token as a text, if one is pending.
    pub fn token(&mut self) -> (token: Option<String>)
        ensures
            match token {
                Some(t) => old(self).pending().len() > 0 && t@ == old(self).pending()[0]
                    && final(self).pending() == old(self).pending().skip(1),
                None => old(self).pending().len() == 0 && final(self).pending().len() == 0,
            },
    {
        match self.chars() {
            Some(chars) => {
                let mut text = String::new();
                let mut i: usize = 0;
                while i < chars.len()
                    invariant
                        i <= chars@.len(),
                        text@ == chars@.take(i as int),
                    decreases chars@.len() - i,
                {
                    push_char(&mut text, chars[i]);
                    proof {
                        assert(text@ =~= chars@.take(i + 1));
                    }
                    i += 1;
                }
                proof {
                    assert(chars@.take(i as int) =~= chars@);
                }
                Some(text)
            },
            None => None,
        }
    }
}

/// The tokens that are left of `pending` once `count` values of one type are read.
pub open spec fn rest_after<T: ParseLine>(pending: Seq<Seq<char>>, count: nat) -> Seq<Seq<char>>
    decreases count,
{
    if count == 0 {
        pending
    } else {
        T::rest_of(rest_after::<T>(pending, (count - 1) as nat))
    }
}

/// Whether `values` are what the tokens `pending` begin with, one value after the other.
pub open spec fn reads_all<T: ParseLine>(pending: Seq<Seq<char>>, values: Seq<T>) -> bool
    decreases values.len(),
{
    if values.len() == 0 {
        true
    } else {
        let before = rest_after::<T>(pending, (values.len() - 1) as nat);
        &&& reads_all::<T>(pending, values.drop_last())
        &&& T::readable(before)
        &&& T::accepts(before, values.last())
    }
}

/// What can be read from the tokens of an input: a number, a text, a character, or several
/// of these in a row.
pub trait ParseLine: Sized {
    /// Whether the tokens `pending` begin with what stands for a value of this type.
    spec fn readable(pending: Seq<Seq<char>>) -> bool;

    /// Whether `value` is what the tokens `pending` begin with.
    spec fn accepts(pending: Seq<Seq<char>>, value: Self) -> bool;

    /// The tokens that are left of `pending` once a value of this type is read.
    spec fn rest_of(pending: Seq<Seq<char>>) -> Seq<Seq<char>>;

    /// Reads a value from the next tokens; `None` where they do not stand for one, and then
    /// the tokens that were passed on the way are taken all the same.
    fn parse_line(s: &mut Input) -> (value: Option<Self>)
        ensures
            match value {
                Some(v) => Self::readable(old(s).pending()) && Self::accepts(old(s).pending(), v)
                    && final(s).pending() == Self::rest_of(old(s).pending()),
                None => !Self::readable(old(s).pending()),
            },
    ;
}

impl ParseLine for u8 {
    open spec fn readable(pending: Seq<Seq<char>>) -> bool {
        pending.len() > 0 && unsigned_within(pending[0], u8::MAX as int) is Some
    }

    open spec fn accepts(pending: Seq<Seq<char>>, value: u8) -> bool {
        pending.len() > 0 && unsigned_within(pending[0], u8::MAX as int) == Some(value as int)
    }

    open spec fn rest_of(pending: Seq<Seq<char>>) -> Seq<Seq<char>> {
        pending.skip(1)
    }

    fn parse_line(s: &mut Input) -> (value: Option<u8>) {
        match s.chars() {
            Some(text) => match parse_unsigned_within(&text, u8::MAX as u128) {
                Some(v) => Some(v as u8),
                None => None,
            },
            None => None,
        }
    }
}

impl ParseLine for u16 {
    open spec fn readable(pending: Seq<Seq<char>>) -> bool {
        pending.len() > 0 && unsigned_within(pending[0], u16::MAX as int) is Some
    }

    open spec fn accepts(pending: Seq<Seq<char>>, value: u16) -> bool {
        pending.len() > 0 && unsigned_within(pending[0], u16::MAX as int) == Some(value as int)
    }

    open spec fn rest_of(pending: Seq<Seq<char>>) -> Seq<Seq<char>> {
        pending.skip(1)
    }

    fn parse_line(s: &mut Input) -> (value: Option<u16>) {
        match s.chars() {
            Some(text) => match parse_unsigned_within(&text, u16::MAX as u128) {
                Some(v) => Some(v as u16),
                None => None,
            },
            None => None,
        }
    }
}

impl ParseLine for u32 {
    open spec fn readable(pending: Seq<Seq<char>>) -> bool {
        pending.len() > 0 && unsigned_within(pending[0], u32::MAX as int) is Some
    }

    open spec fn accepts(pending: Seq<Seq<char>>, value: u32) -> bool {
        pending.len() > 0 && unsigned_within(pending[0], u32::MAX as int) == Some(value as int)
    }

    open spec fn rest_of(pending: Seq<Seq<char>>) -> Seq<Seq<char>> {
        pending.skip(1)
    }

    fn parse_line(s: &mut Input) -> (value: Option<u32>) {
        match s.chars() {
            Some(text) => match parse_unsigned_within(&text, u32::MAX as u128) {
                Some(v) => Some(v as u32),
                None => None,
            },
            None => None,
        }
    }
}

impl ParseLine for u64 {
    open spec fn readable(pending: Seq<Seq<char>>) -> bool {
        pending.len() > 0 && unsigned_within(pending[0], u64::MAX as int) is Some
    }

    open spec fn accepts(pending: Seq<Seq<char>>, value: u64) -> bool {
        pending.len() > 0 && unsigned_within(pending[0], u64::MAX as int) == Some(value as int)
    }

    open spec fn rest_of(pending: Seq<Seq<char>>) -> Seq<Seq<char>> {
        pending.skip(1)
    }

    fn parse_line(s: &mut Input) -> (value: Option<u64>) {
        match s.chars() {
            Some(text) => match parse_unsigned_within(&text, u64::MAX as u128) {
                Some(v) => Some(v as u64),
                None => None,
            },
            None => None,
        }
    }
}

impl ParseLine for u128 {
    open spec fn readable(pending: Seq<Seq<char>>) -> bool {
        pending.len() > 0 && unsigned_within(pending[0], u128::MAX as int) is Some
    }

    open spec fn accepts(pending: Seq<Seq<char>>, value: u128) -> bool {
        pending.len() > 0 && unsigned_within(pending[0], u128::MAX as int) == Some(value as int)
    }

    open spec fn rest_of(pending: Seq<Seq<char>>) -> Seq<Seq<char>> {
        pending.skip(1)
    }

    fn parse_line(s: &mut Input) -> (value: Option<u128>) {
        match s.chars() {
            Some(text) => match parse_unsigned_within(&text, u128::MAX as u128) {
                Some(v) => Some(v as u128),
                None => None,
            },
            None => None,
        }
    }
}

impl ParseLine for usize {
    open spec fn readable(pending: Seq<Seq<char>>) -> bool {
        pending.len() > 0 && unsigned_within(pending[0], usize::MAX as int) is Some
    }

    open spec fn accepts(pending: Seq<Seq<char>>, value: usize) -> bool {
        pending.len() > 0 && unsigned_within(pending[0], usize::MAX as int) == Some(value as int)
    }

    open spec fn rest_of(pending: Seq<Seq<char>>) -> Seq<Seq<char>> {
        pending.skip(1)
    }

    fn parse_line(s: &mut Input) -> (value: Option<usize>) {
        match s.chars() {
            Some(text) => match parse_unsigned_within(&text, usize::MAX as u128) {
                Some(v) => Some(v as usize),
                None => None,
            },
            None => None,
        }
    }
}

impl ParseLine for i8 {
    open spec fn readable(pending: Seq<Seq<char>>) -> bool {
        pending.len() > 0 && signed_within(pending[0], i8::MIN as int, i8::MAX as int) is Some
    }

    open spec fn accepts(pending: Seq<Seq<char>>, value: i8) -> bool {
        pending.len() > 0 && signed_within(pending[0], i8::MIN as int, i8::MAX as int) == Some(
            value as int,
        )
    }

    open spec fn rest_of(pending: Seq<Seq<char>>) -> Seq<Seq<char>> {
        pending.skip(1)
    }

    fn parse_line(s: &mut Input) -> (value: Option<i8>) {
        match s.chars() {
            Some(text) => match parse_signed_within(
                &text,
                i8::MAX as u128 + 1,
                i8::MAX as u128,
            ) {
                Some(v) => Some(v as i8),
                None => None,
            },
            None => None,
        }
    }
}

impl ParseLine for i16 {
    open spec fn readable(pending: Seq<Seq<char>>) -> bool {
        pending.len() > 0 && signed_within(pending[0], i16::MIN as int, i16::MAX as int) is Some
    }

    open spec fn accepts(pending: Seq<Seq<char>>, value: i16) -> bool {
        pending.len() > 0 && signed_within(pending[0], i16::MIN as int, i16::MAX as int) == Some(
            value as int,
        )
    }

    open spec fn rest_of(pending: Seq<Seq<char>>) -> Seq<Seq<char>> {
        pending.skip(1)
    }

    fn parse_line(s: &mut Input) -> (value: Option<i16>) {
        match s.chars() {
            Some(text) => match parse_signed_within(
                &text,
                i16::MAX as u128 + 1,
                i16::MAX as u128,
            ) {
                Some(v) => Some(v as i16),
                None => None,
            },
            None => None,
        }
    }
}

impl ParseLine for i32 {
    open spec fn readable(pending: Seq<Seq<char>>) -> bool {
        pending.len() > 0 && signed_within(pending[0], i32::MIN as int, i32::MAX as int) is Some
    }

    open spec fn accepts(pending: Seq<Seq<char>>, value: i32) -> bool {
        pending.len() > 0 && signed_within(pending[0], i32::MIN as int, i32::MAX as int) == Some(
            value as int,
        )
    }

    open spec fn rest_of(pending: Seq<Seq<char>>) -> Seq<Seq<char>> {
        pending.skip(1)
    }

    fn parse_line(s: &mut Input) -> (value: Option<i32>) {
        match s.chars() {
            Some(text) => match parse_signed_within(
                &text,
                i32::MAX as u128 + 1,
                i32::MAX as u128,
            ) {
                Some(v) => Some(v as i32),
                None => None,
            },
            None => None,
        }
    }
}

impl ParseLine for i64 {
    open spec fn readable(pending: Seq<Seq<char>>) -> bool {
        pending.len() > 0 && signed_within(pending[0], i64::MIN as int, i64::MAX as int) is Some
    }

    open spec fn accepts(pending: Seq<Seq<char>>, value: i64) -> bool {
        pending.len() > 0 && signed_within(pending[0], i64::MIN as int, i64::MAX as int) == Some(
            value as int,
        )
    }

    open spec fn rest_of(pending: Seq<Seq<char>>) -> Seq<Seq<char>> {
        pending.skip(1)
    }

    fn parse_line(s: &mut Input) -> (value: Option<i64>) {
        match s.chars() {
            Some(text) => match parse_signed_within(
                &text,
                i64::MAX as u128 + 1,
                i64::MAX as u128,
            ) {
                Some(v) => Some(v as i64),
                None => None,
            },
            None => None,
        }
    }
}

impl ParseLine for i128 {
    open spec fn readable(pending: Seq<Seq<char>>) -> bool {
        pending.len() > 0 && signed_within(pending[0], i128::MIN as int, i128::MAX as int) is Some
    }

    open spec fn accepts(pending: Seq<Seq<char>>, value: i128) -> bool {
        pending.len() > 0 && signed_within(pending[0], i128::MIN as int, i128::MAX as int) == Some(
            value as int,
        )
    }

    open spec fn rest_of(pending: Seq<Seq<char>>) -> Seq<Seq<char>> {
        pending.skip(1)
    }

    fn parse_line(s: &mut Input) -> (value: Option<i128>) {
        match s.chars() {
            Some(text) => match parse_signed_within(
                &text,
                i128::MAX as u128 + 1,
                i128::MAX as u128,
            ) {
                Some(v) => Some(v as i128),
                None => None,
            },
            None => None,
        }
    }
}

impl ParseLine for isize {
    open spec fn readable(pending: Seq<Seq<char>>) -> bool {
        pending.len() > 0 && signed_within(pending[0], isize::MIN as int, isize::MAX as int) is Some
    }

    open spec fn accepts(pending: Seq<Seq<char>>, value: isize) -> bool {
        pending.len() > 0 && signed_within(pending[0], isize::MIN as int, isize::MAX as int) == Some(
            value as int,
        )
    }

    open spec fn rest_of(pending: Seq<Seq<char>>) -> Seq<Seq<char>> {
        pending.skip(1)
    }

    fn parse_line(s: &mut Input) -> (value: Option<isize>) {
        match s.chars() {
            Some(text) => match parse_signed_within(
                &text,
                isize::MAX as u128 + 1,
                isize::MAX as u128,
            ) {
                Some(v) => Some(v as isize),
                None => None,
            },
            None => None,
        }
    }
}

impl ParseLine for String {
    open spec fn readable(pending: Seq<Seq<char>>) -> bool {
        pending.len() > 0
    }

    open spec fn accepts(pending: Seq<Seq<char>>, value: String) -> bool {
        pending.len() > 0 && value@ == pending[0]
    }

    open spec fn rest_of(pending: Seq<Seq<char>>) -> Seq<Seq<char>> {
        pending.skip(1)
    }

    fn parse_line(s: &mut Input) -> (value: Option<String>) {
        s.token()
    }
}

impl ParseLine for char {
    open spec fn readable(pending: Seq<Seq<char>>) -> bool {
        pending.len() > 0 && pending[0].len() == 1
    }

    open spec fn accepts(pending: Seq<Seq<char>>, value: char) -> bool {
        pending.len() > 0 && pending[0] == seq![value]
    }

    open spec fn rest_of(pending: Seq<Seq<char>>) -> Seq<Seq<char>> {
        pending.skip(1)
    }

    fn parse_line(s: &mut Input) -> (value: Option<char>) {
        match s.chars() {
            Some(text) => if text.len() == 1 {
                proof {
                    assert(text@ =~= seq![text@[0]]);
                }
                Some(text[0])
            } else {
                None
            },
            None => None,
        }
    }
}

impl<T0: ParseLine, T1: ParseLine> ParseLine for (T0, T1) {
    open spec fn readable(pending: Seq<Seq<char>>) -> bool {
        let p1 = T0::rest_of(pending);
        &&& T0::readable(pending)
        &&& T1::readable(p1)
    }

    open spec fn accepts(pending: Seq<Seq<char>>, value: (T0, T1)) -> bool {
        let p1 = T0::rest_of(pending);
        &&& T0::accepts(pending, value.0)
        &&& T1::accepts(p1, value.1)
    }

    open spec fn rest_of(pending: Seq<Seq<char>>) -> Seq<Seq<char>> {
        let p1 = T0::rest_of(pending);
        T1::rest_of(p1)
    }

    fn parse_line(s: &mut Input) -> (value: Option<(T0, T1)>) {
        let v0 = match T0::parse_line(s) {
            Some(v) => v,
            None => {
                return None;
            },
        };
        let v1 = match T1::parse_line(s) {
            Some(v) => v,
            None => {
                return None;
            },
        };
        Some((v0, v1))
    }
}

impl<T0: ParseLine, T1: ParseLine, T2: ParseLine> ParseLine for (T0, T1, T2) {
    open spec fn readable(pending: Seq<Seq<char>>) -> bool {
        let p1 = T0::rest_of(pending);
        let p2 = T1::rest_of(p1);
        &&& T0::readable(pending)
        &&& T1::readable(p1)
        &&& T2::readable(p2)
    }

    open spec fn accepts(pending: Seq<Seq<char>>, value: (T0, T1, T2)) -> bool {
        let p1 = T0::rest_of(pending);
        let p2 = T1::rest_of(p1);
        &&& T0::accepts(pending, value.0)
        &&& T1::accepts(p1, value.1)
        &&& T2::accepts(p2, value.2)
    }

    open spec fn rest_of(pending: Seq<Seq<char>>) -> Seq<Seq<char>> {
        let p1 = T0::rest_of(pending);
        let p2 = T1::rest_of(p1);
        T2::rest_of(p2)
    }

    fn parse_line(s: &mut Input) -> (value: Option<(T0, T1, T2)>) {
        let v0 = match T0::parse_line(s) {
            Some(v) => v,
            None => {
                return None;
            },
        };
        let v1 = match T1::parse_line(s) {
            Some(v) => v,
            None => {
                return None;
            },
        };
        let v2 = match T2::parse_line(s) {
            Some(v) => v,
            None => {
                return None;
            },
        };
        Some((v0, v1, v2))
    }
}

impl<T0: ParseLine, T1: ParseLine, T2: ParseLine, T3: ParseLine> ParseLine for (T0, T1, T2, T3) {
    open spec fn readable(pending: Seq<Seq<char>>) -> bool {
        let p1 = T0::rest_of(pending);
        let p2 = T1::rest_of(p1);
        let p3 = T2::rest_of(p2);
        &&& T0::readable(pending)
        &&& T1::readable(p1)
        &&& T2::readable(p2)
        &&& T3::readable(p3)
    }

    open spec fn accepts(pending: Seq<Seq<char>>, value: (T0, T1, T2, T3)) -> bool {
        let p1 = T0::rest_of(pending);
        let p2 = T1::rest_of(p1);
        let p3 = T2::rest_of(p2);
        &&& T0::accepts(pending, value.0)
        &&& T1::accepts(p1, value.1)
        &&& T2::accepts(p2, value.2)
        &&& T3::accepts(p3, value.3)
    }

    open spec fn rest_of(pending: Seq<Seq<char>>) -> Seq<Seq<char>> {
        let p1 = T0::rest_of(pending);
        let p2 = T1::rest_of(p1);
        let p3 = T2::rest_of(p2);
        T3::rest_of(p3)
    }

    fn parse_line(s: &mut Input) -> (value: Option<(T0, T1, T2, T3)>) {
        let v0 = match T0::parse_line(s) {
            Some(v) => v,
            None => {
                return None;
            },
        };
        let v1 = match T1::parse_line(s) {
            Some(v) => v,
            None => {
                return None;
            },
        };
        let v2 = match T2::parse_line(s) {
            Some(v) => v,
            None => {
                return None;
            },
        };
        let v3 = match T3::parse_line(s) {
            Some(v) => v,
            None => {
                return None;
            },
        };
        Some((v0, v1, v2, v3))
    }
}

impl<
    T0: ParseLine,
    T1: ParseLine,
    T2: ParseLine,
    T3: ParseLine,
    T4: ParseLine,
> ParseLine for (T0, T1, T2, T3, T4) {
    open spec fn readable(pending: Seq<Seq<char>>) -> bool {
        let p1 = T0::rest_of(pending);
        let p2 = T1::rest_of(p1);
        let p3 = T2::rest_of(p2);
        let p4 = T3::rest_of(p3);
        &&& T0::readable(pending)
        &&& T1::readable(p1)
        &&& T2::readable(p2)
        &&& T3::readable(p3)
        &&& T4::readable(p4)
    }

    open spec fn accepts(pending: Seq<Seq<char>>, value: (T0, T1, T2, T3, T4)) -> bool {
        let p1 = T0::rest_of(pending);
        let p2 = T1::rest_of(p1);
        let p3 = T2::rest_of(p2);
        let p4 = T3::rest_of(p3);
        &&& T0::accepts(pending, value.0)
        &&& T1::accepts(p1, value.1)
        &&& T2::accepts(p2, value.2)
        &&& T3::accepts(p3, value.3)
        &&& T4::accepts(p4, value.4)
    }

    open spec fn rest_of(pending: Seq<Seq<char>>) -> Seq<Seq<char>> {
        let p1 = T0::rest_of(pending);
        let p2 = T1::rest_of(p1);
        let p3 = T2::rest_of(p2);
        let p4 = T3::rest_of(p3);
        T4::rest_of(p4)
    }

    fn parse_line(s: &mut Input) -> (value: Option<(T0, T1, T2, T3, T4)>) {
        let v0 = match T0::parse_line(s) {
            Some(v) => v,
            None => {
                return None;
            },
        };
        let v1 = match T1::parse_line(s) {
            Some(v) => v,
            None => {
                return None;
            },
        };
        let v2 = match T2::parse_line(s) {
            Some(v) => v,
            None => {
                return None;
            },
        };
        let v3 = match T3::parse_line(s) {
            Some(v) => v,
            None => {
                return None;
            },
        };
        let v4 = match T4::parse_line(s) {
            Some(v) => v,
            None => {
                return None;
            },
        };
        Some((v0, v1, v2, v3, v4))
    }
}

impl<
    T0: ParseLine,
    T1: ParseLine,
    T2: ParseLine,
    T3: ParseLine,
    T4: ParseLine,
    T5: ParseLine,
> ParseLine for (T0, T1, T2, T3, T4, T5) {
    open spec fn readable(pending: Seq<Seq<char>>) -> bool {
        let p1 = T0::rest_of(pending);
        let p2 = T1::rest_of(p1);
        let p3 = T2::rest_of(p2);
        let p4 = T3::rest_of(p3);
        let p5 = T4::rest_of(p4);
        &&& T0::readable(pending)
        &&& T1::readable(p1)
        &&& T2::readable(p2)
        &&& T3::readable(p3)
        &&& T4::readable(p4)
        &&& T5::readable(p5)
    }

    open spec fn accepts(pending: Seq<Seq<char>>, value: (T0, T1, T2, T3, T4, T5)) -> bool {
        let p1 = T0::rest_of(pending);
        let p2 = T1::rest_of(p1);
        let p3 = T2::rest_of(p2);
        let p4 = T3::rest_of(p3);
        let p5 = T4::rest_of(p4);
        &&& T0::accepts(pending, value.0)
        &&& T1::accepts(p1, value.1)
        &&& T2::accepts(p2, value.2)
        &&& T3::accepts(p3, value.3)
        &&& T4::accepts(p4, value.4)
        &&& T5::accepts(p5, value.5)
    }

    open spec fn rest_of(pending: Seq<Seq<char>>) -> Seq<Seq<char>> {
        let p1 = T0::rest_of(pending);
        let p2 = T1::rest_of(p1);
        let p3 = T2::rest_of(p2);
        let p4 = T3::rest_of(p3);
        let p5 = T4::rest_of(p4);
        T5::rest_of(p5)
    }

    fn parse_line(s: &mut Input) -> (value: Option<(T0, T1, T2, T3, T4, T5)>) {
        let v0 = match T0::parse_line(s) {
            Some(v) => v,
            None => {
                return None;
            },
        };
        let v1 = match T1::parse_line(s) {
            Some(v) => v,
            None => {
                return None;
            },
        };
        let v2 = match T2::parse_line(s) {
            Some(v) => v,
            None => {
                return None;
            },
        };
        let v3 = match T3::parse_line(s) {
            Some(v) => v,
            None => {
                return None;
            },
        };
        let v4 = match T4::parse_line(s) {
            Some(v) => v,
            None => {
                return None;
            },
        };
        let v5 = match T5::parse_line(s) {
            Some(v) => v,
            None => {
                return None;
            },
        };
        Some((v0, v1, v2, v3, v4, v5))
    }
}

impl<
    T0: ParseLine,
    T1: ParseLine,
    T2: ParseLine,
    T3: ParseLine,
    T4: ParseLine,
    T5: ParseLine,
    T6: ParseLine,
> ParseLine for (T0, T1, T2, T3, T4, T5, T6) {
    open spec fn readable(pending: Seq<Seq<char>>) -> bool {
        let p1 = T0::rest_of(pending);
        let p2 = T1::rest_of(p1);
        let p3 = T2::rest_of(p2);
        let p4 = T3::rest_of(p3);
        let p5 = T4::rest_of(p4);
        let p6 = T5::rest_of(p5);
        &&& T0::readable(pending)
        &&& T1::readable(p1)
        &&& T2::readable(p2)
        &&& T3::readable(p3)
        &&& T4::readable(p4)
        &&& T5::readable(p5)
        &&& T6::readable(p6)
    }

    open spec fn accepts(pending: Seq<Seq<char>>, value: (T0, T1, T2, T3, T4, T5, T6)) -> bool {
        let p1 = T0::rest_of(pending);
        let p2 = T1::rest_of(p1);
        let p3 = T2::rest_of(p2);
        let p4 = T3::rest_of(p3);
        let p5 = T4::rest_of(p4);
        let p6 = T5::rest_of(p5);
        &&& T0::accepts(pending, value.0)
        &&& T1::accepts(p1, value.1)
        &&& T2::accepts(p2, value.2)
        &&& T3::accepts(p3, value.3)
        &&& T4::accepts(p4, value.4)
        &&& T5::accepts(p5, value.5)
        &&& T6::accepts(p6, value.6)
    }

    open spec fn rest_of(pending: Seq<Seq<char>>) -> Seq<Seq<char>> {
        let p1 = T0::rest_of(pending);
        let p2 = T1::rest_of(p1);
        let p3 = T2::rest_of(p2);
        let p4 = T3::rest_of(p3);
        let p5 = T4::rest_of(p4);
        let p6 = T5::rest_of(p5);
        T6::rest_of(p6)
    }

    fn parse_line(s: &mut Input) -> (value: Option<(T0, T1, T2, T3, T4, T5, T6)>) {
        let v0 = match T0::parse_line(s) {
            Some(v) => v,
            None => {
                return None;
            },
        };
        let v1 = match T1::parse_line(s) {
            Some(v) => v,
            None => {
                return None;
            },
        };
        let v2 = match T2::parse_line(s) {
            Some(v) => v,
            None => {
                return None;
            },
        };
        let v3 = match T3::parse_line(s) {
            Some(v) => v,
            None => {
                return None;
            },
        };
        let v4 = match T4::parse_line(s) {
            Some(v) => v,
            None => {
                return None;
            },
        };
        let v5 = match T5::parse_line(s) {
            Some(v) => v,
            None => {
                return None;
            },
        };
        let v6 = match T6::parse_line(s) {
            Some(v) => v,
            None => {
                return None;
            },
        };
        Some((v0, v1, v2, v3, v4, v5, v6))
    }
}

impl<
    T0: ParseLine,
    T1: ParseLine,
    T2: ParseLine,
    T3: ParseLine,
    T4: ParseLine,
    T5: ParseLine,
    T6: ParseLine,
    T7: ParseLine,
> ParseLine for (T0, T1, T2, T3, T4, T5, T6, T7) {
    open spec fn readable(pending: Seq<Seq<char>>) -> bool {
        let p1 = T0::rest_of(pending);
        let p2 = T1::rest_of(p1);
        let p3 = T2::rest_of(p2);
        let p4 = T3::rest_of(p3);
        let p5 = T4::rest_of(p4);
        let p6 = T5::rest_of(p5);
        let p7 = T6::rest_of(p6);
        &&& T0::readable(pending)
        &&& T1::readable(p1)
        &&& T2::readable(p2)
        &&& T3::readable(p3)
        &&& T4::readable(p4)
        &&& T5::readable(p5)
        &&& T6::readable(p6)
        &&& T7::readable(p7)
    }

    open spec fn accepts(pending: Seq<Seq<char>>, value: (T0, T1, T2, T3, T4, T5, T6, T7)) -> bool {
        let p1 = T0::rest_of(pending);
        let p2 = T1::rest_of(p1);
        let p3 = T2::rest_of(p2);
        let p4 = T3::rest_of(p3);
        let p5 = T4::rest_of(p4);
        let p6 = T5::rest_of(p5);
        let p7 = T6::rest_of(p6);
        &&& T0::accepts(pending, value.0)
        &&& T1::accepts(p1, value.1)
        &&& T2::accepts(p2, value.2)
        &&& T3::accepts(p3, value.3)
        &&& T4::accepts(p4, value.4)
        &&& T5::accepts(p5, value.5)
        &&& T6::accepts(p6, value.6)
        &&& T7::accepts(p7, value.7)
    }

    open spec fn rest_of(pending: Seq<Seq<char>>) -> Seq<Seq<char>> {
        let p1 = T0::rest_of(pending);
        let p2 = T1::rest_of(p1);
        let p3 = T2::rest_of(p2);
        let p4 = T3::rest_of(p3);
        let p5 = T4::rest_of(p4);
        let p6 = T5::rest_of(p5);
        let p7 = T6::rest_of(p6);
        T7::rest_of(p7)
    }

    fn parse_line(s: &mut Input) -> (value: Option<(T0, T1, T2, T3, T4, T5, T6, T7)>) {
        let v0 = match T0::parse_line(s) {
            Some(v) => v,
            None => {
                return None;
            },
        };
        let v1 = match T1::parse_line(s) {
            Some(v) => v,
            None => {
                return None;
            },
        };
        let v2 = match T2::parse_line(s) {
            Some(v) => v,
            None => {
                return None;
            },
        };
        let v3 = match T3::parse_line(s) {
            Some(v) => v,
            None => {
                return None;
            },
        };
        let v4 = match T4::parse_line(s) {
            Some(v) => v,
            None => {
                return None;
            },
        };
        let v5 = match T5::parse_line(s) {
            Some(v) => v,
            None => {
                return None;
            },
        };
        let v6 = match T6::parse_line(s) {
            Some(v) => v,
            None => {
                return None;
            },
        };
        let v7 = match T7::parse_line(s) {
            Some(v) => v,
            None => {
                return None;
            },
        };
        Some((v0, v1, v2, v3, v4, v5, v6, v7))
    }
}

impl<
    T0: ParseLine,
    T1: ParseLine,
    T2: ParseLine,
    T3: ParseLine,
    T4: ParseLine,
    T5: ParseLine,
    T6: ParseLine,
    T7: ParseLine,
    T8: ParseLine,
> ParseLine for (T0, T1, T2, T3, T4, T5, T6, T7, T8) {
    open spec fn readable(pending: Seq<Seq<char>>) -> bool {
        let p1 = T0::rest_of(pending);
        let p2 = T1::rest_of(p1);
        let p3 = T2::rest_of(p2);
        let p4 = T3::rest_of(p3);
        let p5 = T4::rest_of(p4);
        let p6 = T5::rest_of(p5);
        let p7 = T6::rest_of(p6);
        let p8 = T7::rest_of(p7);
        &&& T0::readable(pending)
        &&& T1::readable(p1)
        &&& T2::readable(p2)
        &&& T3::readable(p3)
        &&& T4::readable(p4)
        &&& T5::readable(p5)
        &&& T6::readable(p6)
        &&& T7::readable(p7)
        &&& T8::readable(p8)
    }

    open spec fn accepts(pending: Seq<Seq<char>>, value: (T0, T1, T2, T3, T4, T5, T6, T7, T8)) -> bool {
        let p1 = T0::rest_of(pending);
        let p2 = T1::rest_of(p1);
        let p3 = T2::rest_of(p2);
        let p4 = T3::rest_of(p3);
        let p5 = T4::rest_of(p4);
        let p6 = T5::rest_of(p5);
        let p7 = T6::rest_of(p6);
        let p8 = T7::rest_of(p7);
        &&& T0::accepts(pending, value.0)
        &&& T1::accepts(p1, value.1)
        &&& T2::accepts(p2, value.2)
        &&& T3::accepts(p3, value.3)
        &&& T4::accepts(p4, value.4)
        &&& T5::accepts(p5, value.5)
        &&& T6::accepts(p6, value.6)
        &&& T7::accepts(p7, value.7)
        &&& T8::accepts(p8, value.8)
    }

    open spec fn rest_of(pending: Seq<Seq<char>>) -> Seq<Seq<char>> {
        let p1 = T0::rest_of(pending);
        let p2 = T1::rest_of(p1);
        let p3 = T2::rest_of(p2);
        let p4 = T3::rest_of(p3);
        let p5 = T4::rest_of(p4);
        let p6 = T5::rest_of(p5);
        let p7 = T6::rest_of(p6);
        let p8 = T7::rest_of(p7);
        T8::rest_of(p8)
    }

    fn parse_line(s: &mut Input) -> (value: Option<(T0, T1, T2, T3, T4, T5, T6, T7, T8)>) {
        let v0 = match T0::parse_line(s) {
            Some(v) => v,
            None => {
                return None;
            },
        };
        let v1 = match T1::parse_line(s) {
            Some(v) => v,
            None => {
                return None;
            },
        };
        let v2 = match T2::parse_line(s) {
            Some(v) => v,
            None => {
                return None;
            },
        };
        let v3 = match T3::parse_line(s) {
            Some(v) => v,
            None => {
                return None;
            },
        };
        let v4 = match T4::parse_line(s) {
            Some(v) => v,
            None => {
                return None;
            },
        };
        let v5 = match T5::parse_line(s) {
            Some(v) => v,
            None => {
                return None;
            },
        };
        let v6 = match T6::parse_line(s) {
            Some(v) => v,
            None => {
                return None;
            },
        };
        let v7 = match T7::parse_line(s) {
            Some(v) => v,
            None => {
                return None;
            },
        };
        let v8 = match T8::parse_line(s) {
            Some(v) => v,
            None => {
                return None;
            },
        };
        Some((v0, v1, v2, v3, v4, v5, v6, v7, v8))
    }
}

impl<
    T0: ParseLine,
    T1: ParseLine,
    T2: ParseLine,
    T3: ParseLine,
    T4: ParseLine,
    T5: ParseLine,
    T6: ParseLine,
    T7: ParseLine,
    T8: ParseLine,
    T9: ParseLine,
> ParseLine for (T0, T1, T2, T3, T4, T5, T6, T7, T8, T9) {
    open spec fn readable(pending: Seq<Seq<char>>) -> bool {
        let p1 = T0::rest_of(pending);
        let p2 = T1::rest_of(p1);
        let p3 = T2::rest_of(p2);
        let p4 = T3::rest_of(p3);
        let p5 = T4::rest_of(p4);
        let p6 = T5::rest_of(p5);
        let p7 = T6::rest_of(p6);
        let p8 = T7::rest_of(p7);
        let p9 = T8::rest_of(p8);
        &&& T0::readable(pending)
        &&& T1::readable(p1)
        &&& T2::readable(p2)
        &&& T3::readable(p3)
        &&& T4::readable(p4)
        &&& T5::readable(p5)
        &&& T6::readable(p6)
        &&& T7::readable(p7)
        &&& T8::readable(p8)
        &&& T9::readable(p9)
    }

    open spec fn accepts(pending: Seq<Seq<char>>, value: (T0, T1, T2, T3, T4, T5, T6, T7, T8, T9)) -> bool {
        let p1 = T0::rest_of(pending);
        let p2 = T1::rest_of(p1);
        let p3 = T2::rest_of(p2);
        let p4 = T3::rest_of(p3);
        let p5 = T4::rest_of(p4);
        let p6 = T5::rest_of(p5);
        let p7 = T6::rest_of(p6);
        let p8 = T7::rest_of(p7);
        let p9 = T8::rest_of(p8);
        &&& T0::accepts(pending, value.0)
        &&& T1::accepts(p1, value.1)
        &&& T2::accepts(p2, value.2)
        &&& T3::accepts(p3, value.3)
        &&& T4::accepts(p4, value.4)
        &&& T5::accepts(p5, value.5)
        &&& T6::accepts(p6, value.6)
        &&& T7::accepts(p7, value.7)
        &&& T8::accepts(p8, value.8)
        &&& T9::accepts(p9, value.9)
    }

    open spec fn rest_of(pending: Seq<Seq<char>>) -> Seq<Seq<char>> {
        let p1 = T0::rest_of(pending);
        let p2 = T1::rest_of(p1);
        let p3 = T2::rest_of(p2);
        let p4 = T3::rest_of(p3);
        let p5 = T4::rest_of(p4);
        let p6 = T5::rest_of(p5);
        let p7 = T6::rest_of(p6);
        let p8 = T7::rest_of(p7);
        let p9 = T8::rest_of(p8);
        T9::rest_of(p9)
    }

    fn parse_line(s: &mut Input) -> (value: Option<(T0, T1, T2, T3, T4, T5, T6, T7, T8, T9)>) {
        let v0 = match T0::parse_line(s) {
            Some(v) => v,
            None => {
                return None;
            },
        };
        let v1 = match T1::parse_line(s) {
            Some(v) => v,
            None => {
                return None;
            },
        };
        let v2 = match T2::parse_line(s) {
            Some(v) => v,
            None => {
                return None;
            },
        };
        let v3 = match T3::parse_line(s) {
            Some(v) => v,
            None => {
                return None;
            },
        };
        let v4 = match T4::parse_line(s) {
            Some(v) => v,
            None => {
                return None;
            },
        };
        let v5 = match T5::parse_line(s) {
            Some(v) => v,
            None => {
                return None;
            },
        };
        let v6 = match T6::parse_line(s) {
            Some(v) => v,
            None => {
                return None;
            },
        };
        let v7 = match T7::parse_line(s) {
            Some(v) => v,
            None => {
                return None;
            },
        };
        let v8 = match T8::parse_line(s) {
            Some(v) => v,
            None => {
                return None;
            },
        };
        let v9 = match T9::parse_line(s) {
            Some(v) => v,
            None => {
                return None;
            },
        };
        Some((v0, v1, v2, v3, v4, v5, v6, v7, v8, v9))
    }
}

} // verus!
