//! Rulestrings in B/S notation: the grammar, the parser and the canonical
//! rendering.

use crate::text::{chars_of, digit_char, digit_value, push_char, trim, trim_bounds};
use vstd::prelude::*;

verus! {

/// Why a text is not a rulestring.
#[derive(Debug, Clone, Copy, PartialEq, Eq)]
pub enum RuleError {
    /// The text does not have the shape of two parts around one `/`, or a
    /// part that is one byte long is not its letter.
    BadString,
    /// The character stands where a digit from 1 to 8 is expected.
    InvalidInt(char),
}

/// Two tables indexed by the number of live neighbours, 0 to 8.
#[derive(Debug, Clone, Copy, PartialEq, Eq)]
pub struct Rulestring {
    /// `b[k]`: a dead cell with `k` live neighbours becomes alive.
    pub b: [bool; 9],
    /// `s[k]`: a live cell with `k` live neighbours stays alive.
    pub s: [bool; 9],
}

/// A rule as two sets of neighbour counts.
pub struct RuleView {
    /// The counts at which a dead cell becomes alive.
    pub birth: Set<int>,
    /// The counts at which a live cell stays alive.
    pub survive: Set<int>,
}

/// The indices from 0 to 8 at which `flags` is set.
pub open spec fn flag_set(flags: [bool; 9]) -> Set<int> {
    Set::new(|k: int| 0 <= k < 9 && flags[k])
}

impl View for Rulestring {
    type V = RuleView;

    open spec fn view(&self) -> RuleView {
        RuleView { birth: flag_set(self.b), survive: flag_set(self.s) }
    }
}

/// Whether `c` is one of the digits `1` to `8`.
pub open spec fn is_rule_digit(c: char) -> bool {
    '1' <= c && c <= '8'
}

/// Whether `c` takes one byte in UTF-8.
pub open spec fn is_one_byte(c: char) -> bool {
    (c as u32) < 0x80
}

/// `s` without its first character; empty where `s` is.
pub open spec fn tail(s: Seq<char>) -> Seq<char> {
    if s.len() == 0 {
        s
    } else {
        s.drop_first()
    }
}

/// The first character of `s` that is no digit from 1 to 8, if there is
/// one.
pub open spec fn first_invalid(s: Seq<char>) -> Option<char>
    decreases s.len(),
{
    if s.len() == 0 {
        None
    } else if !is_rule_digit(s[0]) {
        Some(s[0])
    } else {
        first_invalid(s.drop_first())
    }
}

/// The numbers that the characters of `s` stand for.
pub open spec fn digit_values(s: Seq<char>) -> Set<int> {
    Set::new(|d: int| exists|i: int| 0 <= i < s.len() && digit_value(#[trigger] s[i]) == d)
}

/// What one part of a rulestring means, `letter` being `B` or `S`.
///
/// A part that is one byte long must be the letter, and stands for the
/// count 0. In any other part the first character is passed over
/// unread, and each character after it is a digit from 1 to 8.
pub open spec fn parse_part(part: Seq<char>, letter: char) -> Result<Set<int>, RuleError> {
    if part.len() == 1 && is_one_byte(part[0]) {
        if part[0] == letter {
            Ok(set![0int])
        } else {
            Err(RuleError::BadString)
        }
    } else {
        match first_invalid(tail(part)) {
            Some(c) => Err(RuleError::InvalidInt(c)),
            None => Ok(digit_values(tail(part))),
        }
    }
}

/// Whether `k` is the position of the one `/` in `s`.
pub open spec fn only_slash_at(s: Seq<char>, k: int) -> bool {
    &&& 0 <= k < s.len()
    &&& forall|j: int| 0 <= j < s.len() ==> (#[trigger] s[j] == '/' <==> j == k)
}

/// Whether `s` holds exactly one `/`, and so has exactly two parts.
pub open spec fn has_two_parts(s: Seq<char>) -> bool {
    exists|k: int| only_slash_at(s, k)
}

/// The position of the one `/` in `s`.
pub open spec fn slash_index(s: Seq<char>) -> int {
    choose|k: int| only_slash_at(s, k)
}

/// What a text means as a rulestring.
///
/// The text is trimmed and must then have two parts around one `/`. The
/// birth part is read first, so its error comes first.
pub open spec fn parse(text: Seq<char>) -> Result<RuleView, RuleError> {
    let t = trim(text);
    if !has_two_parts(t) {
        Err(RuleError::BadString)
    } else {
        let k = slash_index(t);
        match parse_part(t.subrange(0, k), 'B') {
            Err(e) => Err(e),
            Ok(birth) => match parse_part(t.subrange(k + 1, t.len() as int), 'S') {
                Err(e) => Err(e),
                Ok(survive) => Ok(RuleView { birth, survive }),
            },
        }
    }
}

/// Where the one `/` of `s[from..to]` is, counted from `from`; `None`
/// where that range holds no `/` or more than one.
fn find_slash(s: &Vec<char>, from: usize, to: usize) -> (found: Option<usize>)
    requires
        from <= to <= s.len(),
    ensures
        found is Some <==> has_two_parts(s@.subrange(from as int, to as int)),
        found matches Some(k) ==> from <= k < to && k - from == slash_index(
            s@.subrange(from as int, to as int),
        ),
{
    let ghost part = s@.subrange(from as int, to as int);
    let mut found: Option<usize> = None;
    let mut i: usize = from;
    while i < to
        invariant
            from <= i <= to <= s.len(),
            part == s@.subrange(from as int, to as int),
            found is None ==> forall|j: int| 0 <= j < i - from ==> part[j] != '/',
            found matches Some(k) ==> {
                &&& from <= k < i
                &&& forall|j: int| 0 <= j < i - from ==> (#[trigger] part[j] == '/' <==> j == k - from)
            },
        decreases to - i,
    {
        if s[i] == '/' {
            if found.is_some() {
                proof {
                    let k = found->0;
                    assert(part[k - from] == '/');
                    assert(part[i - from] == '/');
                    assert forall|x: int| !only_slash_at(part, x) by {
                        if only_slash_at(part, x) {
                            assert(k - from == x);
                            assert(i - from == x);
                        }
                    }
                }
                return None;
            }
            found = Some(i);
        }
        i += 1;
    }
    proof {
        match found {
            Some(k) => {
                assert(only_slash_at(part, k - from));
                let x = slash_index(part);
                assert(only_slash_at(part, x));
                assert(part[k - from] == '/');
            },
            None => {
                assert forall|x: int| !only_slash_at(part, x) by {
                    if only_slash_at(part, x) {
                        assert(part[x] == '/');
                    }
                }
            },
        }
    }
    found
}

/// Reads the part `s[from..to]` of a rulestring into a table of flags.
fn read_part(s: &Vec<char>, from: usize, to: usize, letter: char) -> (result: Result<
    [bool; 9],
    RuleError,
>)
    requires
        from <= to <= s.len(),
    ensures
        match result {
            Ok(flags) => parse_part(s@.subrange(from as int, to as int), letter) == Ok::<
                Set<int>,
                RuleError,
            >(flag_set(flags)),
            Err(e) => parse_part(s@.subrange(from as int, to as int), letter) == Err::<
                Set<int>,
                RuleError,
            >(e),
        },
{
    let ghost part = s@.subrange(from as int, to as int);
    let mut flags = [false;9];
    if to - from == 1 && (s[from] as u32) < 0x80 {
        if s[from] == letter {
            flags[0] = true;
            assert(flag_set(flags) =~= set![0int]);
            return Ok(flags);
        } else {
            return Err(RuleError::BadString);
        }
    }
    if from == to {
        assert(flag_set(flags) =~= digit_values(tail(part)));
        return Ok(flags);
    }
    let ghost digits = tail(part);
    let mut i: usize = from + 1;
    assert(digits.subrange(0, digits.len() as int) == digits);
    while i < to
        invariant
            from < i <= to <= s.len(),
            part == s@.subrange(from as int, to as int),
            digits == tail(part),
            digits.len() == to - from - 1,
            first_invalid(digits) == first_invalid(
                digits.subrange(i - from - 1, digits.len() as int),
            ),
            forall|j: int| 0 <= j < i - from - 1 ==> is_rule_digit(#[trigger] digits[j]),
            forall|d: int|
                0 <= d < 9 ==> (flags[d] <==> exists|j: int|
                    0 <= j < i - from - 1 && digit_value(#[trigger] digits[j]) == d),
        decreases to - i,
    {
        let c = s[i];
        let ghost rest = digits.subrange(i - from - 1, digits.len() as int);
        assert(rest[0] == c);
        assert(digits[i - from - 1] == c);
        if c >= '1' && c <= '8' {
            let d: usize = (c as u32 - '0' as u32) as usize;
            let ghost before = flags;
            flags[d] = true;
            assert(rest.drop_first() == digits.subrange(i - from, digits.len() as int));
            assert forall|e: int| 0 <= e < 9 implies (flags[e] <==> exists|j: int|
                0 <= j < i - from && digit_value(#[trigger] digits[j]) == e) by {
                if flags[e] {
                    if e == d {
                        assert(digit_value(digits[i - from - 1]) == e);
                    } else {
                        assert(before[e]);
                        let j = choose|j: int|
                            0 <= j < i - from - 1 && digit_value(#[trigger] digits[j]) == e;
                        assert(0 <= j < i - from && digit_value(digits[j]) == e);
                    }
                }
                if exists|j: int| 0 <= j < i - from && digit_value(#[trigger] digits[j]) == e {
                    let j = choose|j: int|
                        0 <= j < i - from && digit_value(#[trigger] digits[j]) == e;
                    if j < i - from - 1 {
                        assert(before[e]);
                    }
                }
            }
        } else {
            return Err(RuleError::InvalidInt(c));
        }
        i += 1;
    }
    proof {
        assert(digits.subrange(digits.len() as int, digits.len() as int).len() == 0);
        assert forall|d: int| flag_set(flags).contains(d) <==> digit_values(digits).contains(
            d,
        ) by {
            if digit_values(digits).contains(d) {
                let j = choose|j: int|
                    0 <= j < digits.len() && digit_value(#[trigger] digits[j]) == d;
                assert(is_rule_digit(digits[j]));
            }
        }
        assert(flag_set(flags) =~= digit_values(digits));
    }
    Ok(flags)
}

/// The digits of the counts in `counts` that are below `upto`, ascending.
pub open spec fn digits_below(counts: Set<int>, upto: int) -> Seq<char>
    decreases upto,
{
    if upto <= 0 {
        Seq::empty()
    } else if counts.contains(upto - 1) {
        digits_below(counts, upto - 1).push(digit_char(upto - 1))
    } else {
        digits_below(counts, upto - 1)
    }
}

/// The canonical text of a rule: `B`, the digits of its birth counts in
/// ascending order, `/S`, and the digits of its survive counts.
pub open spec fn render(rule: RuleView) -> Seq<char> {
    seq!['B'] + digits_below(rule.birth, 9) + seq!['/', 'S'] + digits_below(rule.survive, 9)
}

/// What an error says of itself.
pub open spec fn message(error: RuleError) -> Seq<char> {
    match error {
        RuleError::BadString => "Invalid Rulestring"@,
        RuleError::InvalidInt(c) => "Invalid value "@.push(c) + " in Rulestring"@,
    }
}

/// The digit that stands for `d`.
fn digit(d: usize) -> (c: char)
    requires
        d < 10,
    ensures
        c == digit_char(d as int),
{
    (48u8 + d as u8) as char
}

impl RuleError {
    /// The error in words.
    pub fn to_string(&self) -> (text: String)
        ensures
            text@ == message(*self),
    {
        match self {
            RuleError::BadString => String::from_str("Invalid Rulestring"),
            RuleError::InvalidInt(c) => {
                let mut text = String::from_str("Invalid value ");
                push_char(&mut text, *c);
                text.append(" in Rulestring");
                text
            },
        }
    }
}

impl Rulestring {
    /// The rule in B/S notation.
    pub fn to_string(&self) -> (text: String)
        ensures
            text@ == render(self@),
    {
        let mut b = String::new();
        let mut s = String::new();
        push_char(&mut b, 'B');
        push_char(&mut s, '/');
        push_char(&mut s, 'S');
        let mut i: usize = 0;
        while i < 9
            invariant
                i <= 9,
                b@ == seq!['B'] + digits_below(self@.birth, i as int),
                s@ == seq!['/', 'S'] + digits_below(self@.survive, i as int),
            decreases 9 - i,
        {
            if self.b[i] {
                push_char(&mut b, digit(i));
            }
            if self.s[i] {
                push_char(&mut s, digit(i));
            }
            i += 1;
        }
        b.append(s.as_str());
        b
    }

    /// The rule under which nothing is born and nothing survives.
    pub fn new() -> (rules: Rulestring)
        ensures
            rules@.birth == Set::<int>::empty(),
            rules@.survive == Set::<int>::empty(),
    {
        let rules = Rulestring { b: [false;9], s: [false;9] };
        assert(rules@.birth =~= Set::<int>::empty());
        assert(rules@.survive =~= Set::<int>::empty());
        rules
    }

    /// Reads a rulestring: `Ok` with the rule that `parse` gives the text,
    /// or the error that `parse` gives it.
    pub fn from_str(text: &str) -> (result: Result<Rulestring, RuleError>)
        ensures
            match result {
                Ok(rules) => parse(text@) == Ok::<RuleView, RuleError>(rules@),
                Err(e) => parse(text@) == Err::<RuleView, RuleError>(e),
            },
    {
        let chars = chars_of(text);
        let (lo, hi) = trim_bounds(&chars);
        let ghost t = trim(text@);
        let k = match find_slash(&chars, lo, hi) {
            Some(k) => k,
            None => {
                return Err(RuleError::BadString);
            },
        };
        assert(t.subrange(0, k - lo) == chars@.subrange(lo as int, k as int));
        assert(t.subrange(k - lo + 1, t.len() as int) == chars@.subrange(k + 1, hi as int));
        let b = match read_part(&chars, lo, k, 'B') {
            Ok(flags) => flags,
            Err(e) => {
                return Err(e);
            },
        };
        let s = match read_part(&chars, k + 1, hi, 'S') {
            Ok(flags) => flags,
            Err(e) => {
                return Err(e);
            },
        };
        Ok(Rulestring { b, s })
    }
}

/// Whether the canonical text of `rule` can be read back: each of its
/// two sets holds a count, and only counts from 1 to 8. (Of the count 0
/// the canonical text holds the digit `0`, which the grammar refuses;
/// and the text of an empty set is the bare letter, which stands for 0.)
pub open spec fn is_readable(rule: RuleView) -> bool {
    &&& exists|k: int| rule.birth.contains(k)
    &&& exists|k: int| rule.survive.contains(k)
    &&& forall|k: int| rule.birth.contains(k) ==> 1 <= k <= 8
    &&& forall|k: int| rule.survive.contains(k) ==> 1 <= k <= 8
}

/// A sequence of digits from 1 to 8 has no invalid character.
pub proof fn lemma_all_valid(s: Seq<char>)
    requires
        forall|j: int| 0 <= j < s.len() ==> is_rule_digit(#[trigger] s[j]),
    ensures
        first_invalid(s) is None,
    decreases s.len(),
{
    if s.len() > 0 {
        assert(is_rule_digit(s[0]));
        let rest = s.drop_first();
        assert forall|j: int| 0 <= j < rest.len() implies is_rule_digit(#[trigger] rest[j]) by {
            assert(rest[j] == s[j + 1]);
        }
        lemma_all_valid(rest);
    }
}

/// The digits of a set of counts from 1 to 8 are digits from 1 to 8, and
/// stand for the counts of the set that are below `upto`.
pub proof fn lemma_digits_below(counts: Set<int>, upto: int)
    requires
        0 <= upto <= 9,
        forall|k: int| counts.contains(k) ==> 1 <= k <= 8,
    ensures
        forall|j: int|
            0 <= j < digits_below(counts, upto).len() ==> is_rule_digit(
                #[trigger] digits_below(counts, upto)[j],
            ),
        forall|d: int|
            digit_values(digits_below(counts, upto)).contains(d) <==> counts.contains(d) && d
                < upto,
        digits_below(counts, upto).len() > 0 <==> exists|d: int| counts.contains(d) && d < upto,
    decreases upto,
{
    let digits = digits_below(counts, upto);
    if upto > 0 {
        let fewer = digits_below(counts, upto - 1);
        lemma_digits_below(counts, upto - 1);
        if counts.contains(upto - 1) {
            let c = digit_char(upto - 1);
            assert(digits == fewer.push(c));
            assert(digit_value(c) == upto - 1);
            assert forall|d: int| digit_values(digits).contains(d) <==> counts.contains(d) && d
                < upto by {
                if digit_values(digits).contains(d) {
                    let j = choose|j: int|
                        0 <= j < digits.len() && digit_value(#[trigger] digits[j]) == d;
                    if j < fewer.len() {
                        assert(fewer[j] == digits[j]);
                        assert(digit_values(fewer).contains(d));
                    }
                }
                if counts.contains(d) && d < upto {
                    if d == upto - 1 {
                        assert(digit_value(digits[fewer.len() as int]) == d);
                    } else {
                        assert(digit_values(fewer).contains(d));
                        let j = choose|j: int|
                            0 <= j < fewer.len() && digit_value(#[trigger] fewer[j]) == d;
                        assert(digit_value(digits[j]) == d);
                    }
                }
            }
        } else {
            assert(digits == fewer);
            assert forall|d: int| counts.contains(d) && d < upto implies d < upto - 1 by {}
        }
    } else {
        assert forall|d: int| !digit_values(digits).contains(d) by {}
    }
}

/// Round trip: the canonical text of a readable rule reads back as that
/// rule.
pub proof fn lemma_render_then_parse(rule: RuleView)
    requires
        is_readable(rule),
    ensures
        parse(render(rule)) == Ok::<RuleView, RuleError>(rule),
{
    let db = digits_below(rule.birth, 9);
    let ds = digits_below(rule.survive, 9);
    let text = render(rule);
    let k = 1 + db.len() as int;
    lemma_digits_below(rule.birth, 9);
    lemma_digits_below(rule.survive, 9);
    assert(db.len() > 0);
    assert(ds.len() > 0);
    assert(text.len() == db.len() + ds.len() + 3);
    assert(text[0] == 'B');
    assert(text[k] == '/');
    assert(text[k + 1] == 'S');
    assert forall|j: int| 0 <= j < db.len() implies text[j + 1] == db[j] by {}
    assert forall|j: int| 0 <= j < ds.len() implies text[k + 2 + j] == ds[j] by {}
    assert(text.last() == ds.last());
    assert(is_rule_digit(ds.last()));
    crate::text::lemma_trim_is_identity(text);
    assert forall|j: int| 0 <= j < text.len() implies (#[trigger] text[j] == '/' <==> j == k) by {
        if 1 <= j < k {
            assert(text[j] == db[j - 1]);
            assert(is_rule_digit(db[j - 1]));
        } else if j > k + 1 {
            assert(text[j] == ds[j - k - 2]);
            assert(is_rule_digit(ds[j - k - 2]));
        }
    }
    assert(only_slash_at(text, k));
    assert(slash_index(text) == k) by {
        let x = slash_index(text);
        assert(only_slash_at(text, x));
        assert(text[x] == '/');
    }
    let left = text.subrange(0, k);
    let right = text.subrange(k + 1, text.len() as int);
    assert(tail(left) =~= db);
    assert(tail(right) =~= ds);
    lemma_all_valid(db);
    lemma_all_valid(ds);
    assert(digit_values(db) =~= rule.birth);
    assert(digit_values(ds) =~= rule.survive);
}

/// Round trip, from a text: where a text reads as a readable rule, the
/// canonical text of that rule reads as the same rule.
pub proof fn lemma_round_trip(text: Seq<char>)
    requires
        parse(text) is Ok,
        is_readable(parse(text)->Ok_0),
    ensures
        parse(render(parse(text)->Ok_0)) == parse(text),
{
    lemma_render_then_parse(parse(text)->Ok_0);
}

} // verus!
