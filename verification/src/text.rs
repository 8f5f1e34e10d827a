//! Text as sequences of characters: trimming, searching, splitting and numbers.
use vstd::prelude::*;
use vstd::slice::slice_subrange;

verus! {

/// `String::push` appends one character to the end of the string and changes
/// nothing else.
pub assume_specification[ String::push ](s: &mut String, c: char)
    ensures
        final(s)@ == old(s)@.push(c),
;

/// The characters with the Unicode `White_Space` property.
pub open spec fn is_whitespace(c: char) -> bool {
    ||| '\u{9}' <= c <= '\u{d}'
    ||| c == ' '
    ||| c == '\u{85}'
    ||| c == '\u{a0}'
    ||| c == '\u{1680}'
    ||| '\u{2000}' <= c <= '\u{200a}'
    ||| c == '\u{2028}'
    ||| c == '\u{2029}'
    ||| c == '\u{202f}'
    ||| c == '\u{205f}'
    ||| c == '\u{3000}'
}

/// `s` without its leading white space.
pub open spec fn trim_start_spec(s: Seq<char>) -> Seq<char>
    decreases s.len(),
{
    if s.len() > 0 && is_whitespace(s[0]) {
        trim_start_spec(s.skip(1))
    } else {
        s
    }
}

/// `s` without its trailing white space.
pub open spec fn trim_end_spec(s: Seq<char>) -> Seq<char>
    decreases s.len(),
{
    if s.len() > 0 && is_whitespace(s.last()) {
        trim_end_spec(s.drop_last())
    } else {
        s
    }
}

/// `s` without white space on either side.
pub open spec fn trim_spec(s: Seq<char>) -> Seq<char> {
    trim_end_spec(trim_start_spec(s))
}

/// `s` without its leading run of the character `c`.
pub open spec fn strip_leading_spec(s: Seq<char>, c: char) -> Seq<char>
    decreases s.len(),
{
    if s.len() > 0 && s[0] == c {
        strip_leading_spec(s.skip(1), c)
    } else {
        s
    }
}

/// The longest prefix of `s` without white space.
pub open spec fn leading_word_spec(s: Seq<char>) -> Seq<char>
    decreases s.len(),
{
    if s.len() > 0 && !is_whitespace(s[0]) {
        seq![s[0]] + leading_word_spec(s.skip(1))
    } else {
        Seq::empty()
    }
}

/// Whether `pattern` stands in `s` at position `at`.
pub open spec fn occurs_at(s: Seq<char>, pattern: Seq<char>, at: int) -> bool {
    &&& 0 <= at
    &&& at + pattern.len() <= s.len()
    &&& s.subrange(at, at + pattern.len()) == pattern
}

/// The first position, from `from` on, at which `pattern` stands in `s`.
pub open spec fn find_from(s: Seq<char>, pattern: Seq<char>, from: int) -> Option<int>
    decreases s.len() + 1 - from,
{
    if from < 0 || from + pattern.len() > s.len() {
        None
    } else if occurs_at(s, pattern, from) {
        Some(from)
    } else {
        find_from(s, pattern, from + 1)
    }
}

/// The first position at which `pattern` stands in `s`.
pub open spec fn find_spec(s: Seq<char>, pattern: Seq<char>) -> Option<int> {
    find_from(s, pattern, 0)
}

/// Whether `s` begins with `prefix`.
pub open spec fn starts_with_spec(s: Seq<char>, prefix: Seq<char>) -> bool {
    occurs_at(s, prefix, 0)
}

/// The pieces of `s` between the occurrences of `c`. There is always at least
/// one piece.
pub open spec fn split_on_spec(s: Seq<char>, c: char) -> Seq<Seq<char>>
    decreases s.len(),
{
    if s.len() == 0 {
        seq![Seq::empty()]
    } else {
        let before = split_on_spec(s.drop_last(), c);
        if s.last() == c {
            before.push(Seq::empty())
        } else {
            before.update(before.len() - 1, before.last().push(s.last()))
        }
    }
}

/// `s` with every `from` replaced by `to`.
pub open spec fn replace_spec(s: Seq<char>, from: char, to: char) -> Seq<char> {
    s.map_values(|c: char| if c == from { to } else { c })
}

/// Whether `c` is one of the ten ASCII digits.
pub open spec fn is_digit(c: char) -> bool {
    '0' <= c <= '9'
}

/// The value of an ASCII digit.
pub open spec fn digit_value(c: char) -> int {
    c as int - '0' as int
}

/// Why a text is not the decimal notation of a number.
#[derive(Clone, Copy, Debug, PartialEq, Eq, Structural)]
pub enum NumberError {
    /// There is nothing to read.
    Empty,
    /// A character is not a digit, or a sign stands alone.
    InvalidDigit,
    /// The number is above the largest one that fits.
    PosOverflow,
    /// The number is below the smallest one that fits.
    NegOverflow,
}

/// The number that `digits` denote, read from the left and counted downwards
/// when `negative`; the first character that is no digit, or that takes the
/// number out of `min..=max`, decides the error.
pub open spec fn digits_spec(
    digits: Seq<char>,
    negative: bool,
    min: int,
    max: int,
) -> Result<int, NumberError>
    decreases digits.len(),
{
    if digits.len() == 0 {
        Ok(0)
    } else {
        match digits_spec(digits.drop_last(), negative, min, max) {
            Err(error) => Err(error),
            Ok(value) => if !is_digit(digits.last()) {
                Err(NumberError::InvalidDigit)
            } else if negative {
                let next = value * 10 - digit_value(digits.last());
                if next < min {
                    Err(NumberError::NegOverflow)
                } else {
                    Ok(next)
                }
            } else {
                let next = value * 10 + digit_value(digits.last());
                if next > max {
                    Err(NumberError::PosOverflow)
                } else {
                    Ok(next)
                }
            },
        }
    }
}

/// The number that `s` denotes: an optional sign and at least one digit.
pub open spec fn parse_i64_spec(s: Seq<char>) -> Result<int, NumberError> {
    if s.len() == 0 {
        Err(NumberError::Empty)
    } else if s.len() == 1 && (s[0] == '+' || s[0] == '-') {
        Err(NumberError::InvalidDigit)
    } else if s[0] == '-' {
        digits_spec(s.skip(1), true, i64::MIN as int, i64::MAX as int)
    } else if s[0] == '+' {
        digits_spec(s.skip(1), false, i64::MIN as int, i64::MAX as int)
    } else {
        digits_spec(s, false, i64::MIN as int, i64::MAX as int)
    }
}

/// The digit for a value below ten.
pub open spec fn digit_char(value: nat) -> char {
    ('0' as nat + value) as char
}

/// The decimal notation of `n`, without leading zeros.
pub open spec fn decimal_spec(n: nat) -> Seq<char>
    decreases n,
{
    if n < 10 {
        seq![digit_char(n)]
    } else {
        decimal_spec(n / 10).push(digit_char(n % 10))
    }
}

/// Trimming keeps a contiguous part of the text, and what is left neither
/// begins nor ends with white space.
pub proof fn law_trim_is_tight(s: Seq<char>)
    ensures
        exists|from: int, to: int|
            0 <= from <= to <= s.len() && trim_spec(s) == #[trigger] s.subrange(from, to),
        trim_spec(s).len() > 0 ==> !is_whitespace(trim_spec(s)[0]) && !is_whitespace(
            trim_spec(s).last(),
        ),
{
    let from = lemma_trim_start_is_suffix(s);
    let tail = trim_start_spec(s);
    let len = lemma_trim_end_is_prefix(tail);
    assert(trim_spec(s) =~= s.subrange(from, from + len));
    if trim_spec(s).len() > 0 {
        assert(trim_spec(s)[0] == tail[0]);
    }
}

proof fn lemma_trim_start_is_suffix(s: Seq<char>) -> (from: int)
    ensures
        0 <= from <= s.len(),
        trim_start_spec(s) == s.skip(from),
        trim_start_spec(s).len() > 0 ==> !is_whitespace(trim_start_spec(s)[0]),
    decreases s.len(),
{
    if s.len() > 0 && is_whitespace(s[0]) {
        let rest = lemma_trim_start_is_suffix(s.skip(1));
        assert(s.skip(1).skip(rest) =~= s.skip(rest + 1));
        rest + 1
    } else {
        assert(s.skip(0) =~= s);
        0
    }
}

proof fn lemma_trim_end_is_prefix(s: Seq<char>) -> (len: int)
    ensures
        0 <= len <= s.len(),
        trim_end_spec(s) == s.take(len),
        trim_end_spec(s).len() > 0 ==> !is_whitespace(trim_end_spec(s).last()),
    decreases s.len(),
{
    if s.len() > 0 && is_whitespace(s.last()) {
        let len = lemma_trim_end_is_prefix(s.drop_last());
        assert(s.drop_last().take(len) =~= s.take(len));
        len
    } else {
        assert(s.take(s.len() as int) =~= s);
        s.len() as int
    }
}

/// A found position is the first one at which the pattern stands, and a
/// pattern that is not found stands nowhere.
pub proof fn lemma_find_is_first(s: Seq<char>, pattern: Seq<char>, from: int)
    requires
        0 <= from,
    ensures
        match find_from(s, pattern, from) {
            Some(at) => {
                &&& from <= at
                &&& occurs_at(s, pattern, at)
                &&& forall|i: int| from <= i < at ==> !occurs_at(s, pattern, i)
            },
            None => forall|i: int| from <= i ==> !occurs_at(s, pattern, i),
        },
    decreases s.len() + 1 - from,
{
    if from + pattern.len() <= s.len() && !occurs_at(s, pattern, from) {
        lemma_find_is_first(s, pattern, from + 1);
    }
}

/// Splitting yields at least one piece.
pub proof fn lemma_split_nonempty(s: Seq<char>, c: char)
    ensures
        split_on_spec(s, c).len() > 0,
    decreases s.len(),
{
    if s.len() > 0 {
        lemma_split_nonempty(s.drop_last(), c);
    }
}

/// Behind a separator, text without the separator is a piece of its own.
pub proof fn lemma_split_behind_separator(before: Seq<char>, piece: Seq<char>, c: char)
    requires
        !piece.contains(c),
    ensures
        split_on_spec(before.push(c) + piece, c) == split_on_spec(before, c).push(piece),
    decreases piece.len(),
{
    let all = before.push(c) + piece;
    lemma_split_nonempty(before, c);
    if piece.len() == 0 {
        assert(all =~= before.push(c));
        assert(all.drop_last() =~= before);
        assert(piece =~= Seq::empty());
    } else {
        let shorter = piece.drop_last();
        assert(all.drop_last() =~= before.push(c) + shorter);
        assert(piece[piece.len() - 1] == piece.last());
        assert forall|i: int| 0 <= i < shorter.len() implies shorter[i] != c by {
            assert(shorter[i] == piece[i]);
        }
        lemma_split_behind_separator(before, shorter, c);
        let pieces = split_on_spec(before, c).push(shorter);
        assert(shorter.push(piece.last()) =~= piece);
        assert(pieces.update(pieces.len() - 1, shorter.push(piece.last())) =~= split_on_spec(
            before,
            c,
        ).push(piece));
    }
}

/// Text without the separator is one piece.
pub proof fn lemma_split_single(piece: Seq<char>, c: char)
    requires
        !piece.contains(c),
    ensures
        split_on_spec(piece, c) == seq![piece],
    decreases piece.len(),
{
    if piece.len() == 0 {
        assert(piece =~= Seq::empty());
    } else {
        let shorter = piece.drop_last();
        assert(piece[piece.len() - 1] == piece.last());
        assert forall|i: int| 0 <= i < shorter.len() implies shorter[i] != c by {
            assert(shorter[i] == piece[i]);
        }
        lemma_split_single(shorter, c);
        assert(shorter.push(piece.last()) =~= piece);
        assert(seq![shorter].update(0, shorter.push(piece.last())) =~= seq![piece]);
    }
}

/// Decimal notation consists of digits.
pub proof fn lemma_decimal_is_digits(n: nat)
    ensures
        decimal_spec(n).len() > 0,
        forall|i: int| 0 <= i < decimal_spec(n).len() ==> is_digit(#[trigger] decimal_spec(n)[i]),
    decreases n,
{
    if n >= 10 {
        lemma_decimal_is_digits(n / 10);
    }
}

/// Whether a text holds nothing but white space.
pub open spec fn all_white(s: Seq<char>) -> bool {
    forall|i: int| 0 <= i < s.len() ==> is_whitespace(#[trigger] s[i])
}

/// Trimming takes off exactly the white space on either side: what stands
/// between, from its first to its last character that is none, stays as it is.
pub proof fn law_trimming_keeps_the_text(before: Seq<char>, body: Seq<char>, behind: Seq<char>)
    requires
        all_white(before),
        all_white(behind),
        body.len() > 0 ==> !is_whitespace(body[0]) && !is_whitespace(body.last()),
    ensures
        trim_spec(before + body + behind) == body,
        body.len() > 0 ==> trim_start_spec(before + body + behind) == body + behind,
        body.len() > 0 ==> trim_end_spec(before + body + behind) == before + body,
        trim_start_spec(before).len() == 0,
        trim_end_spec(behind).len() == 0,
{
    let s = before + body + behind;
    assert(before + Seq::<char>::empty() =~= before);
    assert(Seq::<char>::empty() + behind =~= behind);
    lemma_trim_start_of(before, Seq::empty());
    lemma_trim_end_of(Seq::empty(), behind);
    assert(s =~= before + (body + behind));
    if body.len() > 0 {
        assert((body + behind)[0] == body[0]);
        lemma_trim_start_of(before, body + behind);
        lemma_trim_end_of(body, behind);
        assert((before + body).last() == body.last());
        lemma_trim_end_of(before + body, behind);
    } else {
        assert(s =~= before + behind);
        assert forall|i: int| 0 <= i < s.len() implies is_whitespace(#[trigger] s[i]) by {
            if i < before.len() {
                assert(s[i] == before[i]);
            } else {
                assert(s[i] == behind[i - before.len()]);
            }
        }
        assert(s + Seq::<char>::empty() =~= s);
        lemma_trim_start_of(s, Seq::empty());
        assert(body =~= Seq::empty());
    }
}

/// Trimming the start takes off the white space in front of a text.
pub proof fn lemma_trim_start_of(white: Seq<char>, rest: Seq<char>)
    requires
        all_white(white),
        rest.len() > 0 ==> !is_whitespace(rest[0]),
    ensures
        trim_start_spec(white + rest) == rest,
    decreases white.len(),
{
    let s = white + rest;
    if white.len() > 0 {
        assert(s[0] == white[0]);
        let less = white.skip(1);
        assert forall|i: int| 0 <= i < less.len() implies is_whitespace(#[trigger] less[i]) by {
            assert(less[i] == white[i + 1]);
        }
        lemma_trim_start_of(less, rest);
        assert(s.skip(1) =~= less + rest);
    } else {
        assert(s =~= rest);
    }
}

proof fn lemma_trim_end_of(rest: Seq<char>, white: Seq<char>)
    requires
        all_white(white),
        rest.len() > 0 ==> !is_whitespace(rest.last()),
    ensures
        trim_end_spec(rest + white) == rest,
    decreases white.len(),
{
    let s = rest + white;
    if white.len() > 0 {
        assert(s.last() == white[white.len() - 1]);
        let less = white.drop_last();
        assert forall|i: int| 0 <= i < less.len() implies is_whitespace(#[trigger] less[i]) by {
            assert(less[i] == white[i]);
        }
        lemma_trim_end_of(rest, less);
        assert(s.drop_last() =~= rest + less);
    } else {
        assert(s =~= rest);
    }
}

/// White space is what Unicode calls white space: the ASCII controls from tab
/// to carriage return, the space, and the spaces and line separators beyond
/// ASCII. No letter, digit or punctuation of ASCII is white space.
pub proof fn law_white_space(c: char)
    ensures
        c == ' ' || c == '\t' || c == '\n' || c == '\r' || c == '\u{b}' || c == '\u{c}'
            ==> is_whitespace(c),
        '!' <= c <= '~' ==> !is_whitespace(c),
        c < '\u{9}' || '\u{e}' <= c <= '\u{1f}' || c == '\u{7f}' ==> !is_whitespace(c),
        c == '\u{feff}' ==> !is_whitespace(c),
{
}

/// Stripping a leading character takes off its whole run and nothing else.
pub proof fn law_stripping_takes_the_run(run: Seq<char>, rest: Seq<char>, c: char)
    requires
        forall|i: int| 0 <= i < run.len() ==> #[trigger] run[i] == c,
        rest.len() > 0 ==> rest[0] != c,
    ensures
        strip_leading_spec(run + rest, c) == rest,
    decreases run.len(),
{
    let s = run + rest;
    if run.len() > 0 {
        assert(s[0] == run[0]);
        let less = run.skip(1);
        assert forall|i: int| 0 <= i < less.len() implies #[trigger] less[i] == c by {
            assert(less[i] == run[i + 1]);
        }
        law_stripping_takes_the_run(less, rest, c);
        assert(s.skip(1) =~= less + rest);
    } else {
        assert(s =~= rest);
    }
}

/// The leading word reaches up to the first white space, or to the end.
pub proof fn law_leading_word_ends_at_white_space(word: Seq<char>, rest: Seq<char>)
    requires
        forall|i: int| 0 <= i < word.len() ==> !is_whitespace(#[trigger] word[i]),
        rest.len() > 0 ==> is_whitespace(rest[0]),
    ensures
        leading_word_spec(word + rest) == word,
    decreases word.len(),
{
    let s = word + rest;
    if word.len() > 0 {
        assert(s[0] == word[0]);
        let less = word.skip(1);
        assert forall|i: int| 0 <= i < less.len() implies !is_whitespace(#[trigger] less[i]) by {
            assert(less[i] == word[i + 1]);
        }
        law_leading_word_ends_at_white_space(less, rest);
        assert(s.skip(1) =~= less + rest);
        assert(seq![word[0]] + less =~= word);
    } else {
        assert(s =~= rest);
        assert(word =~= Seq::empty());
    }
}

/// A search finds a pattern wherever it stands first, and finds nothing only
/// when it stands nowhere.
pub proof fn law_search_finds_the_first(s: Seq<char>, pattern: Seq<char>, at: int)
    requires
        0 <= at,
        at + pattern.len() <= s.len(),
        s.subrange(at, at + pattern.len()) == pattern,
    ensures
        find_spec(s, pattern) matches Some(first) && {
            &&& 0 <= first <= at
            &&& s.subrange(first, first + pattern.len()) == pattern
            &&& forall|i: int|
                0 <= i < first ==> #[trigger] s.subrange(i, i + pattern.len()) != pattern
        },
{
    lemma_find_is_first(s, pattern, 0);
    assert(occurs_at(s, pattern, at));
    if let Some(first) = find_spec(s, pattern) {
        assert forall|i: int| 0 <= i < first implies #[trigger] s.subrange(i, i + pattern.len())
            != pattern by {
            assert(!occurs_at(s, pattern, i));
        }
    }
}

/// What a search finds is there: where nothing was found, the pattern stands
/// nowhere.
pub proof fn law_search_misses_nothing(s: Seq<char>, pattern: Seq<char>)
    ensures
        match find_spec(s, pattern) {
            Some(at) => 0 <= at && at + pattern.len() <= s.len() && s.subrange(
                at,
                at + pattern.len(),
            ) == pattern,
            None => forall|i: int|
                0 <= i && i + pattern.len() <= s.len() ==> #[trigger] s.subrange(
                    i,
                    i + pattern.len(),
                ) != pattern,
        },
{
    lemma_find_is_first(s, pattern, 0);
    if find_spec(s, pattern) is None {
        assert forall|i: int| 0 <= i && i + pattern.len() <= s.len() implies #[trigger] s.subrange(
            i,
            i + pattern.len(),
        ) != pattern by {
            assert(!occurs_at(s, pattern, i));
        }
    }
}

/// A text begins with a prefix exactly when it is the prefix and something
/// behind it.
pub proof fn law_prefixes(s: Seq<char>, prefix: Seq<char>, rest: Seq<char>)
    ensures
        starts_with_spec(prefix + rest, prefix),
        starts_with_spec(s, prefix) ==> s == prefix + s.skip(prefix.len() as int),
{
    assert((prefix + rest).subrange(0, prefix.len() as int) =~= prefix);
    if starts_with_spec(s, prefix) {
        assert(s =~= s.subrange(0, prefix.len() as int) + s.skip(prefix.len() as int));
    }
}

/// Splitting works piece by piece: text without the separator is one piece, and
/// two texts with a separator between them have the pieces of the one and then
/// those of the other.
pub proof fn law_splitting_goes_piece_by_piece(a: Seq<char>, b: Seq<char>, c: char)
    ensures
        !a.contains(c) ==> split_on_spec(a, c) == seq![a],
        split_on_spec(a.push(c) + b, c) == split_on_spec(a, c) + split_on_spec(b, c),
    decreases b.len(),
{
    if !a.contains(c) {
        lemma_split_single(a, c);
    }
    lemma_split_nonempty(a, c);
    lemma_split_nonempty(b, c);
    let all = a.push(c) + b;
    if b.len() == 0 {
        assert(all =~= a.push(c));
        assert(all.drop_last() =~= a);
        assert(split_on_spec(all, c) =~= split_on_spec(a, c) + split_on_spec(b, c));
    } else {
        let shorter = b.drop_last();
        law_splitting_goes_piece_by_piece(a, shorter, c);
        lemma_split_nonempty(shorter, c);
        assert(all.drop_last() =~= a.push(c) + shorter);
        assert(all.last() == b.last());
        let pieces = split_on_spec(a, c) + split_on_spec(shorter, c);
        assert(pieces.last() == split_on_spec(shorter, c).last());
        assert(split_on_spec(all, c) =~= split_on_spec(a, c) + split_on_spec(b, c));
    }
}

/// Replacing a character changes every one of its occurrences and nothing
/// else.
pub proof fn law_replacing_changes_each_occurrence(s: Seq<char>, from: char, to: char)
    ensures
        replace_spec(s, from, to).len() == s.len(),
        forall|i: int|
            0 <= i < s.len() ==> (s[i] == from ==> #[trigger] replace_spec(s, from, to)[i] == to) && (
            s[i] != from ==> replace_spec(s, from, to)[i] == s[i]),
{
}

/// Whether a text consists of digits.
pub open spec fn all_digits(s: Seq<char>) -> bool {
    forall|i: int| 0 <= i < s.len() ==> '0' <= #[trigger] s[i] <= '9'
}

/// The value of a run of digits: ten times that of all but the last, and the
/// last.
pub open spec fn value_of(digits: Seq<char>) -> int
    decreases digits.len(),
{
    if digits.len() == 0 {
        0
    } else {
        10 * value_of(digits.drop_last()) + (digits.last() as int - 48)
    }
}

/// A run of digits denotes its value wherever that fits, however long the run
/// is; a value that does not fit and a character that is no digit are errors.
pub proof fn law_digits_denote_their_value(digits: Seq<char>, min: int, max: int)
    requires
        min <= 0 <= max,
    ensures
        all_digits(digits) && value_of(digits) <= max ==> digits_spec(digits, false, min, max)
            == Ok::<int, NumberError>(value_of(digits)),
        all_digits(digits) && value_of(digits) > max ==> digits_spec(digits, false, min, max)
            == Err::<int, NumberError>(NumberError::PosOverflow),
        all_digits(digits) && -value_of(digits) >= min ==> digits_spec(digits, true, min, max)
            == Ok::<int, NumberError>(-value_of(digits)),
        all_digits(digits) && -value_of(digits) < min ==> digits_spec(digits, true, min, max)
            == Err::<int, NumberError>(NumberError::NegOverflow),
        !all_digits(digits) ==> digits_spec(digits, false, min, max) is Err && digits_spec(
            digits,
            true,
            min,
            max,
        ) is Err,
        all_digits(digits) ==> value_of(digits) >= 0,
    decreases digits.len(),
{
    if digits.len() > 0 {
        let before = digits.drop_last();
        law_digits_denote_their_value(before, min, max);
        if all_digits(digits) {
            assert forall|i: int| 0 <= i < before.len() implies '0' <= #[trigger] before[i]
                <= '9' by {
                assert(before[i] == digits[i]);
            }
            assert('0' <= digits[digits.len() - 1] <= '9');
        } else if all_digits(before) {
            assert(!is_digit(digits.last())) by {
                if is_digit(digits.last()) {
                    assert forall|i: int| 0 <= i < digits.len() implies '0' <= #[trigger] digits[i]
                        <= '9' by {
                        if i < before.len() {
                            assert(before[i] == digits[i]);
                        }
                    }
                }
            }
        }
    }
}

/// A number is an optional sign and digits: it is read as the value of the
/// digits, negative behind a minus, wherever that fits into 64 bits. Nothing,
/// a sign alone, and text with anything but digits behind the sign are errors.
pub proof fn law_numbers_are_read(digits: Seq<char>)
    ensures
        parse_i64_spec(Seq::empty()) == Err::<int, NumberError>(NumberError::Empty),
        all_digits(digits) && digits.len() > 0 && value_of(digits) <= i64::MAX ==> {
            &&& parse_i64_spec(digits) == Ok::<int, NumberError>(value_of(digits))
            &&& parse_i64_spec(seq!['+'] + digits) == Ok::<int, NumberError>(value_of(digits))
            &&& parse_i64_spec(seq!['-'] + digits) == Ok::<int, NumberError>(-value_of(digits))
        },
        all_digits(digits) && value_of(digits) > i64::MAX ==> parse_i64_spec(digits) == Err::<
            int,
            NumberError,
        >(NumberError::PosOverflow),
        all_digits(digits) && -value_of(digits) < i64::MIN ==> parse_i64_spec(seq!['-'] + digits)
            == Err::<int, NumberError>(NumberError::NegOverflow),
        digits.len() == 0 || !all_digits(digits) ==> parse_i64_spec(seq!['+'] + digits) is Err
            && parse_i64_spec(seq!['-'] + digits) is Err,
        !all_digits(digits) && digits.len() > 0 && digits[0] != '+' && digits[0] != '-'
            ==> parse_i64_spec(digits) is Err,
{
    law_digits_denote_their_value(digits, i64::MIN as int, i64::MAX as int);
    assert((seq!['+'] + digits).skip(1) =~= digits);
    assert((seq!['-'] + digits).skip(1) =~= digits);
    if digits.len() > 0 && all_digits(digits) {
        assert('0' <= digits[0] <= '9');
    }
}

/// Decimal notation is read back as the number that it was made of, and has no
/// leading zero.
pub proof fn law_decimal_is_read_back(n: nat)
    ensures
        all_digits(decimal_spec(n)),
        value_of(decimal_spec(n)) == n,
        decimal_spec(n).len() > 0,
        n > 0 ==> decimal_spec(n)[0] != '0',
    decreases n,
{
    if n >= 10 {
        law_decimal_is_read_back(n / 10);
        let before = decimal_spec(n / 10);
        let digits = decimal_spec(n);
        assert(digits.drop_last() =~= before);
        assert forall|i: int| 0 <= i < digits.len() implies '0' <= #[trigger] digits[i] <= '9' by {
            if i < before.len() {
                assert(digits[i] == before[i]);
            }
        }
    } else {
        let digits = decimal_spec(n);
        assert(digits.drop_last() =~= Seq::empty());
        assert(value_of(digits.drop_last()) == 0);
        assert(digits.last() == digit_char(n));
    }
}

/// The characters of a string.
pub fn to_chars(s: &str) -> (chars: Vec<char>)
    ensures
        chars@ == s@,
{
    let mut chars: Vec<char> = Vec::new();
    for c in it: s.chars()
        invariant
            chars@ == it.seq().take(it.index()),
            it.seq() == s@,
    {
        chars.push(c);
    }
    chars
}

/// The string with the given characters.
pub fn from_chars(chars: &[char]) -> (s: String)
    ensures
        s@ == chars@,
{
    let mut s: String = String::new();
    push_chars(&mut s, chars);
    s
}

/// Appends characters to a string.
pub fn push_chars(s: &mut String, chars: &[char])
    ensures
        final(s)@ == old(s)@ + chars@,
{
    let mut i: usize = 0;
    while i < chars.len()
        invariant
            i <= chars.len(),
            s@ == old(s)@ + chars@.take(i as int),
        decreases chars.len() - i,
    {
        s.push(chars[i]);
        i += 1;
    }
}

/// Whether two texts are the same.
pub fn chars_equal(a: &[char], b: &[char]) -> (equal: bool)
    ensures
        equal == (a@ == b@),
{
    if a.len() != b.len() {
        return false;
    }
    let mut i: usize = 0;
    while i < a.len()
        invariant
            i <= a.len(),
            a.len() == b.len(),
            forall|j: int| 0 <= j < i ==> a@[j] == b@[j],
        decreases a.len() - i,
    {
        if a[i] != b[i] {
            return false;
        }
        i += 1;
    }
    assert(a@ =~= b@);
    true
}

/// Whether a character is white space.
pub fn char_is_whitespace(c: char) -> (white: bool)
    ensures
        white == is_whitespace(c),
{
    ('\u{9}' <= c && c <= '\u{d}') || c == ' ' || c == '\u{85}' || c == '\u{a0}' || c == '\u{1680}'
        || ('\u{2000}' <= c && c <= '\u{200a}') || c == '\u{2028}' || c == '\u{2029}' || c
        == '\u{202f}' || c == '\u{205f}' || c == '\u{3000}'
}

/// Removes leading white space.
pub fn trim_start(s: &[char]) -> (trimmed: &[char])
    ensures
        trimmed@ == trim_start_spec(s@),
{
    let mut i: usize = 0;
    assert(s@.skip(0) =~= s@);
    while i < s.len() && char_is_whitespace(s[i])
        invariant
            i <= s.len(),
            trim_start_spec(s@.skip(i as int)) == trim_start_spec(s@),
        decreases s.len() - i,
    {
        assert(s@.skip(i as int).skip(1) =~= s@.skip(i + 1));
        i += 1;
    }
    slice_subrange(s, i, s.len())
}

/// Removes trailing white space.
pub fn trim_end(s: &[char]) -> (trimmed: &[char])
    ensures
        trimmed@ == trim_end_spec(s@),
{
    let mut i: usize = s.len();
    assert(s@.take(i as int) =~= s@);
    while i > 0 && char_is_whitespace(s[i - 1])
        invariant
            i <= s.len(),
            trim_end_spec(s@.take(i as int)) == trim_end_spec(s@),
        decreases i,
    {
        assert(s@.take(i as int).drop_last() =~= s@.take(i - 1));
        i -= 1;
    }
    slice_subrange(s, 0, i)
}

/// Removes white space on both sides.
pub fn trim(s: &[char]) -> (trimmed: &[char])
    ensures
        trimmed@ == trim_spec(s@),
{
    trim_end(trim_start(s))
}

/// Removes a leading run of one character.
pub fn strip_leading(s: &[char], c: char) -> (stripped: &[char])
    ensures
        stripped@ == strip_leading_spec(s@, c),
{
    let mut i: usize = 0;
    assert(s@.skip(0) =~= s@);
    while i < s.len() && s[i] == c
        invariant
            i <= s.len(),
            strip_leading_spec(s@.skip(i as int), c) == strip_leading_spec(s@, c),
        decreases s.len() - i,
    {
        assert(s@.skip(i as int).skip(1) =~= s@.skip(i + 1));
        i += 1;
    }
    slice_subrange(s, i, s.len())
}

/// The text up to the first white space.
pub fn leading_word(s: &[char]) -> (word: &[char])
    ensures
        word@ == leading_word_spec(s@),
{
    let mut i: usize = 0;
    assert(s@.skip(0) =~= s@);
    while i < s.len() && !char_is_whitespace(s[i])
        invariant
            i <= s.len(),
            leading_word_spec(s@) == s@.take(i as int) + leading_word_spec(s@.skip(i as int)),
        decreases s.len() - i,
    {
        assert(s@.skip(i as int).skip(1) =~= s@.skip(i + 1));
        assert(s@.take(i as int) + (seq![s@[i as int]] + leading_word_spec(s@.skip(i + 1)))
            =~= s@.take(i + 1) + leading_word_spec(s@.skip(i + 1)));
        i += 1;
    }
    assert(s@.take(i as int) + Seq::<char>::empty() =~= s@.take(i as int));
    slice_subrange(s, 0, i)
}

/// Whether a pattern stands at a position of a text.
pub fn stands_at(s: &[char], pattern: &[char], at: usize) -> (found: bool)
    ensures
        found == occurs_at(s@, pattern@, at as int),
{
    if at > s.len() || pattern.len() > s.len() - at {
        return false;
    }
    chars_equal(slice_subrange(s, at, at + pattern.len()), pattern)
}

/// Whether a text begins with a prefix.
pub fn starts_with(s: &[char], prefix: &[char]) -> (found: bool)
    ensures
        found == starts_with_spec(s@, prefix@),
{
    stands_at(s, prefix, 0)
}

/// The first position of a pattern in a text.
pub fn find(s: &[char], pattern: &[char]) -> (at: Option<usize>)
    ensures
        match at {
            Some(i) => find_spec(s@, pattern@) == Some(i as int) && occurs_at(
                s@,
                pattern@,
                i as int,
            ),
            None => find_spec(s@, pattern@) is None,
        },
{
    if pattern.len() > s.len() {
        return None;
    }
    let last: usize = s.len() - pattern.len();
    let mut i: usize = 0;
    while i <= last
        invariant
            last == s.len() - pattern.len(),
            i <= last + 1,
            find_from(s@, pattern@, i as int) == find_spec(s@, pattern@),
        decreases last + 1 - i,
    {
        if stands_at(s, pattern, i) {
            return Some(i);
        }
        if i == last {
            assert(find_from(s@, pattern@, i + 1) is None);
            return None;
        }
        i += 1;
    }
    None
}

/// Splits a text at every occurrence of a character.
pub fn split_on<'a>(s: &'a [char], c: char) -> (pieces: Vec<&'a [char]>)
    ensures
        pieces@.len() == split_on_spec(s@, c).len(),
        forall|i: int| 0 <= i < pieces@.len() ==> (#[trigger] pieces@[i])@ == split_on_spec(s@, c)[i],
{
    let mut pieces: Vec<&'a [char]> = Vec::new();
    let mut start: usize = 0;
    let mut i: usize = 0;
    assert(s@.take(0) =~= Seq::empty());
    assert(s@.subrange(0, 0) =~= Seq::empty());
    while i < s.len()
        invariant
            start <= i <= s.len(),
            split_on_spec(s@.take(i as int), c).len() == pieces@.len() + 1,
            split_on_spec(s@.take(i as int), c).last() == s@.subrange(start as int, i as int),
            forall|j: int|
                0 <= j < pieces@.len() ==> (#[trigger] pieces@[j])@ == split_on_spec(
                    s@.take(i as int),
                    c,
                )[j],
        decreases s.len() - i,
    {
        assert(s@.take(i + 1).drop_last() =~= s@.take(i as int));
        assert(s@.take(i + 1).last() == s@[i as int]);
        if s[i] == c {
            pieces.push(slice_subrange(s, start, i));
            start = i + 1;
            assert(s@.subrange(start as int, i + 1) =~= Seq::empty());
        } else {
            assert(s@.subrange(start as int, i as int).push(s@[i as int]) =~= s@.subrange(
                start as int,
                i + 1,
            ));
        }
        i += 1;
    }
    assert(s@.take(s.len() as int) =~= s@);
    pieces.push(slice_subrange(s, start, s.len()));
    pieces
}

/// Replaces one character by another throughout a text.
pub fn replace(s: &[char], from: char, to: char) -> (replaced: Vec<char>)
    ensures
        replaced@ == replace_spec(s@, from, to),
{
    let mut replaced: Vec<char> = Vec::new();
    let mut i: usize = 0;
    while i < s.len()
        invariant
            i <= s.len(),
            replaced@.len() == i,
            forall|j: int|
                0 <= j < i ==> #[trigger] replaced@[j] == (if s@[j] == from {
                    to
                } else {
                    s@[j]
                }),
        decreases s.len() - i,
    {
        let c = s[i];
        replaced.push(
            if c == from {
                to
            } else {
                c
            },
        );
        i += 1;
    }
    assert(replaced@ =~= replace_spec(s@, from, to));
    replaced
}

/// Reads a run of digits, counting downwards when `negative`.
pub fn parse_digits(digits: &[char], negative: bool) -> (number: Result<i64, NumberError>)
    ensures
        match (number, digits_spec(digits@, negative, i64::MIN as int, i64::MAX as int)) {
            (Ok(value), Ok(expected)) => value == expected,
            (Err(error), Err(expected)) => error == expected,
            _ => false,
        },
        !negative ==> (number matches Ok(value) ==> value >= 0),
{
    let ghost min = i64::MIN as int;
    let ghost max = i64::MAX as int;
    let mut value: i64 = 0;
    let mut i: usize = 0;
    assert(digits@.take(0) =~= Seq::empty());
    while i < digits.len()
        invariant
            i <= digits.len(),
            min == i64::MIN,
            max == i64::MAX,
            digits_spec(digits@.take(i as int), negative, min, max) == Ok::<int, NumberError>(
                value as int,
            ),
            negative ==> value <= 0,
            !negative ==> value >= 0,
        decreases digits.len() - i,
    {
        assert(digits@.take(i + 1).drop_last() =~= digits@.take(i as int));
        let c = digits[i];
        let wide: i128 = value as i128;
        let next: i128;
        let failure: Option<NumberError>;
        if !('0' <= c && c <= '9') {
            next = 0;
            failure = Some(NumberError::InvalidDigit);
        } else if negative {
            next = wide * 10 - (c as u32 as i128 - 48);
            failure = if next < i64::MIN as i128 {
                Some(NumberError::NegOverflow)
            } else {
                None
            };
        } else {
            next = wide * 10 + (c as u32 as i128 - 48);
            failure = if next > i64::MAX as i128 {
                Some(NumberError::PosOverflow)
            } else {
                None
            };
        }
        if let Some(error) = failure {
            proof {
                lemma_digits_error_stays(digits@, (i + 1) as nat, negative, min, max);
            }
            return Err(error);
        }
        value = next as i64;
        i += 1;
    }
    assert(digits@.take(digits.len() as int) =~= digits@);
    Ok(value)
}

proof fn lemma_digits_error_stays(digits: Seq<char>, upto: nat, negative: bool, min: int, max: int)
    requires
        upto <= digits.len(),
        digits_spec(digits.take(upto as int), negative, min, max) is Err,
    ensures
        digits_spec(digits, negative, min, max) == digits_spec(
            digits.take(upto as int),
            negative,
            min,
            max,
        ),
    decreases digits.len(),
{
    if upto < digits.len() {
        assert(digits.drop_last().take(upto as int) =~= digits.take(upto as int));
        lemma_digits_error_stays(digits.drop_last(), upto, negative, min, max);
    } else {
        assert(digits.take(upto as int) =~= digits);
    }
}

/// Reads a decimal number with an optional sign.
pub fn parse_i64(s: &[char]) -> (number: Result<i64, NumberError>)
    ensures
        match (number, parse_i64_spec(s@)) {
            (Ok(value), Ok(expected)) => value == expected,
            (Err(error), Err(expected)) => error == expected,
            _ => false,
        },
{
    if s.len() == 0 {
        return Err(NumberError::Empty);
    }
    if s.len() == 1 && (s[0] == '+' || s[0] == '-') {
        return Err(NumberError::InvalidDigit);
    }
    if s[0] == '-' {
        parse_digits(slice_subrange(s, 1, s.len()), true)
    } else if s[0] == '+' {
        parse_digits(slice_subrange(s, 1, s.len()), false)
    } else {
        parse_digits(s, false)
    }
}

/// Appends the decimal notation of a number to a string.
pub fn push_decimal(s: &mut String, n: usize)
    ensures
        final(s)@ == old(s)@ + decimal_spec(n as nat),
    decreases n,
{
    if n >= 10 {
        push_decimal(s, n / 10);
    }
    s.push((48u8 + (n % 10) as u8) as char);
}

} // verus!
