//! Segments and the names of their files: `<state><id>.log`, where `<state>`
//! is `?` for a segment that takes appends and `#` for a compacted one, and
//! `<id>` is the segment id in decimal, without leading zeros.

use vstd::prelude::*;

verus! {

/// Whether a segment is written by the log writer or by the compactor.
#[derive(Clone, Copy, Debug, PartialEq, Eq, Structural)]
pub enum LogState {
    /// Produced by compaction: live records only, read-only afterwards.
    Compacted,
    /// Written by the log writer during normal operation.
    Write,
}

/// The flag character that stands for `state` at the start of a file name.
pub open spec fn spec_state_flag(state: LogState) -> char {
    match state {
        LogState::Compacted => '#',
        LogState::Write => '?',
    }
}

/// The flag character that stands for `state` at the start of a file name.
pub fn get_state_flag(state: LogState) -> (flag: char)
    ensures
        flag == spec_state_flag(state),
{
    match state {
        LogState::Compacted => '#',
        LogState::Write => '?',
    }
}

/// The character of one decimal digit.
pub open spec fn digit_char(digit: nat) -> char {
    if digit == 0 {
        '0'
    } else if digit == 1 {
        '1'
    } else if digit == 2 {
        '2'
    } else if digit == 3 {
        '3'
    } else if digit == 4 {
        '4'
    } else if digit == 5 {
        '5'
    } else if digit == 6 {
        '6'
    } else if digit == 7 {
        '7'
    } else if digit == 8 {
        '8'
    } else {
        '9'
    }
}

/// The digit that a character stands for, or 10 if it is no digit.
pub open spec fn digit_value(c: char) -> nat {
    if c == '0' {
        0
    } else if c == '1' {
        1
    } else if c == '2' {
        2
    } else if c == '3' {
        3
    } else if c == '4' {
        4
    } else if c == '5' {
        5
    } else if c == '6' {
        6
    } else if c == '7' {
        7
    } else if c == '8' {
        8
    } else if c == '9' {
        9
    } else {
        10
    }
}

/// The decimal numeral of `n`, most significant digit first.
pub open spec fn decimal(n: nat) -> Seq<char>
    decreases n,
{
    if n < 10 {
        seq![digit_char(n)]
    } else {
        decimal(n / 10).push(digit_char(n % 10))
    }
}

/// The number that a sequence of digits denotes, read as a decimal numeral.
pub open spec fn numeral_value(digits: Seq<char>) -> nat
    decreases digits.len(),
{
    if digits.len() == 0 {
        0
    } else {
        10 * numeral_value(digits.drop_last()) + digit_value(digits.last())
    }
}

/// A non-empty run of digits that does not start with a needless zero.
pub open spec fn is_numeral(digits: Seq<char>) -> bool {
    &&& digits.len() > 0
    &&& forall|i: int| 0 <= i < digits.len() ==> digit_value(#[trigger] digits[i]) < 10
    &&& (digits.len() > 1 ==> digits[0] != '0')
}

/// The extension of a segment file, with its dot.
pub open spec fn log_suffix() -> Seq<char> {
    seq!['.', 'l', 'o', 'g']
}

/// The file name of the segment with this id and state.
pub open spec fn segment_file_name(id: u64, state: LogState) -> Seq<char> {
    seq![spec_state_flag(state)] + decimal(id as nat) + log_suffix()
}

/// Every numeral of a number is well formed and denotes that number.
pub proof fn lemma_decimal_numeral(n: nat)
    ensures
        is_numeral(decimal(n)),
        numeral_value(decimal(n)) == n,
        n > 0 ==> decimal(n)[0] != '0',
    decreases n,
{
    if n < 10 {
        let d = decimal(n);
        assert(d.drop_last() =~= Seq::<char>::empty());
        assert(numeral_value(d.drop_last()) == 0);
    } else {
        lemma_decimal_numeral(n / 10);
        let front = decimal(n / 10);
        let d = decimal(n);
        assert(d.drop_last() =~= front);
        assert(d.last() == digit_char(n % 10));
        assert(d[0] == front[0]);
        assert forall|i: int| 0 <= i < d.len() implies digit_value(#[trigger] d[i]) < 10 by {
            if i < front.len() {
                assert(d[i] == front[i]);
            }
        }
    }
}

/// A well-formed numeral is the numeral of the number it denotes.
pub proof fn lemma_numeral_decimal(digits: Seq<char>)
    requires
        is_numeral(digits),
    ensures
        decimal(numeral_value(digits)) == digits,
    decreases digits.len(),
{
    let front = digits.drop_last();
    let last = digits.last();
    assert(digit_char(digit_value(last)) == last);
    if digits.len() == 1 {
        assert(front =~= Seq::<char>::empty());
        assert(numeral_value(front) == 0);
        assert(decimal(digit_value(last)) =~= digits);
    } else {
        assert(is_numeral(front)) by {
            assert forall|i: int| 0 <= i < front.len() implies digit_value(#[trigger] front[i])
                < 10 by {
                assert(front[i] == digits[i]);
            }
            assert(front[0] == digits[0]);
        }
        lemma_numeral_decimal(front);
        lemma_numeral_positive(front);
        let v = numeral_value(front);
        let n = numeral_value(digits);
        assert(n == 10 * v + digit_value(last));
        assert(n / 10 == v && n % 10 == digit_value(last)) by (nonlinear_arith)
            requires
                n == 10 * v + digit_value(last),
                digit_value(last) < 10,
        ;
        assert(decimal(n) =~= digits);
    }
}

/// A well-formed numeral denotes zero only if it is the single digit `0`.
pub proof fn lemma_numeral_positive(digits: Seq<char>)
    requires
        is_numeral(digits),
    ensures
        digits.len() > 1 || digits[0] != '0' ==> numeral_value(digits) > 0,
    decreases digits.len(),
{
    let front = digits.drop_last();
    if digits.len() == 1 {
        assert(front =~= Seq::<char>::empty());
        assert(numeral_value(front) == 0);
    } else {
        assert(is_numeral(front)) by {
            assert forall|i: int| 0 <= i < front.len() implies digit_value(#[trigger] front[i])
                < 10 by {
                assert(front[i] == digits[i]);
            }
            assert(front[0] == digits[0]);
        }
        lemma_numeral_positive(front);
        if front.len() == 1 {
            assert(front[0] == digits[0]);
        }
    }
}

/// Two segments with the same file name are the same segment.
pub proof fn lemma_file_name_injective(id: u64, state: LogState, other: u64, other_state: LogState)
    requires
        segment_file_name(id, state) == segment_file_name(other, other_state),
    ensures
        id == other,
        state == other_state,
{
    let name = segment_file_name(id, state);
    let other_name = segment_file_name(other, other_state);
    assert(name[0] == spec_state_flag(state));
    assert(other_name[0] == spec_state_flag(other_state));
    let digits = decimal(id as nat);
    let other_digits = decimal(other as nat);
    assert(name.len() == 1 + digits.len() + 4);
    assert(other_name.len() == 1 + other_digits.len() + 4);
    assert(name.subrange(1, 1 + digits.len() as int) =~= digits);
    assert(other_name.subrange(1, 1 + other_digits.len() as int) =~= other_digits);
    lemma_decimal_numeral(id as nat);
    lemma_decimal_numeral(other as nat);
}

/// The one-character text of a decimal digit.
fn digit_text(digit: u64) -> (text: &'static str)
    requires
        digit < 10,
    ensures
        text@ == seq![digit_char(digit as nat)],
{
    proof {
        reveal_strlit("0");
        reveal_strlit("1");
        reveal_strlit("2");
        reveal_strlit("3");
        reveal_strlit("4");
        reveal_strlit("5");
        reveal_strlit("6");
        reveal_strlit("7");
        reveal_strlit("8");
        reveal_strlit("9");
    }
    let text = if digit == 0 {
        "0"
    } else if digit == 1 {
        "1"
    } else if digit == 2 {
        "2"
    } else if digit == 3 {
        "3"
    } else if digit == 4 {
        "4"
    } else if digit == 5 {
        "5"
    } else if digit == 6 {
        "6"
    } else if digit == 7 {
        "7"
    } else if digit == 8 {
        "8"
    } else {
        "9"
    };
    assert(text@ =~= seq![digit_char(digit as nat)]);
    text
}

/// Writes `n` in decimal.
fn decimal_text(n: u64) -> (text: String)
    ensures
        text@ == decimal(n as nat),
    decreases n,
{
    if n < 10 {
        digit_text(n).to_owned()
    } else {
        let mut text = decimal_text(n / 10);
        text.append(digit_text(n % 10));
        assert(text@ =~= decimal(n as nat));
        text
    }
}

/// The file name of the segment `log` in state `log_state`.
pub fn log_file_name(log: u64, log_state: LogState) -> (name: String)
    ensures
        name@ == segment_file_name(log, log_state),
{
    proof {
        reveal_strlit("#");
        reveal_strlit("?");
        reveal_strlit(".log");
    }
    let mut name = match log_state {
        LogState::Compacted => "#".to_owned(),
        LogState::Write => "?".to_owned(),
    };
    assert(name@ =~= seq![spec_state_flag(log_state)]);
    let digits = decimal_text(log);
    name.append(digits.as_str());
    name.append(".log");
    assert(".log"@ =~= log_suffix());
    name
}

/// Names a new segment after the counter's value and moves the counter on.
pub fn create_new_filename(state: LogState, log_counter: &mut u64) -> (name: String)
    requires
        *old(log_counter) < u64::MAX,
    ensures
        name@ == segment_file_name(*old(log_counter), state),
        *final(log_counter) == *old(log_counter) + 1,
{
    let name = log_file_name(*log_counter, state);
    *log_counter = *log_counter + 1;
    name
}

/// Reads a segment's id and state off its file name. Names of any other
/// form give `None`.
pub fn parse_filename(name: &str) -> (parsed: Option<(u64, LogState)>)
    ensures
        match parsed {
            Some((id, state)) => name@ == segment_file_name(id, state),
            None => forall|id: u64, state: LogState| name@ != segment_file_name(id, state),
        },
{
    let len = name.unicode_len();
    if len < 6 {
        proof {
            assert forall|id: u64, state: LogState| name@ != segment_file_name(id, state) by {
                lemma_decimal_numeral(id as nat);
            }
        }
        return None;
    }
    let flag = name.get_char(0);
    let state = if flag == '#' {
        LogState::Compacted
    } else if flag == '?' {
        LogState::Write
    } else {
        proof {
            assert forall|id: u64, state: LogState| name@ != segment_file_name(id, state) by {
                assert(segment_file_name(id, state)[0] == spec_state_flag(state));
            }
        }
        return None;
    };
    let digits_end = len - 4;
    let ghost digits = name@.subrange(1, digits_end as int);
    if name.get_char(digits_end) != '.' || name.get_char(digits_end + 1) != 'l' || name.get_char(
        digits_end + 2,
    ) != 'o' || name.get_char(digits_end + 3) != 'g' {
        proof {
            assert forall|id: u64, other: LogState| name@ != segment_file_name(id, other) by {
                let full = segment_file_name(id, other);
                lemma_decimal_numeral(id as nat);
                if name@ == full {
                    let d = decimal(id as nat);
                    assert(full.len() == 1 + d.len() + 4);
                    assert(full[digits_end as int] == log_suffix()[0]);
                    assert(full[digits_end + 1] == log_suffix()[1]);
                    assert(full[digits_end + 2] == log_suffix()[2]);
                    assert(full[digits_end + 3] == log_suffix()[3]);
                }
            }
        }
        return None;
    }
    if digits_end > 2 && name.get_char(1) == '0' {
        proof {
            assert forall|id: u64, other: LogState| name@ != segment_file_name(id, other) by {
                let full = segment_file_name(id, other);
                lemma_decimal_numeral(id as nat);
                if name@ == full {
                    let d = decimal(id as nat);
                    assert(full.len() == 1 + d.len() + 4);
                    assert(full[1] == d[0]);
                }
            }
        }
        return None;
    }
    let mut value: u64 = 0;
    let mut i: usize = 1;
    while i < digits_end
        invariant
            1 <= i <= digits_end,
            digits_end == len - 4,
            len == name@.len(),
            digits == name@.subrange(1, digits_end as int),
            value == numeral_value(digits.subrange(0, i - 1)),
            forall|j: int| 0 <= j < i - 1 ==> digit_value(#[trigger] digits[j]) < 10,
        decreases digits_end - i,
    {
        let c = name.get_char(i);
        let digit: u64 = if c == '0' {
            0
        } else if c == '1' {
            1
        } else if c == '2' {
            2
        } else if c == '3' {
            3
        } else if c == '4' {
            4
        } else if c == '5' {
            5
        } else if c == '6' {
            6
        } else if c == '7' {
            7
        } else if c == '8' {
            8
        } else if c == '9' {
            9
        } else {
            proof {
                assert(digits[i - 1] == c);
                assert forall|id: u64, other: LogState| name@ != segment_file_name(
                    id,
                    other,
                ) by {
                    let full = segment_file_name(id, other);
                    lemma_decimal_numeral(id as nat);
                    if name@ == full {
                        let d = decimal(id as nat);
                        assert(full.len() == 1 + d.len() + 4);
                        assert(full[i as int] == d[i - 1]);
                    }
                }
            }
            return None;
        };
        proof {
            assert(digits[i - 1] == c);
            assert(digit == digit_value(c));
            let next = digits.subrange(0, i as int);
            assert(next.drop_last() =~= digits.subrange(0, i - 1));
            assert(next.last() == c);
            assert(numeral_value(next) == 10 * value + digit);
        }
        if value > (u64::MAX - digit) / 10 {
            proof {
                let next = digits.subrange(0, i as int);
                assert(numeral_value(next) > u64::MAX);
                lemma_prefix_value(digits, i as int);
                assert forall|id: u64, other: LogState| name@ != segment_file_name(
                    id,
                    other,
                ) by {
                    let full = segment_file_name(id, other);
                    lemma_decimal_numeral(id as nat);
                    if name@ == full {
                        let d = decimal(id as nat);
                        assert(full.len() == 1 + d.len() + 4);
                        assert(d =~= digits);
                    }
                }
            }
            return None;
        }
        value = value * 10 + digit;
        i = i + 1;
    }
    proof {
        assert(digits.subrange(0, digits.len() as int) =~= digits);
        assert(is_numeral(digits)) by {
            assert(digits[0] == name@[1]);
        }
        lemma_numeral_decimal(digits);
        assert(name@ =~= segment_file_name(value, state)) by {
            let full = segment_file_name(value, state);
            assert(full.len() == name@.len());
            assert forall|j: int| 0 <= j < full.len() implies full[j] == name@[j] by {
                if j == 0 {
                } else if j < digits_end {
                    assert(full[j] == digits[j - 1]);
                } else {
                    assert(full[j] == log_suffix()[j - digits_end]);
                }
            }
        }
    }
    Some((value, state))
}

/// A run of digits denotes at least what any of its prefixes denotes.
pub proof fn lemma_prefix_value(digits: Seq<char>, cut: int)
    requires
        0 <= cut <= digits.len(),
    ensures
        numeral_value(digits.subrange(0, cut)) <= numeral_value(digits),
    decreases digits.len() - cut,
{
    if cut == digits.len() {
        assert(digits.subrange(0, cut) =~= digits);
    } else {
        lemma_prefix_value(digits.drop_last(), cut);
        assert(digits.drop_last().subrange(0, cut) =~= digits.subrange(0, cut));
    }
}

} // verus!
