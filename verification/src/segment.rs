//! The names of segment files: the id in decimal, then `.log`.

use vstd::prelude::*;
use vstd::string::{StrSliceExecFns, StringExecFns};
use crate::log::ascending;

verus! {

/// The character of a decimal digit.
pub open spec fn digit_char(d: nat) -> char {
    if d == 0 {
        '0'
    } else if d == 1 {
        '1'
    } else if d == 2 {
        '2'
    } else if d == 3 {
        '3'
    } else if d == 4 {
        '4'
    } else if d == 5 {
        '5'
    } else if d == 6 {
        '6'
    } else if d == 7 {
        '7'
    } else if d == 8 {
        '8'
    } else {
        '9'
    }
}

/// The digit that a character stands for, or 10 where it is no digit.
pub open spec fn char_digit(c: char) -> nat {
    if c == '0' {
        0
    } else if c == '1' {
        1
    } else if c == '2' {
        2
    } else if c == '3' {
        3
    } else if c == '4' {
        4
    } else if c == '5' {
        5
    } else if c == '6' {
        6
    } else if c == '7' {
        7
    } else if c == '8' {
        8
    } else if c == '9' {
        9
    } else {
        10
    }
}

/// A number in decimal, without leading zeros.
pub open spec fn decimal(n: nat) -> Seq<char>
    decreases n,
{
    if n < 10 {
        seq![digit_char(n)]
    } else {
        decimal(n / 10).push(digit_char(n % 10))
    }
}

/// The number that a string of digits stands for.
pub open spec fn digits_value(digits: Seq<char>) -> nat
    decreases digits.len(),
{
    if digits.len() == 0 {
        0
    } else {
        digits_value(digits.drop_last()) * 10 + char_digit(digits.last())
    }
}

/// The characters `.log`.
pub open spec fn suffix() -> Seq<char> {
    seq!['.', 'l', 'o', 'g']
}

/// The name of the file of segment `id`.
pub open spec fn log_name_text(id: u32) -> Seq<char> {
    decimal(id as nat) + suffix()
}

/// The id of the segment that a file name names, if it names one.
pub open spec fn named_segment(name: Seq<char>) -> Option<u32> {
    if exists|id: u32| log_name_text(id) == name {
        Some(choose|id: u32| log_name_text(id) == name)
    } else {
        None
    }
}

/// The digits of a number stand for the number, and are digits.
pub proof fn lemma_decimal_value(n: nat)
    ensures
        digits_value(decimal(n)) == n,
        decimal(n).len() >= 1,
        forall|i: int| 0 <= i < decimal(n).len() ==> char_digit(#[trigger] decimal(n)[i]) < 10,
    decreases n,
{
    if n < 10 {
        assert(decimal(n).drop_last() =~= Seq::<char>::empty());
        assert(digits_value(Seq::<char>::empty()) == 0);
    } else {
        lemma_decimal_value(n / 10);
        assert(decimal(n).drop_last() =~= decimal(n / 10));
    }
}

/// No number below 2^32 has more than ten digits.
pub proof fn lemma_decimal_len(n: nat)
    requires
        n <= u32::MAX,
    ensures
        decimal(n).len() <= 10,
{
    reveal_with_fuel(decimal, 11);
}

/// Two ids with the same file name are the same id.
pub proof fn lemma_log_name_unique(one: u32, other: u32)
    requires
        log_name_text(one) == log_name_text(other),
    ensures
        one == other,
{
    let a = decimal(one as nat);
    let b = decimal(other as nat);
    let name = log_name_text(one);
    assert(a =~= name.subrange(0, name.len() - 4));
    assert(b =~= log_name_text(other).subrange(0, name.len() - 4));
    lemma_decimal_value(one as nat);
    lemma_decimal_value(other as nat);
}

/// A file name names the segment that it is the name of.
pub proof fn lemma_named_segment(id: u32)
    ensures
        named_segment(log_name_text(id)) == Some(id),
{
    let found = choose|found: u32| log_name_text(found) == log_name_text(id);
    lemma_log_name_unique(found, id);
}

/// The text of a digit.
fn digit_str(d: u32) -> (text: &'static str)
    requires
        d < 10,
    ensures
        text@ == seq![digit_char(d as nat)],
{
    proof {
        reveal_strlit("0");
        reveal_strlit("1");
        reveal_strlit("2");
        reveal_strlit("3");
        reveal_strlit("4");
        reveal_strlit("5");
        reveal_strlit("6");
        reveal_strlit("7");
        reveal_strlit("8");
        reveal_strlit("9");
    }
    let text = if d == 0 {
        "0"
    } else if d == 1 {
        "1"
    } else if d == 2 {
        "2"
    } else if d == 3 {
        "3"
    } else if d == 4 {
        "4"
    } else if d == 5 {
        "5"
    } else if d == 6 {
        "6"
    } else if d == 7 {
        "7"
    } else if d == 8 {
        "8"
    } else {
        "9"
    };
    assert(text@ =~= seq![digit_char(d as nat)]);
    text
}

/// A number in decimal.
fn decimal_string(n: u32) -> (text: String)
    ensures
        text@ == decimal(n as nat),
    decreases n,
{
    if n < 10 {
        String::from_str(digit_str(n))
    } else {
        let text = decimal_string(n / 10).concat(digit_str(n % 10));
        assert(text@ =~= decimal((n / 10) as nat).push(digit_char((n % 10) as nat)));
        text
    }
}

/// The name of the file of segment `log_id`: `0.log`, `1.log`, and so on.
pub fn log_name(log_id: u32) -> (name: String)
    ensures
        name@ == log_name_text(log_id),
{
    proof {
        reveal_strlit(".log");
    }
    let name = decimal_string(log_id).concat(".log");
    assert(name@ =~= log_name_text(log_id));
    name
}

/// The id of the segment that `name` names; nothing where `name` is not the
/// name of a segment's file.
pub fn segment_id(name: &str) -> (id: Option<u32>)
    ensures
        id == named_segment(name@),
{
    let len = name.unicode_len();
    if len < 5 || len > 14 {
        proof {
            if exists|id: u32| log_name_text(id) == name@ {
                let id = choose|id: u32| log_name_text(id) == name@;
                lemma_decimal_value(id as nat);
                lemma_decimal_len(id as nat);
            }
        }
        return None;
    }
    let digits = len - 4;
    let mut value: u64 = 0;
    let mut i: usize = 0;
    while i < digits
        invariant
            i <= digits,
            digits == len - 4,
            len == name@.len(),
            5 <= len <= 14,
            value == digits_value(name@.subrange(0, i as int)),
            value < pow10(i as nat),
            forall|j: int| 0 <= j < i ==> char_digit(#[trigger] name@[j]) < 10,
        decreases digits - i,
    {
        let c = name.get_char(i);
        let d: u64 = if c == '0' {
            0
        } else if c == '1' {
            1
        } else if c == '2' {
            2
        } else if c == '3' {
            3
        } else if c == '4' {
            4
        } else if c == '5' {
            5
        } else if c == '6' {
            6
        } else if c == '7' {
            7
        } else if c == '8' {
            8
        } else if c == '9' {
            9
        } else {
            proof {
                if exists|id: u32| log_name_text(id) == name@ {
                    let id = choose|id: u32| log_name_text(id) == name@;
                    lemma_decimal_value(id as nat);
                    assert(decimal(id as nat)[i as int] == name@[i as int]);
                }
            }
            return None;
        };
        proof {
            lemma_pow10(i as nat);
            lemma_pow10(10);
            lemma_pow10_grows(i as nat, 10);
            assert(name@.subrange(0, i + 1).drop_last() =~= name@.subrange(0, i as int));
        }
        value = value * 10 + d;
        i = i + 1;
    }
    proof {
        lemma_pow10(10);
        lemma_pow10_grows(digits as nat, 10);
        if exists|id: u32| log_name_text(id) == name@ {
            let id = choose|id: u32| log_name_text(id) == name@;
            lemma_decimal_value(id as nat);
            assert(decimal(id as nat) =~= name@.subrange(0, digits as int));
        }
    }
    if value > u32::MAX as u64 {
        return None;
    }
    let id = value as u32;
    let expected = log_name(id);
    if same_text(expected.as_str(), name) {
        proof {
            lemma_named_segment(id);
        }
        Some(id)
    } else {
        None
    }
}

/// Ten to the power `n`.
pub open spec fn pow10(n: nat) -> nat
    decreases n,
{
    if n == 0 {
        1
    } else {
        10 * pow10((n - 1) as nat)
    }
}

proof fn lemma_pow10(n: nat)
    ensures
        pow10(n) >= 1,
        pow10(n + 1) == 10 * pow10(n),
        n == 10 ==> pow10(n) == 10_000_000_000,
    decreases n,
{
    reveal_with_fuel(pow10, 12);
    if n > 0 {
        lemma_pow10((n - 1) as nat);
    }
}

proof fn lemma_pow10_grows(a: nat, b: nat)
    requires
        a <= b,
    ensures
        pow10(a) <= pow10(b),
    decreases b,
{
    if a < b {
        lemma_pow10_grows(a, (b - 1) as nat);
        lemma_pow10((b - 1) as nat);
    }
}

/// Whether two texts are the same.
pub fn same_text(a: &str, b: &str) -> (same: bool)
    ensures
        same == (a@ == b@),
{
    let n = a.unicode_len();
    if n != b.unicode_len() {
        return false;
    }
    let mut i: usize = 0;
    while i < n
        invariant
            i <= n,
            n == a@.len(),
            n == b@.len(),
            a@.subrange(0, i as int) == b@.subrange(0, i as int),
        decreases n - i,
    {
        if a.get_char(i) != b.get_char(i) {
            return false;
        }
        i = i + 1;
        assert(a@.subrange(0, i as int) =~= a@.subrange(0, i - 1).push(a@[i - 1]));
        assert(b@.subrange(0, i as int) =~= b@.subrange(0, i - 1).push(b@[i - 1]));
    }
    assert(a@ =~= a@.subrange(0, n as int));
    assert(b@ =~= b@.subrange(0, n as int));
    true
}

/// Puts `id` at its place among ascending ids, unless it stands there
/// already.
fn insert_ascending(ids: &mut Vec<u32>, id: u32)
    requires
        ascending(old(ids)@),
    ensures
        ascending(final(ids)@),
        forall|other: u32|
            final(ids)@.contains(other) <==> (old(ids)@.contains(other) || other == id),
{
    let ghost before = ids@;
    let mut at: usize = 0;
    while at < ids.len() && ids[at] < id
        invariant
            at <= ids.len(),
            ids@ == before,
            ascending(before),
            forall|j: int| 0 <= j < at ==> before[j] < id,
        decreases ids.len() - at,
    {
        at = at + 1;
    }
    if at < ids.len() && ids[at] == id {
        assert(before.contains(id));
        return ;
    }
    ids.insert(at, id);
    let ghost after = ids@;
    assert forall|i: int, j: int| 0 <= i < j < after.len() implies after[i] < after[j] by {
        if j < at {
            assert(after[i] == before[i] && after[j] == before[j]);
        } else if j == at {
            assert(after[i] == before[i]);
        } else if i < at {
            assert(after[i] == before[i] && after[j] == before[j - 1]);
            if i < j - 1 {
                assert(before[i] < before[j - 1]);
            }
        } else if i == at {
            assert(after[j] == before[j - 1]);
            if at < j - 1 {
                assert(before[at as int] < before[j - 1]);
            }
        } else {
            assert(after[i] == before[i - 1] && after[j] == before[j - 1]);
        }
    }
    assert forall|other: u32| after.contains(other) <==> (before.contains(other) || other
        == id) by {
        if after.contains(other) {
            let i = choose|i: int| 0 <= i < after.len() && after[i] == other;
            if i < at {
                assert(before[i] == other);
            } else if i > at {
                assert(before[i - 1] == other);
            }
        }
        if before.contains(other) {
            let i = choose|i: int| 0 <= i < before.len() && before[i] == other;
            if i < at {
                assert(after[i] == other);
            } else {
                assert(after[i + 1] == other);
            }
        }
        if other == id {
            assert(after[at as int] == id);
        }
    }
}

/// The ids of the segments whose files are among `names`, each once, in
/// ascending order. Names that name no segment are passed over.
pub fn segment_ids(names: &Vec<String>) -> (ids: Vec<u32>)
    ensures
        ascending(ids@),
        forall|id: u32|
            ids@.contains(id) <==> exists|i: int|
                0 <= i < names@.len() && named_segment(#[trigger] names@[i]@) == Some(id),
{
    let mut ids: Vec<u32> = Vec::new();
    let mut at: usize = 0;
    while at < names.len()
        invariant
            at <= names.len(),
            ascending(ids@),
            forall|id: u32|
                ids@.contains(id) <==> exists|i: int|
                    0 <= i < at && named_segment(#[trigger] names@[i]@) == Some(id),
        decreases names.len() - at,
    {
        let ghost before = ids@;
        match segment_id(names[at].as_str()) {
            Some(found) => {
                insert_ascending(&mut ids, found);
            },
            None => {},
        }
        at = at + 1;
        assert forall|id: u32|
            ids@.contains(id) <==> exists|i: int|
                0 <= i < at && named_segment(#[trigger] names@[i]@) == Some(id) by {
            if ids@.contains(id) {
                if before.contains(id) {
                    let i = choose|i: int|
                        0 <= i < at - 1 && named_segment(#[trigger] names@[i]@) == Some(id);
                    assert(named_segment(names@[i]@) == Some(id));
                } else {
                    assert(named_segment(names@[at - 1]@) == Some(id));
                }
            }
            if exists|i: int| 0 <= i < at && named_segment(#[trigger] names@[i]@) == Some(id) {
                let i = choose|i: int|
                    0 <= i < at && named_segment(#[trigger] names@[i]@) == Some(id);
                if i < at - 1 {
                    assert(before.contains(id));
                }
            }
        }
    }
    ids
}

/// Whether one of the names is the name of a segment's file.
pub open spec fn names_any_segment(names: Seq<String>) -> bool {
    exists|i: int| 0 <= i < names.len() && named_segment(#[trigger] names[i]@) is Some
}

/// The ids of the segments that the engine starts with, given the names of
/// the files in its directory: those that the names name, each once, in
/// ascending order; and segment 0 alone where the names name none, so that an
/// empty directory gets the file `0.log`. The last id is the active segment.
pub fn startup_ids(names: &Vec<String>) -> (ids: Vec<u32>)
    ensures
        ascending(ids@),
        ids@.len() > 0,
        !names_any_segment(names@) ==> ids@ == seq![0u32],
        names_any_segment(names@) ==> forall|id: u32|
            ids@.contains(id) <==> exists|i: int|
                0 <= i < names@.len() && named_segment(#[trigger] names@[i]@) == Some(id),
{
    let mut ids = segment_ids(names);
    if ids.len() == 0 {
        proof {
            if names_any_segment(names@) {
                let i = choose|i: int|
                    0 <= i < names@.len() && named_segment(#[trigger] names@[i]@) is Some;
                let id = named_segment(names@[i]@)->Some_0;
                assert(named_segment(names@[i]@) == Some(id));
                assert(ids@.contains(id));
            }
        }
        ids.push(0);
        assert(ids@ =~= seq![0u32]);
    } else {
        proof {
            let id = ids@[0];
            assert(ids@.contains(id));
            let i = choose|i: int|
                0 <= i < names@.len() && named_segment(#[trigger] names@[i]@) == Some(id);
            assert(named_segment(names@[i]@) is Some);
        }
    }
    ids
}

} // verus!
