//! The journal's directory: how eras are named, and which file names make a
//! journal.
//!
//! The era with index `i` is kept in the file `<i>.era`, the index in
//! decimal without sign or leading zeros. The eras of a journal have
//! consecutive indices.

use crate::error::{ErrorKind, ErrorView};
use vstd::prelude::*;
use vstd::relations::{sorted_by, total_ordering};
use vstd::seq_lib::lemma_sorted_unique;
use vstd::string::{StrSliceExecFns, StringExecFns};

verus! {

/// The greatest index that an era can have: one more must still be a number.
pub const MAX_ERA_INDEX: u64 = 0xffff_ffff_ffff_fffe;

/// The character of the decimal digit `d`.
pub open spec fn digit_char(d: int) -> char {
    (48 + d) as u8 as char
}

/// The decimal digit that `c` stands for, where it is a digit's character.
pub open spec fn digit_of(c: char) -> int {
    c as u32 - 48
}

/// `c` is the character of a decimal digit.
pub open spec fn is_digit(c: char) -> bool {
    0 <= digit_of(c) < 10
}

/// `n` in decimal, without leading zeros.
pub open spec fn decimal(n: nat) -> Seq<char>
    decreases n,
{
    if n < 10 {
        seq![digit_char(n as int)]
    } else {
        decimal(n / 10).push(digit_char((n % 10) as int))
    }
}

/// The number that a string of digits spells.
pub open spec fn decimal_value(digits: Seq<char>) -> int
    decreases digits.len(),
{
    if digits.len() == 0 {
        0
    } else {
        10 * decimal_value(digits.drop_last()) + digit_of(digits.last())
    }
}

/// The suffix of an era's file name.
pub open spec fn era_extension() -> Seq<char> {
    ".era"@
}

/// The file name of the era with index `index`.
pub open spec fn era_name(index: u64) -> Seq<char> {
    decimal(index as nat) + era_extension()
}

/// `name` ends as an era's file name does.
pub open spec fn is_era_name(name: Seq<char>) -> bool {
    &&& name.len() >= era_extension().len()
    &&& name.skip(name.len() - era_extension().len()) == era_extension()
}

/// The index of the era that `name` is the file name of; `None` where it is
/// that of none.
pub open spec fn era_index_of(name: Seq<char>) -> Option<u64> {
    if exists|index: u64| index <= MAX_ERA_INDEX && name == #[trigger] era_name(index) {
        Some(choose|index: u64| index <= MAX_ERA_INDEX && name == #[trigger] era_name(index))
    } else {
        None
    }
}

/// A string of digits without a needless zero in front.
pub open spec fn is_canonical_number(digits: Seq<char>) -> bool {
    &&& digits.len() > 0
    &&& forall|i: int| 0 <= i < digits.len() ==> is_digit(#[trigger] digits[i])
    &&& digits.len() > 1 ==> digits[0] != '0'
}

/// A number in decimal is a string of digits without a needless zero in
/// front, and it spells that number.
pub proof fn lemma_decimal_round_trip(n: nat)
    ensures
        is_canonical_number(decimal(n)),
        decimal_value(decimal(n)) == n,
        n > 0 ==> decimal(n)[0] != '0',
    decreases n,
{
    if n < 10 {
        assert(decimal(n).drop_last() =~= Seq::<char>::empty());
        assert(decimal_value(Seq::<char>::empty()) == 0);
    } else {
        lemma_decimal_round_trip(n / 10);
        let front = decimal(n / 10);
        assert(decimal(n).drop_last() =~= front);
        assert(decimal(n)[0] == front[0]);
    }
}

/// A digit's character is that of the digit it stands for, and only `0`
/// stands for zero.
pub proof fn lemma_digit_round_trip(c: char)
    requires
        is_digit(c),
    ensures
        digit_char(digit_of(c)) == c,
        c != '0' ==> digit_of(c) > 0,
{
}

/// A string of digits that begins with no zero spells a positive number,
/// and one that spells a number is no less than what its front spells.
pub proof fn lemma_decimal_value_grows(digits: Seq<char>, front: int)
    requires
        forall|i: int| 0 <= i < digits.len() ==> is_digit(#[trigger] digits[i]),
        0 <= front <= digits.len(),
    ensures
        0 <= decimal_value(digits.take(front)) <= decimal_value(digits),
        digits.len() > 0 && digits[0] != '0' ==> decimal_value(digits) > 0,
    decreases digits.len(),
{
    if digits.len() == 0 {
        assert(digits.take(front) =~= digits);
    } else {
        let shorter = digits.drop_last();
        assert(is_digit(digits[digits.len() - 1]));
        lemma_digit_round_trip(digits.last());
        assert forall|i: int| 0 <= i < shorter.len() implies is_digit(#[trigger] shorter[i]) by {
            assert(shorter[i] == digits[i]);
        }
        if front == digits.len() {
            assert(digits.take(front) =~= digits);
            lemma_decimal_value_grows(shorter, 0);
        } else {
            lemma_decimal_value_grows(shorter, front);
            assert(shorter.take(front) =~= digits.take(front));
        }
        if shorter.len() == 0 {
            assert(decimal_value(shorter) == 0);
        } else {
            assert(shorter[0] == digits[0]);
        }
    }
}

/// A string of digits without a needless zero in front is the decimal form
/// of the number that it spells.
pub proof fn lemma_canonical_is_decimal(digits: Seq<char>)
    requires
        is_canonical_number(digits),
    ensures
        decimal(decimal_value(digits) as nat) == digits,
        decimal_value(digits) >= 0,
    decreases digits.len(),
{
    let shorter = digits.drop_last();
    let value = decimal_value(digits);
    lemma_decimal_value_grows(digits, 0);
    assert(is_digit(digits[digits.len() - 1]));
    lemma_digit_round_trip(digits.last());
    if digits.len() == 1 {
        assert(decimal_value(shorter) == 0);
        assert(decimal(value as nat) =~= digits);
    } else {
        assert forall|i: int| 0 <= i < shorter.len() implies is_digit(#[trigger] shorter[i]) by {
            assert(shorter[i] == digits[i]);
        }
        assert(shorter[0] == digits[0]);
        lemma_canonical_is_decimal(shorter);
        lemma_decimal_value_grows(shorter, 0);
        assert(decimal_value(shorter) > 0);
        assert(value / 10 == decimal_value(shorter));
        assert(value % 10 == digit_of(digits.last()));
        assert(decimal(value as nat) == decimal((value / 10) as nat).push(
            digit_char(value % 10),
        ));
        assert(decimal(value as nat) =~= digits);
    }
}

/// No two indices have one file name.
pub proof fn lemma_era_name_injective(first: u64, second: u64)
    requires
        era_name(first) == era_name(second),
    ensures
        first == second,
{
    lemma_same_front(decimal(first as nat), decimal(second as nat), era_extension());
    lemma_decimal_round_trip(first as nat);
    lemma_decimal_round_trip(second as nat);
}

/// An era's file name gives its index back, and ends as an era's file name
/// does.
pub proof fn lemma_era_index_of_era_name(index: u64)
    requires
        index <= MAX_ERA_INDEX,
    ensures
        era_index_of(era_name(index)) == Some(index),
        is_era_name(era_name(index)),
{
    let name = era_name(index);
    let found = choose|other: u64| other <= MAX_ERA_INDEX && name == #[trigger] era_name(other);
    lemma_era_name_injective(found, index);
    let digits = decimal(index as nat);
    assert(name.skip(name.len() - era_extension().len()) =~= era_extension());
}

/// The text of one decimal digit.
fn digit_text(d: u8) -> (text: &'static str)
    requires
        d < 10,
    ensures
        text@ == seq![digit_char(d as int)],
{
    proof {
        reveal_strlit("0");
        reveal_strlit("1");
        reveal_strlit("2");
        reveal_strlit("3");
        reveal_strlit("4");
        reveal_strlit("5");
        reveal_strlit("6");
        reveal_strlit("7");
        reveal_strlit("8");
        reveal_strlit("9");
    }
    let text = match d {
        0 => "0",
        1 => "1",
        2 => "2",
        3 => "3",
        4 => "4",
        5 => "5",
        6 => "6",
        7 => "7",
        8 => "8",
        _ => "9",
    };
    assert(text@ =~= seq![digit_char(d as int)]);
    text
}

/// Writes `n` in decimal.
fn decimal_text(n: u64) -> (text: String)
    ensures
        text@ == decimal(n as nat),
    decreases n,
{
    if n < 10 {
        String::from_str(digit_text(n as u8))
    } else {
        let mut text = decimal_text(n / 10);
        text.append(digit_text((n % 10) as u8));
        assert(text@ =~= decimal(n as nat));
        text
    }
}

/// The file name of the era with index `index`.
fn era_file_name(index: u64) -> (name: String)
    ensures
        name@ == era_name(index),
{
    let mut name = decimal_text(index);
    name.append(".era");
    name
}

/// Whether `name` ends as an era's file name does.
pub fn has_era_extension(name: &str) -> (ends: bool)
    ensures
        ends == is_era_name(name@),
{
    proof {
        reveal_strlit(".era");
    }
    let length: usize = name.unicode_len();
    if length < 4 {
        return false;
    }
    let ghost end = name@.skip(length - 4);
    assert(end[0] == name@[length - 4] && end[1] == name@[length - 3] && end[2] == name@[length
        - 2] && end[3] == name@[length - 1]);
    let ends = name.get_char(length - 4) == '.' && name.get_char(length - 3) == 'e'
        && name.get_char(length - 2) == 'r' && name.get_char(length - 1) == 'a';
    assert(ends ==> end =~= era_extension());
    ends
}

/// Reads the index of an era from the name of its file.
pub fn era_index(name: &str) -> (index: Result<u64, ErrorKind>)
    ensures
        match era_index_of(name@) {
            Some(i) => index == Ok::<u64, ErrorKind>(i),
            None => index matches Err(error) && error@ == ErrorView::InvalidEraName(name@),
        },
{
    match parse_era_index(name) {
        Some(value) => Ok(value),
        None => Err(ErrorKind::InvalidEraName(String::from_str(name))),
    }
}

/// The index that `name` spells as an era's file name, if it spells one.
fn parse_era_index(name: &str) -> (index: Option<u64>)
    ensures
        index == era_index_of(name@),
{
    proof {
        reveal_strlit(".era");
    }
    if !has_era_extension(name) {
        proof {
            lemma_not_era_name_unless_suffix(name@);
        }
        return None;
    }
    let count: usize = name.unicode_len() - 4;
    let ghost digits = name@.take(count as int);
    assert(name@ =~= digits + era_extension());
    if count == 0 || (count > 1 && name.get_char(0) == '0') {
        proof {
            lemma_not_era_name_unless_number(name@, digits);
        }
        return None;
    }
    let mut value: u64 = 0;
    let mut i: usize = 0;
    while i < count
        invariant
            i <= count,
            count + 4 == name@.len(),
            digits == name@.take(count as int),
            name@ == digits + era_extension(),
            forall|j: int| 0 <= j < i ==> is_digit(#[trigger] digits[j]),
            value == decimal_value(digits.take(i as int)),
            value <= MAX_ERA_INDEX,
        decreases count - i,
    {
        let c: u32 = name.get_char(i) as u32;
        let ghost taken = digits.take(i + 1);
        assert(taken.drop_last() =~= digits.take(i as int));
        assert(taken.last() == digits[i as int]);
        if c < 48 || c > 57 {
            proof {
                lemma_not_era_name_unless_number(name@, digits);
            }
            return None;
        }
        let d: u64 = (c - 48) as u64;
        if value > (MAX_ERA_INDEX - d) / 10 {
            proof {
                assert forall|j: int| 0 <= j < i + 1 implies is_digit(#[trigger] taken[j]) by {
                    assert(taken[j] == digits[j]);
                }
                lemma_not_era_name_unless_small(name@, digits, i + 1);
            }
            return None;
        }
        value = value * 10 + d;
        i += 1;
    }
    proof {
        assert(digits.take(count as int) =~= digits);
        assert(digits[0] == name@[0]);
        lemma_canonical_is_decimal(digits);
        lemma_era_index_of_era_name(value);
    }
    Some(value)
}

/// A name that does not end as an era's file name does is none.
proof fn lemma_not_era_name_unless_suffix(name: Seq<char>)
    requires
        !is_era_name(name),
    ensures
        era_index_of(name) is None,
{
    if era_index_of(name) is Some {
        let index = choose|index: u64| index <= MAX_ERA_INDEX && name == #[trigger] era_name(index);
        lemma_era_index_of_era_name(index);
    }
}

/// A name whose part before the suffix is no string of digits, or has a
/// needless zero in front, is no era's file name.
proof fn lemma_not_era_name_unless_number(name: Seq<char>, digits: Seq<char>)
    requires
        name == digits + era_extension(),
        !is_canonical_number(digits),
    ensures
        era_index_of(name) is None,
{
    if era_index_of(name) is Some {
        let index = choose|index: u64| index <= MAX_ERA_INDEX && name == #[trigger] era_name(index);
        lemma_decimal_round_trip(index as nat);
        lemma_same_front(digits, decimal(index as nat), era_extension());
    }
}

/// A name whose digits, or a front part of them, spell more than the
/// greatest index is no era's file name.
proof fn lemma_not_era_name_unless_small(name: Seq<char>, digits: Seq<char>, front: int)
    requires
        name == digits + era_extension(),
        0 <= front <= digits.len(),
        forall|j: int| 0 <= j < front ==> is_digit(#[trigger] digits.take(front)[j]),
        decimal_value(digits.take(front)) > MAX_ERA_INDEX,
    ensures
        era_index_of(name) is None,
{
    if era_index_of(name) is Some {
        let index = choose|index: u64| index <= MAX_ERA_INDEX && name == #[trigger] era_name(index);
        lemma_decimal_round_trip(index as nat);
        lemma_same_front(digits, decimal(index as nat), era_extension());
        lemma_decimal_value_grows(digits, front);
    }
}

/// Two strings that give the same string when the same end is put behind
/// them are the same.
proof fn lemma_same_front(first: Seq<char>, second: Seq<char>, end: Seq<char>)
    requires
        first + end == second + end,
    ensures
        first == second,
{
    let one = first + end;
    let other = second + end;
    assert(one.len() == first.len() + end.len());
    assert(other.len() == second.len() + end.len());
    assert forall|i: int| 0 <= i < first.len() implies first[i] == second[i] by {
        assert(one[i] == first[i]);
        assert(other[i] == second[i]);
    }
    assert(first =~= second);
}

/// What is known of a name that has an index: it is the file name of the
/// era with that index, and of no other.
pub proof fn lemma_era_index_of_sound(name: Seq<char>)
    requires
        era_index_of(name) is Some,
    ensures
        era_index_of(name).unwrap() <= MAX_ERA_INDEX,
        era_name(era_index_of(name).unwrap()) == name,
        is_era_name(name),
{
    lemma_era_index_of_era_name(era_index_of(name).unwrap());
}

/// The texts of a sequence of strings.
pub open spec fn texts(strings: Seq<String>) -> Seq<Seq<char>> {
    Seq::new(strings.len(), |i: int| strings[i]@)
}

/// The path of the file `name` in the directory `dir`.
pub open spec fn path_in(dir: Seq<char>, name: Seq<char>) -> Seq<char> {
    if dir.len() == 0 || dir.last() == '/' {
        dir + name
    } else {
        dir + seq!['/'] + name
    }
}

/// The path of the file `name` in the directory `dir`.
pub fn era_path(dir: &str, name: &str) -> (path: String)
    ensures
        path@ == path_in(dir@, name@),
{
    proof {
        reveal_strlit("/");
    }
    let length: usize = dir.unicode_len();
    let mut path = String::from_str(dir);
    if length > 0 && dir.get_char(length - 1) != '/' {
        path.append("/");
        assert(path@ =~= dir@ + seq!['/']);
    }
    path.append(name);
    path
}

/// The path of the era that is created next, with index `next_index`, of
/// the journal in `dir`.
pub fn next_era_filename(dir: &str, next_index: u64) -> (path: String)
    ensures
        path@ == path_in(dir@, era_name(next_index)),
{
    let name = era_file_name(next_index);
    era_path(dir, name.as_str())
}

/// The index that follows the last of `names`: 0 for none, else one past
/// the index of the last name.
pub open spec fn next_index_of(names: Seq<Seq<char>>) -> Result<u64, ErrorView> {
    if names.len() == 0 {
        Ok(0)
    } else {
        match era_index_of(names.last()) {
            Some(index) => Ok((index + 1) as u64),
            None => Err(ErrorView::InvalidEraName(names.last())),
        }
    }
}

/// The index of the era to create next, given the file names of the eras
/// that exist, in the order of their indices.
pub fn next_era_index(files: &[String]) -> (next: Result<u64, ErrorKind>)
    ensures
        match next_index_of(texts(files@)) {
            Ok(index) => next == Ok::<u64, ErrorKind>(index),
            Err(error) => next matches Err(e) && e@ == error,
        },
{
    let count: usize = files.len();
    if count == 0 {
        return Ok(0);
    }
    let last = files[count - 1].as_str();
    assert(texts(files@).last() == last@);
    match era_index(last) {
        Ok(index) => {
            proof {
                lemma_era_index_of_sound(last@);
            }
            Ok(index + 1)
        },
        Err(error) => Err(error),
    }
}

/// The first index that a run of indices leaves out: one past the first
/// index that is not followed by its successor. `None` where each index is
/// followed by its successor.
pub open spec fn missing_index(indices: Seq<u64>) -> Option<u64>
    decreases indices.len(),
{
    if indices.len() < 2 {
        None
    } else {
        match missing_index(indices.drop_last()) {
            Some(index) => Some(index),
            None => {
                let before = indices[indices.len() - 2];
                if indices.last() == before + 1 {
                    None
                } else {
                    Some((before + 1) as u64)
                }
            },
        }
    }
}

/// Indices of which none is left out count up from the first.
pub proof fn lemma_no_missing_index(indices: Seq<u64>, i: int)
    requires
        missing_index(indices) is None,
        0 <= i < indices.len(),
    ensures
        indices[i] == indices[0] + i,
    decreases indices.len(),
{
    if i < indices.len() - 1 {
        assert(indices.drop_last()[i] == indices[i]);
        assert(indices.drop_last()[0] == indices[0]);
        lemma_no_missing_index(indices.drop_last(), i);
    } else if i > 0 {
        assert(indices.drop_last()[i - 1] == indices[i - 1]);
        assert(indices.drop_last()[0] == indices[0]);
        lemma_no_missing_index(indices.drop_last(), i - 1);
    }
}

/// Finds the first index that `indices` leave out.
pub fn find_missing_index(indices: &Vec<u64>) -> (missing: Option<u64>)
    requires
        forall|i: int| 0 <= i < indices@.len() ==> #[trigger] indices@[i] <= MAX_ERA_INDEX,
    ensures
        missing == missing_index(indices@),
{
    if indices.len() < 2 {
        return None;
    }
    let mut k: usize = 1;
    assert(missing_index(indices@.take(1)) is None);
    while k < indices.len()
        invariant
            1 <= k <= indices@.len(),
            missing_index(indices@.take(k as int)) is None,
            forall|i: int| 0 <= i < indices@.len() ==> #[trigger] indices@[i] <= MAX_ERA_INDEX,
        decreases indices@.len() - k,
    {
        let before: u64 = indices[k - 1];
        let ghost longer = indices@.take(k + 1);
        assert(longer.drop_last() =~= indices@.take(k as int));
        assert(longer[longer.len() - 2] == before);
        assert(longer.last() == indices@[k as int]);
        if indices[k] != before + 1 {
            proof {
                lemma_missing_index_extends(indices@, k + 1);
            }
            return Some(before + 1);
        }
        k += 1;
    }
    assert(indices@.take(k as int) =~= indices@);
    None
}

/// An index that a front part of a run leaves out is the first that the
/// whole run leaves out.
proof fn lemma_missing_index_extends(indices: Seq<u64>, front: int)
    requires
        0 <= front <= indices.len(),
        missing_index(indices.take(front)) is Some,
    ensures
        missing_index(indices) == missing_index(indices.take(front)),
    decreases indices.len() - front,
{
    if front < indices.len() {
        assert(indices.take(front + 1).drop_last() =~= indices.take(front));
        lemma_missing_index_extends(indices, front + 1);
    } else {
        assert(indices.take(front) =~= indices);
    }
}

/// The order in which the eras of a journal stand: by rising index.
pub open spec fn ascending() -> spec_fn(u64, u64) -> bool {
    |a: u64, b: u64| a <= b
}

/// Sorts indices into rising order.
pub fn sort_indices(indices: &Vec<u64>) -> (sorted: Vec<u64>)
    ensures
        sorted@ == indices@.sort_by(ascending()),
{
    let mut sorted: Vec<u64> = Vec::new();
    let mut k: usize = 0;
    assert(indices@.take(0) =~= sorted@);
    while k < indices.len()
        invariant
            k <= indices@.len(),
            sorted_by(sorted@, ascending()),
            sorted@.to_multiset() == indices@.take(k as int).to_multiset(),
        decreases indices@.len() - k,
    {
        let index: u64 = indices[k];
        let mut at: usize = sorted.len();
        while at > 0 && sorted[at - 1] > index
            invariant
                at <= sorted@.len(),
                forall|i: int| at <= i < sorted@.len() ==> index < #[trigger] sorted@[i],
            decreases at,
        {
            at -= 1;
        }
        let ghost before = sorted@;
        sorted.insert(at, index);
        proof {
            assert forall|i: int, j: int| 0 <= i < j < sorted@.len() implies #[trigger] ascending()(
                sorted@[i],
                sorted@[j],
            ) by {
                if j < at {
                    assert(ascending()(before[i], before[j]));
                } else if j == at {
                    if at > 0 {
                        assert(ascending()(before[i], before[at - 1]));
                    }
                } else if i < at {
                    assert(ascending()(before[i], before[j - 1]));
                } else if i > at {
                    assert(ascending()(before[i - 1], before[j - 1]));
                }
            }
            vstd::seq_lib::to_multiset_remove(sorted@, at as int);
            assert(sorted@.remove(at as int) =~= before);
            vstd::seq_lib::to_multiset_build(indices@.take(k as int), index);
            assert(indices@.take(k as int).push(index) =~= indices@.take(k + 1));
            assert(sorted@.to_multiset() =~= before.to_multiset().insert(index)) by {
                sorted@.to_multiset_ensures();
                assert(sorted@.contains(index)) by {
                    assert(sorted@[at as int] == index);
                }
            }
        }
        k += 1;
    }
    proof {
        assert(indices@.take(k as int) =~= indices@);
        lemma_ascending_is_total();
        indices@.lemma_sort_by_ensures(ascending());
        lemma_sorted_unique(sorted@, indices@.sort_by(ascending()), ascending());
    }
    sorted
}

/// Rising order of numbers is a total order.
pub proof fn lemma_ascending_is_total()
    ensures
        total_ordering(ascending()),
{
}

/// The first among `names` that ends as an era's file name does and yet is
/// none.
pub open spec fn first_invalid_era_name(names: Seq<Seq<char>>) -> Option<Seq<char>>
    decreases names.len(),
{
    if names.len() == 0 {
        None
    } else {
        match first_invalid_era_name(names.drop_last()) {
            Some(name) => Some(name),
            None => if is_era_name(names.last()) && era_index_of(names.last()) is None {
                Some(names.last())
            } else {
                None
            },
        }
    }
}

/// The indices of the eras whose file names are among `names`, in the order
/// of `names`.
pub open spec fn era_indices(names: Seq<Seq<char>>) -> Seq<u64>
    decreases names.len(),
{
    if names.len() == 0 {
        Seq::empty()
    } else {
        match era_index_of(names.last()) {
            Some(index) => era_indices(names.drop_last()).push(index),
            None => era_indices(names.drop_last()),
        }
    }
}

/// The file names of the eras with the given indices.
pub open spec fn era_names(indices: Seq<u64>) -> Seq<Seq<char>> {
    Seq::new(indices.len(), |i: int| era_name(indices[i]))
}

/// The era files of a journal directory, given whether it is a directory
/// and, if so, the names of what it holds: the names that end as an era's
/// file name does, by rising index. A name among them that spells no index
/// is refused, and so are indices that leave one out.
pub open spec fn era_files_of(dir: Seq<char>, listing: Option<Seq<Seq<char>>>) -> Result<
    Seq<Seq<char>>,
    ErrorView,
> {
    match listing {
        None => Err(ErrorView::InvalidJournalLocation(dir)),
        Some(names) => match first_invalid_era_name(names) {
            Some(name) => Err(ErrorView::InvalidEraName(name)),
            None => {
                let sorted = era_indices(names).sort_by(ascending());
                match missing_index(sorted) {
                    Some(index) => Err(ErrorView::JournalEraMissing(index)),
                    None => Ok(era_names(sorted)),
                }
            },
        },
    }
}

/// The texts of a listing, where there is one.
pub open spec fn listing_texts(listing: Option<Vec<String>>) -> Option<Seq<Seq<char>>> {
    match listing {
        Some(names) => Some(texts(names@)),
        None => None,
    }
}

/// Picks the era files of the journal in `dir` out of the directory's
/// listing and puts them in the order of their indices. `listing` holds the
/// names of the directory's entries, or is `None` where `dir` is missing or
/// is no directory.
pub fn era_files(dir: &str, listing: Option<Vec<String>>) -> (files: Result<Vec<String>, ErrorKind>)
    ensures
        match era_files_of(dir@, listing_texts(listing)) {
            Ok(names) => files matches Ok(found) && texts(found@) == names,
            Err(error) => files matches Err(e) && e@ == error,
        },
{
    let entries = match listing {
        Some(entries) => entries,
        None => {
            return Err(ErrorKind::InvalidJournalLocation(String::from_str(dir)));
        },
    };
    let ghost names = texts(entries@);
    let mut indices: Vec<u64> = Vec::new();
    let mut k: usize = 0;
    while k < entries.len()
        invariant
            k <= entries@.len(),
            names == texts(entries@),
            listing_texts(listing) == Some(names),
            first_invalid_era_name(names.take(k as int)) is None,
            indices@ == era_indices(names.take(k as int)),
            forall|i: int| 0 <= i < indices@.len() ==> #[trigger] indices@[i] <= MAX_ERA_INDEX,
        decreases entries@.len() - k,
    {
        let name = entries[k].as_str();
        let ghost longer = names.take(k + 1);
        assert(longer.drop_last() =~= names.take(k as int));
        assert(longer.last() == name@);
        if has_era_extension(name) {
            match era_index(name) {
                Ok(index) => {
                    proof {
                        lemma_era_index_of_sound(name@);
                    }
                    indices.push(index);
                },
                Err(error) => {
                    proof {
                        assert(first_invalid_era_name(longer) == Some(name@));
                        lemma_first_invalid_extends(names, k + 1);
                    }
                    return Err(error);
                },
            }
        } else {
            proof {
                if era_index_of(name@) is Some {
                    lemma_era_index_of_sound(name@);
                }
            }
        }
        k += 1;
    }
    assert(names.take(k as int) =~= names);
    let sorted = sort_indices(&indices);
    proof {
        lemma_ascending_is_total();
        indices@.lemma_sort_by_ensures(ascending());
        assert forall|i: int| 0 <= i < sorted@.len() implies #[trigger] sorted@[i]
            <= MAX_ERA_INDEX by {
            indices@.to_multiset_ensures();
            sorted@.to_multiset_ensures();
            assert(sorted@.contains(sorted@[i]));
            assert(indices@.to_multiset().count(sorted@[i]) > 0);
            assert(indices@.contains(sorted@[i]));
        }
    }
    match find_missing_index(&sorted) {
        Some(index) => {
            return Err(ErrorKind::JournalEraMissing(index));
        },
        None => {},
    }
    let mut files: Vec<String> = Vec::new();
    let mut i: usize = 0;
    while i < sorted.len()
        invariant
            i <= sorted@.len(),
            files@.len() == i,
            forall|j: int| 0 <= j < i ==> (#[trigger] files@[j])@ == era_name(sorted@[j]),
        decreases sorted@.len() - i,
    {
        files.push(era_file_name(sorted[i]));
        i += 1;
    }
    assert(texts(files@) =~= era_names(sorted@));
    Ok(files)
}

/// A name that a front part of a listing shows to be invalid is the first
/// invalid one of the whole listing.
proof fn lemma_first_invalid_extends(names: Seq<Seq<char>>, front: int)
    requires
        0 <= front <= names.len(),
        first_invalid_era_name(names.take(front)) is Some,
    ensures
        first_invalid_era_name(names) == first_invalid_era_name(names.take(front)),
    decreases names.len() - front,
{
    if front < names.len() {
        assert(names.take(front + 1).drop_last() =~= names.take(front));
        lemma_first_invalid_extends(names, front + 1);
    } else {
        assert(names.take(front) =~= names);
    }
}

} // verus!
