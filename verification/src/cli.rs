//! Selection of cards on the command line: card numbers, or ranges `x-y`.
use vstd::prelude::*;
use vstd::string::*;
use std::collections::HashSet;

verus! {

broadcast use vstd::std_specs::hash::group_hash_axioms;

pub open spec fn is_digit(c: char) -> bool {
    '0' <= c <= '9'
}

/// The value of a string of decimal digits.
pub open spec fn digits_value(s: Seq<char>) -> nat
    decreases s.len(),
{
    if s.len() == 0 {
        0
    } else {
        10 * digits_value(s.drop_last()) + ((s.last() as int) - ('0' as int)) as nat
    }
}

/// The digits of an unsigned number, after an optional `+`.
pub open spec fn unsigned_digits(s: Seq<char>) -> Seq<char> {
    if s.len() > 0 && s[0] == '+' {
        s.drop_first()
    } else {
        s
    }
}

/// What `usize::from_str` makes of a string: an optional `+` followed by one or more
/// decimal digits whose value fits in a `usize`.
pub open spec fn parse_decimal(s: Seq<char>) -> Option<usize> {
    let d = unsigned_digits(s);
    if d.len() > 0 && (forall|i: int| 0 <= i < d.len() ==> is_digit(#[trigger] d[i]))
        && digits_value(d) <= usize::MAX {
        Some(digits_value(d) as usize)
    } else {
        None
    }
}

/// `str::parse::<usize>`, which is `usize::from_str`: as its documentation says, an
/// optional `+` and then only decimal digits, with a value that fits; any other
/// character, an empty string, a lone `+` or an overflow is an error.
#[verifier::external_body]
fn parse_usize(s: &str) -> (r: Option<usize>)
    ensures
        r == parse_decimal(s@),
{
    s.parse::<usize>().ok()
}

/// Where the first `-` of a string stands, or -1.
pub open spec fn dash_position(s: Seq<char>) -> int
    decreases s.len(),
{
    if s.len() == 0 {
        -1
    } else if dash_position(s.drop_last()) >= 0 {
        dash_position(s.drop_last())
    } else if s.last() == '-' {
        s.len() - 1
    } else {
        -1
    }
}

proof fn lemma_dash_position(s: Seq<char>, k: int)
    requires
        0 <= k <= s.len(),
        forall|j: int| 0 <= j < k ==> s[j] != '-',
    ensures
        dash_position(s.take(k)) == -1,
        k < s.len() && s[k] == '-' ==> dash_position(s.take(k + 1)) == k,
    decreases k,
{
    if k > 0 {
        lemma_dash_position(s, k - 1);
        assert(s.take(k).drop_last() =~= s.take(k - 1));
    }
    assert(dash_position(s.take(k)) == -1);
    if k < s.len() {
        assert(s.take(k + 1).drop_last() =~= s.take(k));
        assert(s.take(k + 1).last() == s[k]);
    }
}

proof fn lemma_dash_position_prefix(s: Seq<char>, k: int)
    requires
        0 <= k < s.len(),
        dash_position(s.take(k + 1)) == k,
    ensures
        dash_position(s) == k,
    decreases s.len(),
{
    if s.len() > k + 1 {
        assert(s.drop_last().take(k + 1) =~= s.take(k + 1));
        lemma_dash_position_prefix(s.drop_last(), k);
    } else {
        assert(s.take(k + 1) =~= s);
    }
}

/// Why an entry of the card selection was refused.
#[derive(PartialEq, Eq, Clone, Copy, Debug, Structural)]
pub enum EntryError {
    /// The text before the `-` of a range is not a number.
    InvalidRangeStart,
    /// The text after the `-` of a range is not a number.
    InvalidRangeEnd,
    /// The end of a range is the largest number; one past it does not exist.
    RangeEndTooLarge,
    /// Neither a number nor a range.
    InvalidFormat,
}

/// A refused entry of the card selection, with its text.
#[derive(Debug)]
pub struct SelectionError {
    pub kind: EntryError,
    pub entry: String,
}

/// The cards a range from `start` to `stop` selects: every number from `start` to `stop`,
/// both included (none when `start > stop`).
pub open spec fn range_cards(start: usize, stop: usize) -> Set<usize> {
    Set::new(|i: usize| start <= i <= stop)
}

/// The cards one entry selects: a number, or a range `x-y`.
pub open spec fn entry_outcome(s: Seq<char>) -> Result<Set<usize>, EntryError> {
    match parse_decimal(s) {
        Some(x) => Ok(set![x]),
        None => {
            let i = dash_position(s);
            if i < 0 {
                Err(EntryError::InvalidFormat)
            } else {
                match (parse_decimal(s.take(i)), parse_decimal(s.skip(i + 1))) {
                    (None, _) => Err(EntryError::InvalidRangeStart),
                    (Some(_), None) => Err(EntryError::InvalidRangeEnd),
                    (Some(start), Some(stop)) => if stop == usize::MAX {
                        Err(EntryError::RangeEndTooLarge)
                    } else {
                        Ok(range_cards(start, stop))
                    },
                }
            }
        },
    }
}

/// The cards a list of entries selects, or the first refused entry and why.
pub open spec fn selection(entries: Seq<Seq<char>>) -> Result<Set<usize>, (int, EntryError)>
    decreases entries.len(),
{
    if entries.len() == 0 {
        Ok(Set::empty())
    } else {
        match selection(entries.drop_last()) {
            Err(e) => Err(e),
            Ok(cards) => match entry_outcome(entries.last()) {
                Ok(more) => Ok(cards + more),
                Err(kind) => Err((entries.len() - 1, kind)),
            },
        }
    }
}

pub open spec fn entry_texts(entries: Seq<String>) -> Seq<Seq<char>> {
    entries.map_values(|s: String| s@)
}

/// The cards one entry selects, inserted into `cards`.
fn select_entry(entry: &str, cards: &mut HashSet<usize>) -> (r: Result<(), EntryError>)
    ensures
        match entry_outcome(entry@) {
            Ok(more) => r is Ok && final(cards)@ == old(cards)@ + more,
            Err(kind) => r == Err::<(), EntryError>(kind),
        },
{
    let ghost s = entry@;
    // Single card number.
    if let Some(index) = parse_usize(entry) {
        cards.insert(index);
        assert(final(cards)@ =~= old(cards)@ + set![index]);
        return Ok(());
    }
    // x-y

    let len = entry.unicode_len();
    let mut index: usize = 0;
    while index < len && entry.get_char(index) != '-'
        invariant
            len == s.len(),
            s == entry@,
            index <= len,
            forall|j: int| 0 <= j < index ==> s[j] != '-',
        decreases len - index,
    {
        index = index + 1;
    }
    proof {
        lemma_dash_position(s, index as int);
    }
    if index == len {
        assert(s.take(index as int) =~= s);
        return Err(EntryError::InvalidFormat);
    }
    proof {
        lemma_dash_position_prefix(s, index as int);
    }
    let start = match parse_usize(entry.substring_char(0, index)) {
        Some(start) => start,
        None => {
            return Err(EntryError::InvalidRangeStart);
        },
    };
    let stop = match parse_usize(entry.substring_char(index + 1, len)) {
        Some(stop) => stop,
        None => {
            assert(s.subrange(index + 1, len as int) =~= s.skip(index + 1));
            return Err(EntryError::InvalidRangeEnd);
        },
    };
    assert(s.subrange(index + 1, len as int) =~= s.skip(index + 1));
    assert(s.subrange(0, index as int) =~= s.take(index as int));
    if stop == usize::MAX {
        return Err(EntryError::RangeEndTooLarge);
    }
    let ghost before = cards@;
    let mut i: usize = start;
    while i < stop + 1
        invariant
            stop < usize::MAX,
            start <= i,
            i == start || i <= stop + 1,
            cards@ == before + Set::new(|j: usize| start <= j < i),
        decreases stop + 1 - i,
    {
        cards.insert(i);
        assert(cards@ =~= before + Set::new(|j: usize| start <= j < i + 1));
        i = i + 1;
    }
    assert(cards@ =~= before + range_cards(start, stop));
    Ok(())
}

/// The cards selected on the command line: every entry is a card number or a range; with
/// no entries at all, every card from `first` up to, not including, `end`.
pub fn select_cards(entries: Option<&Vec<String>>, first: usize, end: usize) -> (r: Result<
    HashSet<usize>,
    SelectionError,
>)
    ensures
        entries is None ==> (r matches Ok(cards) && cards@ == Set::new(
            |i: usize| first <= i < end,
        )),
        entries matches Some(v) ==> match selection(entry_texts(v@)) {
            Ok(set) => (r matches Ok(cards) && cards@ == set),
            Err((k, kind)) => (r matches Err(e) && e.kind == kind && e.entry@ == v@[k]@),
        },
{
    let mut cards: HashSet<usize> = HashSet::new();
    match entries {
        Some(values) => {
            let ghost texts = entry_texts(values@);
            let mut k: usize = 0;
            while k < values.len()
                invariant
                    entries == Some(values),
                    k <= values@.len(),
                    texts == entry_texts(values@),
                    selection(texts.take(k as int)) == Ok::<Set<usize>, (int, EntryError)>(
                        cards@,
                    ),
                decreases values@.len() - k,
            {
                assert(texts.take(k + 1).drop_last() =~= texts.take(k as int));
                assert(texts[k as int] == values@[k as int]@);
                match select_entry(values[k].as_str(), &mut cards) {
                    Ok(()) => {},
                    Err(kind) => {
                        let ghost bad = k as int;
                        proof {
                            lemma_selection_fails_at(texts, bad, kind);
                        }
                        return Err(SelectionError { kind, entry: values[k].clone() });
                    },
                }
                k = k + 1;
            }
            assert(texts.take(k as int) =~= texts);
        },
        None => {
            // All cards.
            let mut i: usize = first;
            assert(cards@ =~= Set::new(|j: usize| first <= j < i));
            while i < end
                invariant
                    first <= i,
                    i == first || i <= end,
                    cards@ == Set::new(|j: usize| first <= j < i),
                decreases end - i,
            {
                cards.insert(i);
                assert(cards@ =~= Set::new(|j: usize| first <= j < i + 1));
                i = i + 1;
            }
            assert(cards@ =~= Set::new(|j: usize| first <= j < end));
        },
    }
    Ok(cards)
}

/// A refusal at entry `k`, after entries that were all accepted, is what the whole
/// selection answers.
proof fn lemma_selection_fails_at(texts: Seq<Seq<char>>, k: int, kind: EntryError)
    requires
        0 <= k < texts.len(),
        selection(texts.take(k)) is Ok,
        entry_outcome(texts[k]) == Err::<Set<usize>, EntryError>(kind),
    ensures
        selection(texts) == Err::<Set<usize>, (int, EntryError)>((k, kind)),
    decreases texts.len(),
{
    if texts.len() > k + 1 {
        assert(texts.drop_last().take(k) =~= texts.take(k));
        lemma_selection_fails_at(texts.drop_last(), k, kind);
    } else {
        assert(texts.drop_last() =~= texts.take(k));
    }
}

} // verus!
