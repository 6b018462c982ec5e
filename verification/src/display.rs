//! The computations behind the list's user interface: which items a
//! configured filter lets through, how the filter settings advance when
//! clicked through their cycles, and how timestamps are written out.

use vstd::prelude::*;
use crate::item::ItemModel;
use crate::item::Priority;
use crate::item::Status;
use crate::item::TodoItem;
use crate::sys;
use crate::sys::lower_of;

verus! {

/// Which completion states a list view shows.
#[derive(Debug, Clone, Copy, PartialEq, Eq, Structural)]
pub enum StatusFilter {
    All,
    Active,
    Completed,
}

/// Which priorities a list view shows.
#[derive(Debug, Clone, Copy, PartialEq, Eq, Structural)]
pub enum PriorityFilter {
    All,
    High,
    Medium,
    Low,
}

/// Which field a text filter is matched against.
#[derive(Debug, Clone, Copy, PartialEq, Eq, Structural)]
pub enum FilterType {
    NoFilter,
    Title,
    Description,
    Status,
    Priority,
    Combined,
}

/// One click on the status dropdown: the next setting in its cycle.
pub fn cycle_status_filter(current: Option<Status>) -> (r: Option<Status>)
    ensures
        r == match current {
            None => Some(Status::NotStarted),
            Some(Status::NotStarted) => Some(Status::InProgress),
            Some(Status::InProgress) => Some(Status::Completed),
            Some(Status::Completed) => None::<Status>,
        },
{
    match current {
        None => Some(Status::NotStarted),
        Some(Status::NotStarted) => Some(Status::InProgress),
        Some(Status::InProgress) => Some(Status::Completed),
        Some(Status::Completed) => None,
    }
}

/// One click on the priority dropdown: the next setting in its cycle.
pub fn cycle_priority_filter(current: Option<Priority>) -> (r: Option<Priority>)
    ensures
        r == match current {
            None => Some(Priority::Low),
            Some(Priority::Low) => Some(Priority::Medium),
            Some(Priority::Medium) => Some(Priority::High),
            Some(Priority::High) => None::<Priority>,
        },
{
    match current {
        None => Some(Priority::Low),
        Some(Priority::Low) => Some(Priority::Medium),
        Some(Priority::Medium) => Some(Priority::High),
        Some(Priority::High) => None,
    }
}

/// One click on the filter-type dropdown: only the text-filter settings
/// take part in the cycle; any other setting falls back to `NoFilter`.
pub fn cycle_filter_type(current: FilterType) -> (r: FilterType)
    ensures
        r == match current {
            FilterType::NoFilter => FilterType::Title,
            FilterType::Title => FilterType::Description,
            _ => FilterType::NoFilter,
        },
{
    match current {
        FilterType::NoFilter => FilterType::Title,
        FilterType::Title => FilterType::Description,
        _ => FilterType::NoFilter,
    }
}

/// Do the characters of `n` occur contiguously within `h`?
pub open spec fn text_contains(h: Seq<char>, n: Seq<char>) -> bool {
    exists|i: int| 0 <= i && i + n.len() <= h.len() && #[trigger] h.subrange(i, i + n.len()) == n
}

/// Does the item's text satisfy the text filter? An empty filter value
/// matches everything; the comparison is case-insensitive; an item with
/// no description never matches a description filter.
pub open spec fn text_match(m: ItemModel, ft: FilterType, value: Seq<char>) -> bool {
    if value.len() == 0 {
        true
    } else {
        match ft {
            FilterType::Title => text_contains(lower_of(m.title), lower_of(value)),
            FilterType::Description => m.description is Some && text_contains(
                lower_of(m.description.unwrap()),
                lower_of(value),
            ),
            _ => true,
        }
    }
}

/// Does the item pass the status dropdown?
pub open spec fn status_match(m: ItemModel, sf: Option<Status>) -> bool {
    match sf {
        Some(st) => m.status == st,
        None => true,
    }
}

/// Does the item pass the priority dropdown?
pub open spec fn priority_match(m: ItemModel, pf: Option<Priority>) -> bool {
    match pf {
        Some(p) => m.priority == p,
        None => true,
    }
}

/// Does the item pass all three filters at once?
pub open spec fn spec_matches(
    m: ItemModel,
    ft: FilterType,
    value: Seq<char>,
    sf: Option<Status>,
    pf: Option<Priority>,
) -> bool {
    text_match(m, ft, value) && status_match(m, sf) && priority_match(m, pf)
}

/// Does this item pass the configured filters?
pub fn item_matches_filter(
    item: &TodoItem,
    filter_type: FilterType,
    filter_value: &str,
    status_filter: Option<Status>,
    priority_filter: Option<Priority>,
) -> (r: bool)
    ensures
        r == spec_matches(item@, filter_type, filter_value@, status_filter, priority_filter),
{
    let text_ok: bool = if filter_value.is_empty() {
        true
    } else {
        match filter_type {
            FilterType::Title => {
                let t = sys::lowercase(item.title());
                let v = sys::lowercase(filter_value);
                sys::str_contains(t.as_str(), v.as_str())
            },
            FilterType::Description => {
                match item.description() {
                    Some(d) => {
                        let t = sys::lowercase(d);
                        let v = sys::lowercase(filter_value);
                        sys::str_contains(t.as_str(), v.as_str())
                    },
                    None => false,
                }
            },
            _ => true,
        }
    };
    let status_ok: bool = match status_filter {
        Some(st) => item.status() == st,
        None => true,
    };
    let priority_ok: bool = match priority_filter {
        Some(p) => item.priority() == p,
        None => true,
    };
    text_ok && status_ok && priority_ok
}

/// The models of the items that pass the filters, in order.
pub open spec fn display_filtered(
    s: Seq<TodoItem>,
    ft: FilterType,
    value: Seq<char>,
    sf: Option<Status>,
    pf: Option<Priority>,
) -> Seq<ItemModel>
    decreases s.len(),
{
    if s.len() == 0 {
        Seq::empty()
    } else {
        let rest = display_filtered(s.drop_last(), ft, value, sf, pf);
        if spec_matches(s.last()@, ft, value, sf, pf) {
            rest.push(s.last()@)
        } else {
            rest
        }
    }
}

/// Copies of the items that pass the configured filters, in input order.
pub fn filter_items(
    items: &Vec<TodoItem>,
    filter_type: FilterType,
    filter_value: &str,
    status_filter: Option<Status>,
    priority_filter: Option<Priority>,
) -> (r: Vec<TodoItem>)
    ensures
        ({
            let df = display_filtered(
                items@,
                filter_type,
                filter_value@,
                status_filter,
                priority_filter,
            );
            &&& r@.len() == df.len()
            &&& forall|k: int| 0 <= k < r@.len() ==> (#[trigger] r@[k])@ == df[k]
        }),
{
    let n = items.len();
    let mut out: Vec<TodoItem> = Vec::new();
    proof {
        assert(items@.take(0) =~= Seq::<TodoItem>::empty());
    }
    let mut i: usize = 0;
    while i < n
        invariant
            n == items@.len(),
            i <= n,
            ({
                let df = display_filtered(
                    items@.take(i as int),
                    filter_type,
                    filter_value@,
                    status_filter,
                    priority_filter,
                );
                &&& out@.len() == df.len()
                &&& forall|k: int| 0 <= k < out@.len() ==> (#[trigger] out@[k])@ == df[k]
            }),
        decreases n - i,
    {
        proof {
            assert(items@.take(i as int + 1).drop_last() =~= items@.take(i as int));
        }
        if item_matches_filter(
            &items[i],
            filter_type,
            filter_value,
            status_filter,
            priority_filter,
        ) {
            out.push(items[i].clone());
        }
        i += 1;
    }
    proof {
        assert(items@.take(n as int) =~= items@);
    }
    out
}

/// The decimal digit `d` as a character.
pub open spec fn digit_char(d: nat) -> char {
    if d == 0 {
        '0'
    } else if d == 1 {
        '1'
    } else if d == 2 {
        '2'
    } else if d == 3 {
        '3'
    } else if d == 4 {
        '4'
    } else if d == 5 {
        '5'
    } else if d == 6 {
        '6'
    } else if d == 7 {
        '7'
    } else if d == 8 {
        '8'
    } else {
        '9'
    }
}

/// The decimal writing of `n`: no leading zeroes, most significant digit
/// first.
pub open spec fn dec_string_of(n: nat) -> Seq<char>
    decreases n,
{
    if n < 10 {
        seq![digit_char(n)]
    } else {
        dec_string_of(n / 10).push(digit_char(n % 10))
    }
}

/// A timestamp written out for display: its seconds count in decimal.
pub fn time_to_string(timestamp: u64) -> (r: String)
    ensures
        r@ == dec_string_of(timestamp as nat),
    decreases timestamp,
{
    let d = timestamp % 10;
    let digit: &str = match d {
        0 => "0",
        1 => "1",
        2 => "2",
        3 => "3",
        4 => "4",
        5 => "5",
        6 => "6",
        7 => "7",
        8 => "8",
        _ => "9",
    };
    proof {
        reveal_strlit("0");
        reveal_strlit("1");
        reveal_strlit("2");
        reveal_strlit("3");
        reveal_strlit("4");
        reveal_strlit("5");
        reveal_strlit("6");
        reveal_strlit("7");
        reveal_strlit("8");
        reveal_strlit("9");
        assert(digit@ =~= seq![digit_char((timestamp % 10) as nat)]);
    }
    if timestamp < 10 {
        let r = digit.to_owned();
        proof {
            assert(r@ =~= dec_string_of(timestamp as nat));
        }
        r
    } else {
        let mut prefix = time_to_string(timestamp / 10);
        prefix.append(digit);
        proof {
            assert(prefix@ =~= dec_string_of(timestamp as nat));
        }
        prefix
    }
}

} // verus!
