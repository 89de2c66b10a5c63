//! The parameters of the two queries.

use crate::processor::ngram::views;
use crate::text::same_text;
use vstd::prelude::*;

verus! {

/// The direction in which a ranking is ordered by count.
#[derive(Debug, Clone, Copy, PartialEq, Eq, Structural)]
pub enum Order {
    Ascending,
    Descending,
}

/// The order that a word names: `asc` is ascending, `desc` is descending,
/// and anything else is no order.
pub open spec fn order_named(word: Seq<char>) -> Option<Order> {
    if word == "asc"@ {
        Some(Order::Ascending)
    } else if word == "desc"@ {
        Some(Order::Descending)
    } else {
        None
    }
}

/// Whether `order` is what the reading of a word gives: the order that the
/// word names, or the message that it names none.
pub open spec fn is_order_read(word: Seq<char>, order: Result<Order, String>) -> bool {
    match order {
        Ok(read) => order_named(word) == Some(read),
        Err(message) => order_named(word) is None && message@ == "Invalid order"@,
    }
}

impl Order {
    /// Reads an order: `asc` is ascending, `desc` is descending, and
    /// anything else is no order.
    pub fn from_str(s: &str) -> (order: Result<Order, String>)
        ensures
            s@ == "asc"@ ==> order == Ok::<Order, String>(Order::Ascending),
            s@ == "desc"@ ==> order == Ok::<Order, String>(Order::Descending),
            s@ != "asc"@ && s@ != "desc"@ ==> order is Err,
            order matches Err(message) ==> message@ == "Invalid order"@,
    {
        proof {
            reveal_strlit("asc");
            reveal_strlit("desc");
            assert("asc"@.len() == 3 && "desc"@.len() == 4);
        }
        if same_text(s, "asc") {
            Ok(Order::Ascending)
        } else if same_text(s, "desc") {
            Ok(Order::Descending)
        } else {
            Err(String::from_str("Invalid order"))
        }
    }
}

impl std::str::FromStr for Order {
    type Err = String;

    /// Reads an order as `Order::from_str` does.
    fn from_str(s: &str) -> (order: Result<Self, String>)
        ensures
            is_order_read(s@, order),
    {
        Order::from_str(s)
    }
}

/// Which n-grams a ranking counts, how many lines it has and in what order.
#[derive(Debug)]
pub struct NgramsByCountFilter {
    pub sender_id: Option<String>,
    pub length: Option<u32>,
    pub container_ids: Vec<String>,
    pub limit: u32,
    pub order: Order,
}

/// Which occurrences of one n-gram a time series counts.
#[derive(Debug)]
pub struct NgramsByContentFilter {
    pub content: String,
    pub sender_id: Option<String>,
    pub container_ids: Vec<String>,
}

/// The text of an optional string.
pub open spec fn option_text(value: Option<String>) -> Option<Seq<char>> {
    match value {
        Some(text) => Some(text@),
        None => None,
    }
}

/// A ranking's parameters over text and the integers.
pub struct ByCountFilterView {
    pub sender_id: Option<Seq<char>>,
    pub length: Option<int>,
    pub container_ids: Seq<Seq<char>>,
    pub limit: int,
    pub order: Order,
}

impl View for NgramsByCountFilter {
    type V = ByCountFilterView;

    open spec fn view(&self) -> ByCountFilterView {
        ByCountFilterView {
            sender_id: option_text(self.sender_id),
            length: match self.length {
                Some(length) => Some(length as int),
                None => None,
            },
            container_ids: views(self.container_ids@),
            limit: self.limit as int,
            order: self.order,
        }
    }
}

/// A time series' parameters over text.
pub struct ByContentFilterView {
    pub content: Seq<char>,
    pub sender_id: Option<Seq<char>>,
    pub container_ids: Seq<Seq<char>>,
}

impl View for NgramsByContentFilter {
    type V = ByContentFilterView;

    open spec fn view(&self) -> ByContentFilterView {
        ByContentFilterView {
            content: self.content@,
            sender_id: option_text(self.sender_id),
            container_ids: views(self.container_ids@),
        }
    }
}

impl Default for NgramsByCountFilter {
    /// The ten most frequent n-grams of any sender, length and container.
    fn default() -> (filter: Self)
        ensures
            filter@ == (ByCountFilterView {
                sender_id: None,
                length: None,
                container_ids: Seq::empty(),
                limit: 10,
                order: Order::Descending,
            }),
    {
        let filter = NgramsByCountFilter {
            sender_id: None,
            length: None,
            container_ids: Vec::new(),
            limit: 10,
            order: Order::Descending,
        };
        assert(filter@.container_ids =~= Seq::empty());
        filter
    }
}

} // verus!
