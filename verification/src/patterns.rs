//! Builder, strategy, newtype and enum-state patterns.

use vstd::prelude::*;

use crate::text::{all_white_space, is_blank};

verus! {

/// A finished report.
#[derive(Debug, Clone, PartialEq, Eq)]
pub struct Report {
    pub title: String,
    pub author: String,
    pub sections: Vec<String>,
}

impl Report {
    /// Starts building a report with the given title.
    pub fn builder(title: &str) -> (builder: ReportBuilder)
        ensures
            builder.title_text() == title@,
            builder.author_text() is None,
            builder.section_texts().len() == 0,
    {
        ReportBuilder { title: title.to_owned(), author: None, sections: Vec::new() }
    }
}

/// A report under construction: its title, an optional author, its sections.
#[derive(Debug, Clone, PartialEq, Eq)]
pub struct ReportBuilder {
    title: String,
    author: Option<String>,
    sections: Vec<String>,
}

impl ReportBuilder {
    pub closed spec fn title_text(&self) -> Seq<char> {
        self.title@
    }

    pub closed spec fn author_text(&self) -> Option<Seq<char>> {
        match self.author {
            Some(author) => Some(author@),
            None => None,
        }
    }

    pub closed spec fn section_texts(&self) -> Seq<Seq<char>> {
        self.sections@.map_values(|s: String| s@)
    }

    /// Sets (or replaces) the author.
    pub fn author(self, author: &str) -> (builder: Self)
        ensures
            builder.title_text() == self.title_text(),
            builder.author_text() == Some(author@),
            builder.section_texts() == self.section_texts(),
    {
        let mut builder = self;
        builder.author = Some(author.to_owned());
        builder
    }

    /// Appends a section.
    pub fn section(self, text: &str) -> (builder: Self)
        ensures
            builder.title_text() == self.title_text(),
            builder.author_text() == self.author_text(),
            builder.section_texts() == self.section_texts().push(text@),
    {
        let mut builder = self;
        builder.sections.push(text.to_owned());
        proof {
            assert(builder.section_texts() =~= self.section_texts().push(text@));
        }
        builder
    }

    /// Finishes the report; a title made only of white space is refused,
    /// and a missing author becomes "Anonymous".
    pub fn build(self) -> (result: Result<Report, &'static str>)
        ensures
            all_white_space(self.title_text()) ==> (result matches Err(message) && message@
                == "report title cannot be empty"@),
            !all_white_space(self.title_text()) ==> (result matches Ok(report) && {
                &&& report.title@ == self.title_text()
                &&& report.author@ == match self.author_text() {
                    Some(author) => author,
                    None => "Anonymous"@,
                }
                &&& report.sections@.map_values(|s: String| s@) == self.section_texts()
            }),
    {
        if is_blank(self.title.as_str()) {
            return Err("report title cannot be empty");
        }
        let author = match self.author {
            Some(author) => author,
            None => "Anonymous".to_owned(),
        };
        Ok(Report { title: self.title, author, sections: self.sections })
    }
}

/// How shipping is priced.
pub trait ShippingStrategy {
    /// The shipping cost for an order subtotal.
    spec fn cost(&self, subtotal: u32) -> u32;

    fn shipping_cost(&self, subtotal: u32) -> (cost: u32)
        ensures
            cost == self.cost(subtotal),
    ;
}

/// Free shipping from 50 upwards, 5 below.
#[derive(Debug, Clone, Copy)]
pub struct StandardShipping;

impl ShippingStrategy for StandardShipping {
    open spec fn cost(&self, subtotal: u32) -> u32 {
        if subtotal >= 50 {
            0
        } else {
            5
        }
    }

    fn shipping_cost(&self, subtotal: u32) -> (cost: u32) {
        if subtotal >= 50 {
            0
        } else {
            5
        }
    }
}

/// A flat 15 whatever the subtotal.
#[derive(Debug, Clone, Copy)]
pub struct ExpressShipping;

impl ShippingStrategy for ExpressShipping {
    open spec fn cost(&self, subtotal: u32) -> u32 {
        15
    }

    fn shipping_cost(&self, _subtotal: u32) -> (cost: u32) {
        15
    }
}

/// A checkout priced with a shipping strategy.
pub struct Checkout<S> {
    shipping: S,
}

impl<S: ShippingStrategy> Checkout<S> {
    pub closed spec fn strategy(&self) -> S {
        self.shipping
    }

    pub fn new(shipping: S) -> (checkout: Self)
        ensures
            checkout.strategy() == shipping,
    {
        Self { shipping }
    }

    /// The subtotal plus shipping.
    pub fn total(&self, subtotal: u32) -> (total: u32)
        requires
            subtotal + self.strategy().cost(subtotal) <= u32::MAX,
        ensures
            total == subtotal + self.strategy().cost(subtotal),
    {
        subtotal + self.shipping.shipping_cost(subtotal)
    }
}

/// A user's id, kept apart from other integers.
#[derive(Debug, Clone, Copy, PartialEq, Eq, Structural, Hash)]
pub struct UserId(u64);

impl View for UserId {
    type V = u64;

    closed spec fn view(&self) -> u64 {
        self.0
    }
}

impl UserId {
    pub fn new(value: u64) -> (id: Self)
        ensures
            id@ == value,
    {
        Self(value)
    }

    pub fn get(self) -> (value: u64)
        ensures
            value == self@,
    {
        self.0
    }
}

#[derive(Debug, Clone, Copy, PartialEq, Eq, Structural)]
pub enum TrafficLight {
    Red,
    Green,
    Yellow,
}

impl TrafficLight {
    pub open spec fn successor(self) -> TrafficLight {
        match self {
            TrafficLight::Red => TrafficLight::Green,
            TrafficLight::Green => TrafficLight::Yellow,
            TrafficLight::Yellow => TrafficLight::Red,
        }
    }

    pub fn next(self) -> (light: Self)
        ensures
            light == self.successor(),
    {
        match self {
            Self::Red => Self::Green,
            Self::Green => Self::Yellow,
            Self::Yellow => Self::Red,
        }
    }
}

/// The light cycles: three steps bring it back to where it was.
pub proof fn law_traffic_light_cycles(light: TrafficLight)
    ensures
        light.successor().successor().successor() == light,
{
}

} // verus!
