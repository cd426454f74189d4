//! The record model: one parsed CSV row exposed as a JSON resource.

use crate::jsontext::{append_escaped, esc_str};
use crate::strutil::{append_chars, append_str_chars, chars_to_string, dec_chars_of, usize_to_dec_chars};
use vstd::prelude::*;

verus! {

/// The mathematical value of a [`Product`]: its fields as plain sequences.
pub ghost struct ProductView {
    pub id: usize,
    pub title: Seq<char>,
    pub description: Option<Seq<char>>,
    pub brand: Seq<char>,
    pub price: Seq<char>,
}

/// One record of the indexed table.
///
/// `id` is the lookup key; rows whose id is zero are sentinels and never
/// enter the index. An empty description field parses to `None`. The price
/// is kept as text and never validated numerically.
#[derive(Debug)]
pub struct Product {
    pub id: usize,
    pub title: String,
    pub description: Option<String>,
    pub brand: String,
    pub price: String,
}

impl View for Product {
    type V = ProductView;

    open spec fn view(&self) -> ProductView {
        ProductView {
            id: self.id,
            title: self.title@,
            description: match self.description {
                Some(d) => Some(d@),
                None => None,
            },
            brand: self.brand@,
            price: self.price@,
        }
    }
}

/// The sentinel record substituted for a row that fails to parse; its id of
/// zero keeps it out of the index.
pub fn error_product() -> (r: Product)
    ensures
        r@.id == 0,
        r@.title == "Foo"@,
        r@.description is None,
        r@.brand == "Foo"@,
        r@.price == "Bar"@,
{
    Product {
        id: 0,
        title: "Foo".to_owned(),
        description: None,
        brand: "Foo".to_owned(),
        price: "Bar".to_owned(),
    }
}

/// The JSON body a record is served as: the five fields in order, with a
/// `null` description when the record has none.
pub open spec fn product_json(p: ProductView) -> Seq<char> {
    "{\"id\":"@ + dec_chars_of(p.id as nat) + ",\"title\":\""@ + esc_str(p.title) + seq!['"']
        + ",\"description\":"@ + (match p.description {
        None => "null"@,
        Some(d) => seq!['"'] + esc_str(d) + seq!['"'],
    }) + ",\"brand\":\""@ + esc_str(p.brand) + seq!['"'] + ",\"price\":\""@ + esc_str(p.price)
        + seq!['"'] + seq!['}']
}

impl Product {
    /// Renders the record as its JSON body.
    pub fn to_json(&self) -> (r: String)
        ensures
            r@ == product_json(self@),
    {
        let mut out: Vec<char> = Vec::new();
        append_str_chars(&mut out, "{\"id\":");
        let digits = usize_to_dec_chars(self.id);
        append_chars(&mut out, &digits);
        append_str_chars(&mut out, ",\"title\":\"");
        append_escaped(&mut out, self.title.as_str());
        out.push('"');
        append_str_chars(&mut out, ",\"description\":");
        match &self.description {
            None => {
                append_str_chars(&mut out, "null");
            },
            Some(d) => {
                out.push('"');
                append_escaped(&mut out, d.as_str());
                out.push('"');
            },
        }
        append_str_chars(&mut out, ",\"brand\":\"");
        append_escaped(&mut out, self.brand.as_str());
        out.push('"');
        append_str_chars(&mut out, ",\"price\":\"");
        append_escaped(&mut out, self.price.as_str());
        out.push('"');
        out.push('}');
        proof {
            assert(out@ =~= product_json(self@));
        }
        chars_to_string(&out)
    }
}

} // verus!
