//! The data submitted to the web routes, and how it is read.
//!
//! A ballot update arrives as a list of strings: the ranked item
//! identifiers in preference order, then a delimiter entry, then whatever
//! unranked entries the page shows. The ranked identifiers are the entries
//! before the delimiter, read as decimal numbers, stopping early at any
//! entry that is no identifier.

use vstd::prelude::*;

use crate::parse::parse_item_id;
use crate::parse::parsed_i64;

verus! {

/// The ranked item identifiers that a submitted item list carries: the
/// parsed values of the entries before the delimiter, stopping at the
/// first entry that does not parse.
pub open spec fn ranked_ids(items: Seq<String>) -> Seq<i64>
    decreases items.len(),
{
    if items.len() == 0 {
        Seq::empty()
    } else if items[0]@ == "<DELIMITER>"@ {
        Seq::empty()
    } else {
        match parsed_i64(vstd::utf8::encode_utf8(items[0]@)) {
            None => Seq::empty(),
            Some(v) => seq![v] + ranked_ids(items.drop_first()),
        }
    }
}

/// The ranked item identifiers of a submitted item list, exactly as
/// [`ranked_ids`] describes.
pub fn ranked_item_ids(items: &Vec<String>) -> (r: Vec<i64>)
    ensures
        r@ == ranked_ids(items@),
{
    let delimiter: String = "<DELIMITER>".to_owned();
    let mut r: Vec<i64> = Vec::new();
    let mut i: usize = 0;
    proof {
        assert(items@.skip(0) =~= items@);
        assert(r@ + ranked_ids(items@) =~= ranked_ids(items@));
    }
    while i < items.len()
        invariant
            i <= items@.len(),
            delimiter@ == "<DELIMITER>"@,
            ranked_ids(items@) == r@ + ranked_ids(items@.skip(i as int)),
        decreases items@.len() - i,
    {
        proof {
            assert(items@.skip(i as int)[0] == items@[i as int]);
        }
        if items[i].eq(&delimiter) {
            proof {
                assert(ranked_ids(items@.skip(i as int)) =~= Seq::<i64>::empty());
                assert(ranked_ids(items@) =~= r@);
            }
            return r;
        }
        match parse_item_id(&items[i]) {
            None => {
                proof {
                    assert(ranked_ids(items@.skip(i as int)) =~= Seq::<i64>::empty());
                    assert(ranked_ids(items@) =~= r@);
                }
                return r;
            },
            Some(v) => {
                let ghost old_r = r@;
                r.push(v);
                proof {
                    assert(items@.skip(i as int).drop_first() =~= items@.skip(i as int + 1));
                    assert(ranked_ids(items@.skip(i as int)) == seq![v] + ranked_ids(
                        items@.skip(i as int + 1),
                    ));
                    assert(old_r + (seq![v] + ranked_ids(items@.skip(i as int + 1))) =~= r@
                        + ranked_ids(items@.skip(i as int + 1)));
                }
            },
        }
        i += 1;
    }
    proof {
        assert(items@.skip(items@.len() as int) =~= Seq::<String>::empty());
        assert(ranked_ids(items@) =~= r@);
    }
    r
}

/// The body of a ballot update: the submitted item list.
pub struct BallotUpdateData {
    pub items: Vec<String>,
}

impl BallotUpdateData {
    /// The ranked item identifiers of this update, exactly as
    /// [`ranked_ids`] describes.
    pub fn ranked_item_ids(&self) -> (r: Vec<i64>)
        ensures
            r@ == ranked_ids(self.items@),
    {
        ranked_item_ids(&self.items)
    }
}

/// The body of a login form: the voter's textual ballot identifier.
pub struct LoginFormData {
    pub uuid: String,
}

/// The body of a registration form: the textual ballot identifier that the
/// voter asks for.
pub struct RegisterFormData {
    pub uuid: String,
}

} // verus!
