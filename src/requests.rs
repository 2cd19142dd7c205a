use vstd::prelude::*;
use vstd::string::{StringExecFns, StrSliceExecFns};
use crate::models::Person;

verus! {

/// Why the parameters of a request were refused.
#[derive(Clone, Copy, Debug, PartialEq, Eq, Structural)]
pub enum QueryError {
    /// Not the number of parameters the request takes.
    WrongCount,
    /// No `from` parameter.
    MissingFrom,
    /// No `to` parameter.
    MissingTo,
}

pub open spec fn pair_views(pairs: Seq<(String, String)>) -> Seq<(Seq<char>, Seq<char>)> {
    pairs.map_values(|p: (String, String)| (p.0@, p.1@))
}

/// The value of the last pair whose key is `key`.
pub open spec fn last_value(pairs: Seq<(Seq<char>, Seq<char>)>, key: Seq<char>) -> Option<Seq<char>>
    decreases pairs.len(),
{
    if pairs.len() == 0 {
        None
    } else if pairs.last().0 == key {
        Some(pairs.last().1)
    } else {
        last_value(pairs.drop_last(), key)
    }
}

pub open spec fn opt_view(o: Option<String>) -> Option<Seq<char>> {
    match o {
        Some(s) => Some(s@),
        None => None,
    }
}

/// The two endpoints of a route request, `from` and `to`, out of its query pairs.
/// Exactly two pairs are taken; a key given twice keeps its last value.
pub fn route_endpoints(pairs: &Vec<(String, String)>) -> (r: Result<(String, String), QueryError>)
    ensures
        match r {
            Err(QueryError::WrongCount) => pairs@.len() != 2,
            Err(QueryError::MissingFrom) => pairs@.len() == 2 && last_value(pair_views(pairs@), "from"@).is_none(),
            Err(QueryError::MissingTo) => pairs@.len() == 2 && last_value(pair_views(pairs@), "from"@).is_some()
                && last_value(pair_views(pairs@), "to"@).is_none(),
            Ok((from, to)) => pairs@.len() == 2 && last_value(pair_views(pairs@), "from"@) == Some(from@)
                && last_value(pair_views(pairs@), "to"@) == Some(to@),
        },
{
    if pairs.len() != 2 {
        return Err(QueryError::WrongCount);
    }
    let from_key = String::from_str("from");
    let to_key = String::from_str("to");
    let mut from: Option<String> = None;
    let mut to: Option<String> = None;
    let mut i: usize = 0;
    while i < pairs.len()
        invariant
            i <= pairs.len(),
            from_key@ == "from"@,
            to_key@ == "to"@,
            opt_view(from) == last_value(pair_views(pairs@.take(i as int)), "from"@),
            opt_view(to) == last_value(pair_views(pairs@.take(i as int)), "to"@),
        decreases pairs.len() - i,
    {
        proof {
            let pre = pair_views(pairs@.take(i as int));
            let post = pair_views(pairs@.take(i + 1));
            assert(post.drop_last() =~= pre);
            assert(post.last() == (pairs@[i as int].0@, pairs@[i as int].1@));
        }
        if pairs[i].0 == to_key {
            to = Some(pairs[i].1.clone());
        }
        if pairs[i].0 == from_key {
            from = Some(pairs[i].1.clone());
        }
        i = i + 1;
    }
    proof {
        assert(pairs@.take(pairs.len() as int) =~= pairs@);
    }
    match from {
        None => Err(QueryError::MissingFrom),
        Some(f) => match to {
            None => Err(QueryError::MissingTo),
            Some(t) => Ok((f, t)),
        },
    }
}

/// The name filter of a record listing: exactly one parameter is taken, and it
/// filters only when its key is `name`.
pub fn name_parameter(pairs: &Vec<(String, String)>) -> (r: Result<Option<String>, QueryError>)
    ensures
        match r {
            Err(e) => e == QueryError::WrongCount && pairs@.len() != 1,
            Ok(None) => pairs@.len() == 1 && pairs@[0].0@ != "name"@,
            Ok(Some(v)) => pairs@.len() == 1 && pairs@[0].0@ == "name"@ && v@ == pairs@[0].1@,
        },
{
    if pairs.len() != 1 {
        return Err(QueryError::WrongCount);
    }
    let key = String::from_str("name");
    if pairs[0].0 == key {
        Ok(Some(pairs[0].1.clone()))
    } else {
        Ok(None)
    }
}

/// A phonebook record is accepted only with a name and a phone number.
pub fn person_complete(name: &str, phone: &str) -> (r: bool)
    ensures
        r == (name@.len() > 0 && phone@.len() > 0),
{
    !name.is_empty() && !phone.is_empty()
}

/// A city is accepted only with a name.
pub fn city_complete(name: &str) -> (r: bool)
    ensures
        r == (name@.len() > 0),
{
    !name.is_empty()
}

/// The `WHERE` clause that lists the records whose name holds `arg`, or nothing.
pub fn name_filter(arg: Option<&str>) -> (r: String)
    ensures
        r@ == match arg {
            Some(s) => "WHERE name LIKE '%"@ + s@ + "%'"@,
            None => Seq::<char>::empty(),
        },
{
    match arg {
        Some(s) => {
            let mut clause = String::from_str("WHERE name LIKE '%");
            clause.append(s);
            clause.append("%'");
            clause
        },
        None => String::new(),
    }
}

/// The greatest number of characters in a name, 0 for no records.
pub open spec fn widest_name(records: Seq<Person>) -> nat
    decreases records.len(),
{
    if records.len() == 0 {
        0
    } else {
        let rest = widest_name(records.drop_last());
        let here = records.last().name@.len();
        if here > rest {
            here
        } else {
            rest
        }
    }
}

/// Width of the name column when listing `records`.
pub fn name_width(records: &Vec<Person>) -> (r: usize)
    ensures
        r == widest_name(records@),
{
    let mut widest: usize = 0;
    let mut i: usize = 0;
    while i < records.len()
        invariant
            i <= records.len(),
            widest == widest_name(records@.take(i as int)),
        decreases records.len() - i,
    {
        proof {
            assert(records@.take(i + 1).drop_last() =~= records@.take(i as int));
        }
        let here = records[i].name.as_str().unicode_len();
        if here > widest {
            widest = here;
        }
        i = i + 1;
    }
    proof {
        assert(records@.take(records.len() as int) =~= records@);
    }
    widest
}

} // verus!
