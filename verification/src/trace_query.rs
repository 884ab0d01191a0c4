//! Query parameters of the trace views: the comma-separated link type filter
//! and the walking direction.
use vstd::prelude::*;
use crate::error::ServiceError;
use crate::graph::Direction;
use crate::text::{ascii_lower_seq, opt_view, str_eq, trim, trim_seq};
use crate::trace_model::{link_type_of_name, LinkType};

verus! {

/// What `str::split(sep)` gives back: the pieces between separators, in
/// order; an empty string is one empty piece.
pub open spec fn split_on(s: Seq<char>, sep: char) -> Seq<Seq<char>>
    decreases s.len(),
{
    if s.len() == 0 {
        seq![Seq::<char>::empty()]
    } else {
        let rest = split_on(s.drop_last(), sep);
        if s.last() == sep {
            rest.push(Seq::<char>::empty())
        } else {
            rest.update(rest.len() - 1, rest.last().push(s.last()))
        }
    }
}

/// Reads the pieces in order: a blank piece is skipped, a known link type
/// name (after trimming, any ASCII case) is collected, and the first unknown
/// name stops the reading with its message.
pub open spec fn link_types_of_parts(parts: Seq<Seq<char>>) -> Result<Seq<LinkType>, Seq<char>>
    decreases parts.len(),
{
    if parts.len() == 0 {
        Ok(Seq::empty())
    } else {
        match link_types_of_parts(parts.drop_last()) {
            Err(m) => Err(m),
            Ok(prev) => {
                let p = trim_seq(parts.last());
                if p.len() == 0 {
                    Ok(prev)
                } else {
                    match link_type_of_name(ascii_lower_seq(p)) {
                        Some(t) => Ok(prev.push(t)),
                        None => Err("unknown link_type: "@ + p),
                    }
                }
            },
        }
    }
}

/// What `parse_link_types` gives back: no filter when the parameter is
/// absent, else the types named in it or the message of the first unknown one.
pub open spec fn parse_link_types_spec(raw: Option<Seq<char>>) -> Result<
    Option<Seq<LinkType>>,
    Seq<char>,
> {
    match raw {
        None => Ok(None),
        Some(s) => match link_types_of_parts(split_on(s, ',')) {
            Ok(v) => Ok(Some(v)),
            Err(m) => Err(m),
        },
    }
}

/// One piece read into `out`: a blank piece leaves `out` as it was, a known
/// name is appended, an unknown one gives its message.
fn read_part(part: &Vec<char>, out: &mut Vec<LinkType>) -> (r: Option<String>)
    ensures
        ({
            let p = trim_seq(part@);
            if p.len() == 0 {
                r is None && final(out)@ == old(out)@
            } else {
                match link_type_of_name(ascii_lower_seq(p)) {
                    Some(t) => r is None && final(out)@ == old(out)@.push(t),
                    None => r matches Some(m) && m@ == "unknown link_type: "@ + p && final(out)@
                        == old(out)@,
                }
            }
        }),
{
    let raw = crate::text::string_from_chars(part);
    let p = trim(raw.as_str());
    if p.as_str().is_empty() {
        None
    } else {
        match LinkType::parse(p.as_str()) {
            Some(t) => {
                out.push(t);
                None
            },
            None => {
                let mut m = String::from_str("unknown link_type: ");
                m.append(p.as_str());
                Some(m)
            },
        }
    }
}

/// Parses the `link_types` query parameter: `None` when absent; otherwise the
/// comma-separated names, blanks skipped, each trimmed and read in any ASCII
/// case; the first unknown name is a Validation error `unknown link_type: <name>`.
pub fn parse_link_types(raw: Option<String>) -> (r: Result<Option<Vec<LinkType>>, ServiceError>)
    ensures
        match r {
            Ok(None) => parse_link_types_spec(opt_view(raw)) == Ok::<
                Option<Seq<LinkType>>,
                Seq<char>,
            >(None),
            Ok(Some(v)) => parse_link_types_spec(opt_view(raw)) == Ok::<
                Option<Seq<LinkType>>,
                Seq<char>,
            >(Some(v@)),
            Err(e) => e is Validation && parse_link_types_spec(opt_view(raw)) == Err::<
                Option<Seq<LinkType>>,
                Seq<char>,
            >(e.message()),
        },
{
    let s = match raw {
        None => {
            return Ok(None);
        },
        Some(s) => s,
    };
    let chars = crate::text::chars_of(s.as_str());
    let ghost sv = s@;
    let mut out: Vec<LinkType> = Vec::new();
    let mut failed: Option<String> = None;
    let mut cur: Vec<char> = Vec::new();
    let ghost mut done: Seq<Seq<char>> = Seq::empty();
    let mut i: usize = 0;
    assert(sv.take(0) =~= Seq::<char>::empty());
    assert(done.push(cur@) =~= seq![Seq::<char>::empty()]);
    while i < chars.len()
        invariant
            chars@ == sv,
            i <= chars@.len(),
            split_on(sv.take(i as int), ',') == done.push(cur@),
            match failed {
                None => link_types_of_parts(done) == Ok::<Seq<LinkType>, Seq<char>>(out@),
                Some(m) => link_types_of_parts(done) == Err::<Seq<LinkType>, Seq<char>>(m@),
            },
        decreases chars.len() - i,
    {
        let c = chars[i];
        assert(sv.take(i + 1).drop_last() =~= sv.take(i as int));
        assert(sv.take(i + 1).last() == c);
        if c == ',' {
            assert(done.push(cur@).drop_last() =~= done);
            if failed.is_none() {
                failed = read_part(&cur, &mut out);
            }
            proof {
                done = done.push(cur@);
            }
            cur = Vec::new();
            assert(split_on(sv.take(i + 1), ',') =~= done.push(cur@));
        } else {
            cur.push(c);
            assert(split_on(sv.take(i + 1), ',') =~= done.push(cur@));
        }
        i = i + 1;
    }
    assert(sv.take(chars@.len() as int) =~= sv);
    assert(done.push(cur@).drop_last() =~= done);
    if failed.is_none() {
        failed = read_part(&cur, &mut out);
    }
    match failed {
        None => Ok(Some(out)),
        Some(m) => Err(ServiceError::Validation(m)),
    }
}

/// The walking direction named by the `direction` parameter: `up` walks
/// towards upper stages, anything else (or nothing) walks down.
pub fn parse_direction(raw: Option<&str>) -> (r: Direction)
    ensures
        r == (if raw is Some && raw->0@ == "up"@ {
            Direction::Up
        } else {
            Direction::Down
        }),
{
    match raw {
        Some(s) => {
            if str_eq(s, "up") {
                Direction::Up
            } else {
                Direction::Down
            }
        },
        None => Direction::Down,
    }
}

} // verus!
