//! The shape of a wiki query response, as the executor reads it: objects
//! whose values are walked, arrays of page records, and leaves that carry
//! nothing.  A page record may be a redirect holding a nested list of the
//! pages linking through it.  This is the one place the transport's
//! response shape is interpreted; the caller converts the wire format
//! into this tree.

use vstd::prelude::*;
use crate::ir::{Title, TitleKey};
use crate::strutil::{
    chars_string, find_char, spec_find_char, spec_underscores_to_spaces, str_chars,
    underscores_to_spaces,
};

verus! {

/// One page record of a listing response.
pub struct PageEntry {
    /// The page's namespace id.
    pub ns: i64,
    /// The namespace-prefixed title text as the wire carries it.
    pub title: String,
    /// Whether the record is marked as a redirect.
    pub redirect: bool,
    /// The pages linking through this redirect, when nested in the
    /// response.
    pub redirlinks: Option<Box<JsonNode>>,
}

/// A response tree.
pub enum JsonNode {
    /// An object: only its values matter, in order.
    Object(Vec<JsonNode>),
    /// An array of page records.
    Array(Vec<PageEntry>),
    /// Anything else.
    Other,
}

/// The title value a page record names: the text after the first colon
/// when the namespace is not the main one, with underscores read as
/// spaces.
pub open spec fn api_title_key(ns: int, full: Seq<char>) -> TitleKey {
    let local = if ns != 0 {
        match spec_find_char(full, ':') {
            Option::Some(i) => full.subrange(i + 1, full.len() as int),
            Option::None => full,
        }
    } else {
        full
    };
    TitleKey { ns, text: spec_underscores_to_spaces(local) }
}

/// Build the title a page record names.
pub fn title_from_api_entry(ns: i64, title: &String) -> (t: Title)
    ensures
        t@ == api_title_key(ns as int, title@),
{
    let chars = str_chars(title.as_str());
    proof {
        crate::strutil::lemma_find_char(chars@, ':');
    }
    let local = if ns != 0 {
        match find_char(&chars, ':') {
            Option::Some(i) => {
                let mut rest: Vec<char> = Vec::new();
                let mut j: usize = i + 1;
                let len = chars.len();
                while j < len
                    invariant
                        len == chars@.len(),
                        i < j <= len,
                        rest@ =~= chars@.subrange(i as int + 1, j as int),
                    decreases len - j,
                {
                    rest.push(chars[j]);
                    proof {
                        assert(rest@ =~= chars@.subrange(i as int + 1, j as int + 1));
                    }
                    j += 1;
                }
                rest
            },
            Option::None => chars,
        }
    } else {
        chars
    };
    let spaced = underscores_to_spaces(&local);
    Title::new(ns, chars_string(&spaced))
}

/// The titles named by a response tree, in reading order.
pub open spec fn titles_of_node(n: JsonNode, inc: bool) -> Seq<TitleKey>
    decreases n,
{
    match n {
        JsonNode::Object(cs) => titles_of_nodes(cs@, inc),
        JsonNode::Array(es) => titles_of_entries(es@, inc),
        JsonNode::Other => Seq::empty(),
    }
}

/// The titles named by a list of subtrees, in order.
pub open spec fn titles_of_nodes(s: Seq<JsonNode>, inc: bool) -> Seq<TitleKey>
    decreases s,
{
    if s.len() == 0 {
        Seq::empty()
    } else {
        titles_of_nodes(s.drop_last(), inc).add(titles_of_node(s.last(), inc))
    }
}

/// The titles named by a list of page records, in order.
pub open spec fn titles_of_entries(s: Seq<PageEntry>, inc: bool) -> Seq<TitleKey>
    decreases s,
{
    if s.len() == 0 {
        Seq::empty()
    } else {
        titles_of_entries(s.drop_last(), inc).add(titles_of_entry(s.last(), inc))
    }
}

/// The titles one page record contributes: a redirect first contributes
/// the pages nested under it, then itself when redirects are kept; a
/// plain record contributes itself.
pub open spec fn titles_of_entry(e: PageEntry, inc: bool) -> Seq<TitleKey>
    decreases e,
{
    if e.redirect {
        let nested = match e.redirlinks {
            Option::Some(b) => titles_of_node(*b, inc),
            Option::None => Seq::empty(),
        };
        if inc {
            nested.push(api_title_key(e.ns as int, e.title@))
        } else {
            nested
        }
    } else {
        seq![api_title_key(e.ns as int, e.title@)]
    }
}

/// Flatten a response tree into the titles it names, in reading order.
/// Redirect records keep or drop themselves as `include_redirect` says;
/// the pages nested under a redirect are always kept.
pub fn result_array_to_titles_ex(data: &JsonNode, include_redirect: bool) -> (r: Vec<Title>)
    ensures
        r@.map_values(|t: Title| t@) == titles_of_node(*data, include_redirect),
    decreases *data,
{
    match data {
        JsonNode::Object(cs) => {
            let mut out: Vec<Title> = Vec::new();
            let mut i: usize = 0;
            let len = cs.len();
            proof {
                assert(out@.map_values(|t: Title| t@) =~= titles_of_nodes(
                    cs@.take(0),
                    include_redirect,
                ));
            }
            while i < len
                invariant
                    *data == JsonNode::Object(*cs),
                    len == cs@.len(),
                    0 <= i <= len,
                    out@.map_values(|t: Title| t@) =~= titles_of_nodes(
                        cs@.take(i as int),
                        include_redirect,
                    ),
                decreases len - i,
            {
                let ghost before = out@;
                proof {
                    assert(*data == JsonNode::Object(*cs));
                    assert(decreases_to!(*data => data->Object_0));
                    assert(data->Object_0 == *cs);
                    assert(decreases_to!(*cs => cs@[i as int]));
                    assert(decreases_to!(*data => cs@[i as int]));
                }
                let mut sub = result_array_to_titles_ex(&cs[i], include_redirect);
                let ghost subv = sub@;
                out.append(&mut sub);
                proof {
                    assert(cs@.take(i as int + 1).drop_last() =~= cs@.take(i as int));
                    assert(cs@.take(i as int + 1).last() == cs@[i as int]);
                    assert(out@.map_values(|t: Title| t@) =~= titles_of_nodes(
                        cs@.take(i as int + 1),
                        include_redirect,
                    )) by {
                        assert(out@ == before.add(subv));
                        assert(out@.map_values(|t: Title| t@) =~= before.map_values(
                            |t: Title| t@,
                        ).add(subv.map_values(|t: Title| t@)));
                    }
                }
                i += 1;
            }
            proof {
                assert(cs@.take(len as int) =~= cs@);
            }
            out
        },
        JsonNode::Array(es) => {
            let mut out: Vec<Title> = Vec::new();
            let mut i: usize = 0;
            let len = es.len();
            proof {
                assert(out@.map_values(|t: Title| t@) =~= titles_of_entries(
                    es@.take(0),
                    include_redirect,
                ));
            }
            while i < len
                invariant
                    *data == JsonNode::Array(*es),
                    len == es@.len(),
                    0 <= i <= len,
                    out@.map_values(|t: Title| t@) =~= titles_of_entries(
                        es@.take(i as int),
                        include_redirect,
                    ),
                decreases len - i,
            {
                let ghost before = out@;
                let e = &es[i];
                let mut part: Vec<Title> = Vec::new();
                if e.redirect {
                    match &e.redirlinks {
                        Option::Some(b) => {
                            proof {
                                let ghost entry = es@[i as int];
                                assert(*data == JsonNode::Array(*es));
                                assert(decreases_to!(*data => data->Array_0));
                                assert(data->Array_0 == *es);
                                assert(decreases_to!(*es => es@[i as int]));
                                assert(decreases_to!(entry => entry.redirlinks));
                                assert(decreases_to!(entry.redirlinks => entry.redirlinks->Some_0));
                                assert(entry.redirlinks->Some_0 == **b);
                                assert(decreases_to!(*data => **b));
                            }
                            part = result_array_to_titles_ex(b, include_redirect);
                        },
                        Option::None => {},
                    }
                    let ghost nested = part@;
                    if include_redirect {
                        part.push(title_from_api_entry(e.ns, &e.title));
                        proof {
                            assert(part@.map_values(|t: Title| t@) =~= nested.map_values(
                                |t: Title| t@,
                            ).push(api_title_key(e.ns as int, e.title@)));
                        }
                    }
                } else {
                    part.push(title_from_api_entry(e.ns, &e.title));
                }
                proof {
                    assert(part@.map_values(|t: Title| t@) =~= titles_of_entry(
                        es@[i as int],
                        include_redirect,
                    ));
                }
                let ghost partv = part@;
                out.append(&mut part);
                proof {
                    assert(es@.take(i as int + 1).drop_last() =~= es@.take(i as int));
                    assert(es@.take(i as int + 1).last() == es@[i as int]);
                    assert(out@.map_values(|t: Title| t@) =~= before.map_values(|t: Title| t@).add(
                        partv.map_values(|t: Title| t@),
                    ));
                    assert(out@.map_values(|t: Title| t@) =~= titles_of_entries(
                        es@.take(i as int + 1),
                        include_redirect,
                    ));
                }
                i += 1;
            }
            proof {
                assert(es@.take(len as int) =~= es@);
            }
            out
        },
        JsonNode::Other => {
            let out: Vec<Title> = Vec::new();
            proof {
                assert(out@.map_values(|t: Title| t@) =~= Seq::<TitleKey>::empty());
            }
            out
        },
    }
}

} // verus!
