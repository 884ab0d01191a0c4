//! The content contract of template nodes (`content_spec`): what each place
//! of a document is filled from, and the `{field_key}` placeholder expansion.
use vstd::prelude::*;
use crate::json::{json_str_field, value_str_field};
use crate::text::{chars_of, opt_view, str_eq, string_from_range};

verus! {

/// The content class of an assembled block (`empty` = pure structure).
#[derive(Debug, Clone, Copy, PartialEq, Eq, Structural)]
pub enum BlockKind {
    Text,
    Field,
    Table,
    Trace,
    Slot,
    Empty,
}

/// The block kind named by a `kind` entry.
pub open spec fn block_kind_of(kind: Option<Seq<char>>) -> BlockKind {
    match kind {
        Some(s) => if s == "text"@ {
            BlockKind::Text
        } else if s == "field"@ {
            BlockKind::Field
        } else if s == "table"@ {
            BlockKind::Table
        } else if s == "trace"@ {
            BlockKind::Trace
        } else if s == "slot"@ {
            BlockKind::Slot
        } else {
            BlockKind::Empty
        },
        None => BlockKind::Empty,
    }
}

impl BlockKind {
    /// The kind of a `content_spec`: its `kind` string; missing or unknown gives `Empty`.
    pub fn from_spec(value: &serde_json::Value) -> (r: BlockKind)
        ensures
            r == block_kind_of(json_str_field(*value, "kind"@)),
    {
        match value_str_field(value, "kind") {
            Some(k) => {
                let s = k.as_str();
                if str_eq(s, "text") {
                    BlockKind::Text
                } else if str_eq(s, "field") {
                    BlockKind::Field
                } else if str_eq(s, "table") {
                    BlockKind::Table
                } else if str_eq(s, "trace") {
                    BlockKind::Trace
                } else if str_eq(s, "slot") {
                    BlockKind::Slot
                } else {
                    BlockKind::Empty
                }
            },
            None => BlockKind::Empty,
        }
    }
}

/// The content source a template node declares.
pub enum ContentSpec {
    /// Boilerplate text, may hold `{field_key}` placeholders.
    Text { text: String },
    /// A scalar project field; `doc_kind` scopes it (default: the document's kind).
    Field { field: String, doc_kind: Option<String> },
    /// A project data table by table key, optionally filtered on the
    /// `party_kind` / `category` columns.
    Table { source: String, party_kind: Option<String>, category: Option<String> },
    /// A trace slice: `matrix` or `test_items`.
    Trace { view: String },
    /// A manual slot filled in the checklist; `placeholder` when unfilled.
    Slot { placeholder: String, role: Option<String> },
}

/// The first position of `c` in `s`.
pub open spec fn find_char(s: Seq<char>, c: char) -> Option<int>
    decreases s.len(),
{
    if s.len() == 0 {
        None
    } else if s[0] == c {
        Some(0)
    } else {
        match find_char(s.drop_first(), c) {
            Some(i) => Some(i + 1),
            None => None,
        }
    }
}

pub proof fn lemma_find_char(s: Seq<char>, c: char)
    ensures
        match find_char(s, c) {
            Some(i) => 0 <= i < s.len() && s[i] == c && forall|j: int| 0 <= j < i ==> s[j] != c,
            None => forall|j: int| 0 <= j < s.len() ==> s[j] != c,
        },
    decreases s.len(),
{
    if s.len() > 0 && s[0] != c {
        lemma_find_char(s.drop_first(), c);
        match find_char(s.drop_first(), c) {
            Some(i) => {
                assert forall|j: int| 0 <= j < i + 1 implies s[j] != c by {
                    if j > 0 {
                        assert(s[j] == s.drop_first()[j - 1]);
                    }
                }
            },
            None => {
                assert forall|j: int| 0 <= j < s.len() implies s[j] != c by {
                    if j > 0 {
                        assert(s[j] == s.drop_first()[j - 1]);
                    }
                }
            },
        }
    }
}

/// The placeholder keys of `s`, in the order they are looked up.
pub open spec fn interp_keys(s: Seq<char>) -> Seq<Seq<char>>
    decreases s.len(),
{
    match find_char(s, '{') {
        None => Seq::empty(),
        Some(o) => {
            proof {
                lemma_find_char(s, '{');
            }
            let rest = s.skip(o + 1);
            match find_char(rest, '}') {
                Some(c) => if c > 0 {
                    proof {
                        lemma_find_char(rest, '}');
                    }
                    seq![rest.take(c)] + interp_keys(rest.skip(c + 1))
                } else {
                    interp_keys(rest)
                },
                None => interp_keys(rest),
            }
        },
    }
}

/// The expansion of `s` when the successive lookups give `vals`: a found
/// value replaces `{key}`, a missing one leaves `{key}` as written; a `{`
/// without a closing `}`, or with `{}`, is kept as is.
pub open spec fn render(s: Seq<char>, vals: Seq<Option<Seq<char>>>) -> Seq<char>
    decreases s.len(),
{
    match find_char(s, '{') {
        None => s,
        Some(o) => {
            proof {
                lemma_find_char(s, '{');
            }
            let rest = s.skip(o + 1);
            s.take(o) + match find_char(rest, '}') {
                Some(c) => if c > 0 {
                    proof {
                        lemma_find_char(rest, '}');
                    }
                    (match vals[0] {
                        Some(v) => v,
                        None => seq!['{'] + rest.take(c) + seq!['}'],
                    }) + render(rest.skip(c + 1), vals.drop_first())
                } else {
                    seq!['{'] + render(rest, vals)
                },
                None => seq!['{'] + render(rest, vals),
            }
        },
    }
}

/// The expansion of `s` with a lookup function `f`.
pub open spec fn interpolate_spec(s: Seq<char>, f: spec_fn(Seq<char>) -> Option<Seq<char>>) -> Seq<
    char,
> {
    render(s, interp_keys(s).map_values(f))
}

/// The first `c` in `v` at or after `from`.
fn find_from(v: &Vec<char>, from: usize, c: char) -> (r: Option<usize>)
    requires
        from <= v@.len(),
    ensures
        match r {
            Some(i) => from <= i < v@.len() && find_char(v@.skip(from as int), c) == Some(i - from),
            None => find_char(v@.skip(from as int), c) is None,
        },
{
    let mut i = from;
    while i < v.len()
        invariant
            from <= i <= v@.len(),
            forall|j: int| from <= j < i ==> v@[j] != c,
        decreases v.len() - i,
    {
        if v[i] == c {
            proof {
                lemma_find_char(v@.skip(from as int), c);
                let s = v@.skip(from as int);
                assert(s[i - from] == c);
                match find_char(s, c) {
                    Some(k) => {
                        if k < i - from {
                            assert(s[k] == v@[from + k]);
                        }
                        if k > i - from {
                            assert(s[i - from] != c);
                        }
                    },
                    None => {
                        assert(s[i - from] != c);
                    },
                }
            }
            return Some(i);
        }
        i = i + 1;
    }
    proof {
        lemma_find_char(v@.skip(from as int), c);
        let s = v@.skip(from as int);
        match find_char(s, c) {
            Some(k) => {
                assert(s[k] == v@[from + k]);
            },
            None => {},
        }
    }
    None
}

/// `render` after consuming a piece: the pieces left and the values left line up.
proof fn lemma_render_unfold(s: Seq<char>, vals: Seq<Option<Seq<char>>>)
    ensures
        render(s, vals) == match find_char(s, '{') {
            None => s,
            Some(o) => {
                let rest = s.skip(o + 1);
                s.take(o) + match find_char(rest, '}') {
                    Some(c) => if c > 0 {
                        (match vals[0] {
                            Some(v) => v,
                            None => seq!['{'] + rest.take(c) + seq!['}'],
                        }) + render(rest.skip(c + 1), vals.drop_first())
                    } else {
                        seq!['{'] + render(rest, vals)
                    },
                    None => seq!['{'] + render(rest, vals),
                }
            },
        },
{
}

/// `get` gave `v` for a key with the characters `key`.
pub open spec fn looked_up<F: Fn(&str) -> Option<String>>(
    get: F,
    key: Seq<char>,
    v: Option<String>,
) -> bool {
    exists|k: &str| k@ == key && #[trigger] get.ensures((k,), v)
}

/// `r` is the expansion of `text` with the lookup results `vals`, each of
/// which `get` gave for the corresponding key.
pub open spec fn interpolated_by<F: Fn(&str) -> Option<String>>(
    text: Seq<char>,
    get: F,
    vals: Seq<Option<String>>,
    r: Seq<char>,
) -> bool {
    &&& vals.len() == interp_keys(text).len()
    &&& forall|i: int|
        0 <= i < vals.len() ==> #[trigger] looked_up(get, interp_keys(text)[i], vals[i])
    &&& r == render(text, vals.map_values(|o: Option<String>| opt_view(o)))
}

impl ContentSpec {
    /// Replaces each `{field_key}` of `text` by `get(field_key)`; a key that
    /// gives `None` is left as `{field_key}` (so a reader sees what is
    /// missing). Only ASCII `{` / `}` delimit keys; `{}` and an unclosed `{`
    /// stay as written. The lookups happen in text order, one per key. With
    /// a lookup that never finds anything, the text comes back unchanged.
    #[verifier::rlimit(60)]
    pub fn interpolate<F: Fn(&str) -> Option<String>>(text: &str, get: F) -> (r: String)
        requires
            forall|k: &str| #[trigger] get.requires((k,)),
        ensures
            exists|vals: Seq<Option<String>>| #[trigger] interpolated_by(text@, get, vals, r@),
            (forall|k: &str, o: Option<String>| #[trigger] get.ensures((k,), o) ==> o is None) ==> r@
                == text@,
    {
        let v = chars_of(text);
        let n = v.len();
        let mut out = String::new();
        let mut pos: usize = 0;
        let ghost mut vals: Seq<Option<String>> = Seq::empty();
        let ghost mut kd: Seq<Seq<char>> = Seq::empty();
        assert(v@.skip(0) =~= v@);
        assert forall|x: Seq<Option<Seq<char>>>|
            render(v@, vals.map_values(|o: Option<String>| opt_view(o)) + x) == out@ + #[trigger] render(
                v@.skip(pos as int),
                x,
            ) by {
            assert(vals.map_values(|o: Option<String>| opt_view(o)) + x =~= x);
            assert(out@ + render(v@.skip(pos as int), x) =~= render(v@.skip(pos as int), x));
        }
        while pos < n
            invariant
                n == v@.len(),
                v@ == text@,
                pos <= n,
                forall|k: &str| #[trigger] get.requires((k,)),
                kd.len() == vals.len(),
                interp_keys(v@) == kd + interp_keys(v@.skip(pos as int)),
                forall|i: int| 0 <= i < vals.len() ==> #[trigger] looked_up(get, kd[i], vals[i]),
                forall|x: Seq<Option<Seq<char>>>|
                    render(v@, vals.map_values(|o: Option<String>| opt_view(o)) + x) == out@
                        + #[trigger] render(v@.skip(pos as int), x),
            decreases n - pos,
        {
            let ghost s = v@.skip(pos as int);
            let ghost old_out = out@;
            let ghost old_vals = vals;
            let ghost old_kd = kd;
            let ghost old_pos = pos;
            match find_from(&v, pos, '{') {
                None => {
                    let tail = string_from_range(&v, pos, n);
                    out.append(tail.as_str());
                    proof {
                        assert(v@.subrange(pos as int, n as int) =~= s);
                        assert(v@.skip(n as int) =~= Seq::<char>::empty());
                        assert(interp_keys(s) =~= Seq::<Seq<char>>::empty());
                        assert(interp_keys(Seq::<char>::empty()) =~= Seq::<Seq<char>>::empty());
                        assert(kd + Seq::<Seq<char>>::empty() =~= kd);
                        assert forall|x: Seq<Option<Seq<char>>>|
                            render(v@, vals.map_values(|o: Option<String>| opt_view(o)) + x) == out@
                                + #[trigger] render(v@.skip(n as int), x) by {
                            assert(render(s, x) == s);
                            assert(render(v@.skip(n as int), x) == v@.skip(n as int));
                            assert(old_out + s + v@.skip(n as int) =~= out@ + v@.skip(n as int));
                        }
                    }
                    pos = n;
                },
                Some(o) => {
                    let head = string_from_range(&v, pos, o);
                    out.append(head.as_str());
                    let after = o + 1;
                    proof {
                        lemma_find_char(s, '{');
                        assert(s.take(o - pos) =~= v@.subrange(pos as int, o as int));
                        assert(s.skip(o - pos + 1) =~= v@.skip(after as int));
                    }
                    let close = find_from(&v, after, '}');
                    let mut keyed = false;
                    match close {
                        Some(c) => {
                            if c > after {
                                keyed = true;
                                let key = string_from_range(&v, after, c);
                                let ks: &str = key.as_str();
                                let res = get(ks);
                                match &res {
                                    Some(val) => {
                                        out.append(val.as_str());
                                    },
                                    None => {
                                        out.push('{');
                                        out.append(ks);
                                        out.push('}');
                                    },
                                }
                                proof {
                                    let rest = v@.skip(after as int);
                                    lemma_find_char(rest, '}');
                                    assert(rest.take(c - after) =~= key@);
                                    assert(rest.skip(c - after + 1) =~= v@.skip(c + 1));
                                    vals = vals.push(res);
                                    kd = kd.push(key@);
                                    assert(get.ensures((ks,), res));
                                    assert forall|i: int| 0 <= i < vals.len() implies #[trigger] looked_up(
                                        get,
                                        kd[i],
                                        vals[i],
                                    ) by {
                                        if i < old_vals.len() {
                                            assert(vals[i] == old_vals[i] && kd[i] == old_kd[i]);
                                            assert(looked_up(get, old_kd[i], old_vals[i]));
                                        } else {
                                            assert(ks@ == kd[i] && get.ensures((ks,), vals[i]));
                                        }
                                    }
                                    assert(interp_keys(s) == seq![key@] + interp_keys(v@.skip(c + 1)));
                                    assert(interp_keys(v@) =~= kd + interp_keys(v@.skip(c + 1)));
                                    let piece = match res {
                                        Some(vv) => vv@,
                                        None => seq!['{'] + key@ + seq!['}'],
                                    };
                                    assert(out@ =~= old_out + v@.subrange(pos as int, o as int) + piece);
                                    assert forall|x: Seq<Option<Seq<char>>>|
                                        render(v@, vals.map_values(|o: Option<String>| opt_view(o)) + x)
                                            == out@ + #[trigger] render(v@.skip(c + 1), x) by {
                                        let x2 = seq![opt_view(res)] + x;
                                        assert(vals.map_values(|o: Option<String>| opt_view(o)) + x
                                            =~= old_vals.map_values(|o: Option<String>| opt_view(o))
                                            + x2);
                                        assert(render(s, x2) == old_out.take(0) + s.take(o - pos)
                                            + piece + render(v@.skip(c + 1), x)) by {
                                            lemma_render_unfold(s, x2);
                                            assert(x2.drop_first() =~= x);
                                        }
                                        assert(old_out.take(0) =~= Seq::<char>::empty());
                                    }
                                }
                                pos = c + 1;
                            }
                        },
                        None => {},
                    }
                    if !keyed {
                        out.push('{');
                        proof {
                            let rest = v@.skip(after as int);
                            lemma_find_char(rest, '}');
                            assert(interp_keys(s) == interp_keys(rest));
                            assert forall|x: Seq<Option<Seq<char>>>|
                                render(v@, vals.map_values(|o: Option<String>| opt_view(o)) + x)
                                    == out@ + #[trigger] render(v@.skip(after as int), x) by {
                                lemma_render_unfold(s, x);
                                assert(render(s, x) == s.take(o - pos) + seq!['{'] + render(rest, x));
                                assert(out@ =~= old_out + v@.subrange(pos as int, o as int) + seq!['{']);
                            }
                        }
                        pos = after;
                    }
                },
            }
        }
        proof {
            assert(v@.skip(n as int) =~= Seq::<char>::empty());
            assert(interp_keys(Seq::<char>::empty()) =~= Seq::<Seq<char>>::empty());
            assert(kd + Seq::<Seq<char>>::empty() =~= kd);
            let e = Seq::<Option<Seq<char>>>::empty();
            assert(render(v@.skip(n as int), e) =~= Seq::<char>::empty());
            assert(vals.map_values(|o: Option<String>| opt_view(o)) + e =~= vals.map_values(
                |o: Option<String>| opt_view(o),
            ));
            assert(out@ + Seq::<char>::empty() =~= out@);
            assert(render(v@, vals.map_values(|o: Option<String>| opt_view(o)) + e) == out@ + render(
                v@.skip(n as int),
                e,
            ));
            assert(kd == interp_keys(text@));
            assert forall|i: int| 0 <= i < vals.len() implies #[trigger] looked_up(
                get,
                interp_keys(text@)[i],
                vals[i],
            ) by {
                assert(looked_up(get, kd[i], vals[i]));
            }
            assert(interpolated_by(text@, get, vals, out@));
            if forall|k: &str, o: Option<String>| #[trigger] get.ensures((k,), o) ==> o is None {
                let vv = vals.map_values(|o: Option<String>| opt_view(o));
                assert forall|i: int| 0 <= i < vv.len() implies #[trigger] vv[i] is None by {
                    assert(looked_up(get, interp_keys(text@)[i], vals[i]));
                }
                crate::laws::lemma_render_unknown(text@, vv);
            }
        }
        out
    }
}

} // verus!
