//! Attribute policy: per-node display label and color.
//!
//! The label is cut out of the node's `label` attribute text: it starts
//! one past the last `/` (else one past the first `"`, else at 0) and
//! ends at the last `"` (else at the end). Malformed text (end before
//! start) is a per-node warning with fallback to the identity.
//!
//! The color rule groups nodes by their `shape` attribute value: the
//! first node with a given shape value records a fresh random color,
//! every later node with the same value reuses it. Nodes without a
//! shape get an independent random color.

use vstd::prelude::*;
use crate::model::{attrs_view, attr_table, bytes_views, GraphModel};
use crate::rng::rng_range;

verus! {

/// Position of the last occurrence of `b` in `s`, or -1.
pub open spec fn last_pos(s: Seq<u8>, b: u8) -> int
    decreases s.len(),
{
    if s.len() == 0 {
        -1
    } else if s[s.len() - 1] == b {
        s.len() - 1
    } else {
        last_pos(s.drop_last(), b)
    }
}

/// Position of the first occurrence of `b` in `s`, or -1.
pub open spec fn first_pos(s: Seq<u8>, b: u8) -> int
    decreases s.len(),
{
    if s.len() == 0 {
        -1
    } else if s[0] == b {
        0
    } else {
        let r = first_pos(s.drop_first(), b);
        if r < 0 {
            -1
        } else {
            r + 1
        }
    }
}

/// `last_pos` points at an occurrence and nothing occurs after it.
pub proof fn lemma_last_pos(s: Seq<u8>, b: u8)
    ensures
        -1 <= last_pos(s, b) < s.len(),
        last_pos(s, b) >= 0 ==> s[last_pos(s, b)] == b,
        forall|j: int| last_pos(s, b) < j < s.len() ==> s[j] != b,
    decreases s.len(),
{
    if s.len() > 0 {
        if s[s.len() - 1] == b {
        } else {
            lemma_last_pos(s.drop_last(), b);
            let lp = last_pos(s, b);
            assert forall|j: int| lp < j < s.len() implies s[j] != b by {
                if j < s.len() - 1 {
                    assert(s.drop_last()[j] != b);
                    assert(s.drop_last()[j] == s[j]);
                }
            }
        }
    }
}

/// Any position holding `b` with none after it is `last_pos`.
pub proof fn lemma_last_pos_is(s: Seq<u8>, b: u8, i: int)
    requires
        0 <= i < s.len(),
        s[i] == b,
        forall|j: int| i < j < s.len() ==> s[j] != b,
    ensures
        last_pos(s, b) == i,
{
    lemma_last_pos(s, b);
    let lp = last_pos(s, b);
    if lp < i {
        assert(s[i] != b);
    } else if lp > i {
        assert(s[lp] != b);
    }
}

/// `first_pos` points at an occurrence and nothing occurs before it.
pub proof fn lemma_first_pos(s: Seq<u8>, b: u8)
    ensures
        -1 <= first_pos(s, b) < s.len(),
        first_pos(s, b) >= 0 ==> s[first_pos(s, b)] == b,
        forall|j: int| 0 <= j < first_pos(s, b) ==> s[j] != b,
        first_pos(s, b) == -1 ==> forall|j: int| 0 <= j < s.len() ==> s[j] != b,
    decreases s.len(),
{
    if s.len() > 0 {
        if s[0] == b {
        } else {
            lemma_first_pos(s.drop_first(), b);
            let fp = first_pos(s, b);
            assert forall|j: int| 0 <= j < fp implies s[j] != b by {
                if j > 0 {
                    assert(s.drop_first()[j - 1] != b);
                    assert(s.drop_first()[j - 1] == s[j]);
                }
            }
            if fp == -1 {
                assert forall|j: int| 0 <= j < s.len() implies s[j] != b by {
                    if j > 0 {
                        assert(s.drop_first()[j - 1] != b);
                        assert(s.drop_first()[j - 1] == s[j]);
                    }
                }
            }
        }
    }
}

/// Any position holding `b` with none before it is `first_pos`.
pub proof fn lemma_first_pos_is(s: Seq<u8>, b: u8, i: int)
    requires
        0 <= i < s.len(),
        s[i] == b,
        forall|j: int| 0 <= j < i ==> s[j] != b,
    ensures
        first_pos(s, b) == i,
{
    lemma_first_pos(s, b);
    let fp = first_pos(s, b);
    if fp == -1 {
        assert(s[i] != b);
    } else if fp < i {
        assert(s[fp] != b);
    } else if fp > i {
        assert(s[i] != b);
    }
}

/// The slash byte `/`.
pub const SLASH: u8 = 47;

/// The double-quote byte `"`.
pub const QUOTE: u8 = 34;

/// Where the extracted label starts in the attribute text.
pub open spec fn label_start(s: Seq<u8>) -> int {
    if last_pos(s, SLASH) >= 0 {
        last_pos(s, SLASH) + 1
    } else if first_pos(s, QUOTE) >= 0 {
        first_pos(s, QUOTE) + 1
    } else {
        0
    }
}

/// Where the extracted label ends in the attribute text.
pub open spec fn label_end(s: Seq<u8>) -> int {
    if last_pos(s, QUOTE) >= 0 {
        last_pos(s, QUOTE)
    } else {
        s.len() as int
    }
}

/// The text is well-formed for extraction: the end is not before the start.
pub open spec fn label_ok(s: Seq<u8>) -> bool {
    label_start(s) <= label_end(s)
}

/// The extracted label of well-formed attribute text.
pub open spec fn label_of(s: Seq<u8>) -> Seq<u8>
    recommends
        label_ok(s),
{
    s.subrange(label_start(s), label_end(s))
}

/// Last occurrence of `b` in `s`, scanning from the end.
pub fn rfind_byte(s: &Vec<u8>, b: u8) -> (r: Option<usize>)
    ensures
        match r {
            Some(i) => i == last_pos(s@, b) && i < s@.len(),
            None => last_pos(s@, b) == -1,
        },
{
    let mut i: usize = s.len();
    while i > 0
        invariant
            i <= s.len(),
            forall|j: int| i <= j < s@.len() ==> s@[j] != b,
        decreases i,
    {
        i = i - 1;
        if s[i] == b {
            proof {
                lemma_last_pos_is(s@, b, i as int);
            }
            return Some(i);
        }
    }
    proof {
        lemma_last_pos(s@, b);
    }
    None
}

/// First occurrence of `b` in `s`.
pub fn find_byte(s: &Vec<u8>, b: u8) -> (r: Option<usize>)
    ensures
        match r {
            Some(i) => i == first_pos(s@, b) && i < s@.len(),
            None => first_pos(s@, b) == -1,
        },
{
    let mut i: usize = 0;
    while i < s.len()
        invariant
            i <= s.len(),
            forall|j: int| 0 <= j < i ==> s@[j] != b,
        decreases s.len() - i,
    {
        if s[i] == b {
            proof {
                lemma_first_pos_is(s@, b, i as int);
            }
            return Some(i);
        }
        i = i + 1;
    }
    proof {
        lemma_first_pos(s@, b);
    }
    None
}

/// Extract the display label from `label` attribute text, or report
/// malformed text (end before start) with `None`.
pub fn extract_label(s: &Vec<u8>) -> (r: Option<Vec<u8>>)
    ensures
        match r {
            Some(l) => label_ok(s@) && l@ == label_of(s@),
            None => !label_ok(s@),
        },
{
    let n = s.len();
    let start: usize = match rfind_byte(s, SLASH) {
        Some(i) => {
            assert(i < n);
            i + 1
        },
        None => match find_byte(s, QUOTE) {
            Some(i) => {
                assert(i < n);
                i + 1
            },
            None => 0,
        },
    };
    let end: usize = match rfind_byte(s, QUOTE) {
        Some(i) => i,
        None => s.len(),
    };
    proof {
        lemma_last_pos(s@, SLASH);
        lemma_first_pos(s@, QUOTE);
        lemma_last_pos(s@, QUOTE);
        assert(start as int == label_start(s@));
        assert(end as int == label_end(s@));
    }
    if start > end {
        return None;
    }
    let mut out: Vec<u8> = Vec::new();
    let mut i: usize = start;
    while i < end
        invariant
            start <= i <= end,
            end <= s@.len(),
            out@.len() == i - start,
            forall|j: int| 0 <= j < out@.len() ==> out@[j] == s@[start + j],
        decreases end - i,
    {
        out.push(s[i]);
        i = i + 1;
    }
    proof {
        assert(out@ =~= s@.subrange(start as int, end as int));
    }
    Some(out)
}

/// First value bound to `name` in an attribute list, if any.
pub open spec fn attr_lookup(attrs: Seq<(Seq<u8>, Seq<u8>)>, name: Seq<u8>) -> Option<Seq<u8>>
    decreases attrs.len(),
{
    if attrs.len() == 0 {
        Option::None
    } else if attrs[0].0 == name {
        Option::Some(attrs[0].1)
    } else {
        attr_lookup(attrs.drop_first(), name)
    }
}

/// Executable first lookup of `name` in an attribute list.
pub fn attr_find(attrs: &Vec<(Vec<u8>, Vec<u8>)>, name: &Vec<u8>) -> (r: Option<Vec<u8>>)
    ensures
        match r {
            Some(v) => attr_lookup(attrs_view(attrs@), name@) == Option::Some(v@),
            None => attr_lookup(attrs_view(attrs@), name@) is None,
        },
{
    let mut i: usize = 0;
    proof {
        assert(attrs_view(attrs@).skip(0) =~= attrs_view(attrs@));
    }
    while i < attrs.len()
        invariant
            i <= attrs.len(),
            attr_lookup(attrs_view(attrs@), name@) == attr_lookup(
                attrs_view(attrs@).skip(i as int),
                name@,
            ),
        decreases attrs.len() - i,
    {
        let ghost av = attrs_view(attrs@);
        proof {
            assert(av.skip(i as int)[0] == av[i as int]);
        }
        if crate::model::bytes_eq(&attrs[i].0, name) {
            let v = crate::model::copy_bytes(&attrs[i].1);
            return Some(v);
        }
        proof {
            assert(av.skip(i as int).drop_first() =~= av.skip(i as int + 1));
        }
        i = i + 1;
    }
    proof {
        assert(attrs_view(attrs@).skip(attrs@.len() as int) =~= Seq::<(Seq<u8>, Seq<u8>)>::empty());
    }
    None
}

/// The attribute name `label`.
pub open spec fn label_name() -> Seq<u8> {
    seq![108u8, 97u8, 98u8, 101u8, 108u8]
}

/// The attribute name `shape`.
pub open spec fn shape_name() -> Seq<u8> {
    seq![115u8, 104u8, 97u8, 112u8, 101u8]
}

/// The byte vector `label`.
pub fn label_name_vec() -> (r: Vec<u8>)
    ensures
        r@ == label_name(),
{
    let mut v: Vec<u8> = Vec::new();
    v.push(108);
    v.push(97);
    v.push(98);
    v.push(101);
    v.push(108);
    proof {
        assert(v@ =~= label_name());
    }
    v
}

/// The byte vector `shape`.
pub fn shape_name_vec() -> (r: Vec<u8>)
    ensures
        r@ == shape_name(),
{
    let mut v: Vec<u8> = Vec::new();
    v.push(115);
    v.push(104);
    v.push(97);
    v.push(112);
    v.push(101);
    proof {
        assert(v@ =~= shape_name());
    }
    v
}

/// The display label a node with these attributes and identity gets.
pub open spec fn node_label(attrs: Seq<(Seq<u8>, Seq<u8>)>, id: Seq<u8>) -> Seq<u8> {
    match attr_lookup(attrs, label_name()) {
        Option::Some(v) => if label_ok(v) {
            label_of(v)
        } else {
            id
        },
        Option::None => id,
    }
}

/// Whether label extraction warns for these attributes.
pub open spec fn label_warned(attrs: Seq<(Seq<u8>, Seq<u8>)>) -> bool {
    match attr_lookup(attrs, label_name()) {
        Option::Some(v) => !label_ok(v),
        Option::None => false,
    }
}

/// The shape value of a node with these attributes, if any.
pub open spec fn node_shape(attrs: Seq<(Seq<u8>, Seq<u8>)>) -> Option<Seq<u8>> {
    attr_lookup(attrs, shape_name())
}

/// An 8-bit RGB display color.
#[derive(Clone, Copy, Debug, PartialEq, Eq, Structural)]
pub struct Color {
    pub red: u8,
    pub green: u8,
    pub blue: u8,
}

/// A random color, each channel drawn from [0, 255).
pub fn random_color(rng: &mut rand::rngs::StdRng) -> (c: Color)
    ensures
        c.red < 255,
        c.green < 255,
        c.blue < 255,
{
    let r = rng_range(rng, 0, 255);
    let g = rng_range(rng, 0, 255);
    let b = rng_range(rng, 0, 255);
    Color { red: r as u8, green: g as u8, blue: b as u8 }
}

/// The views of a shape palette.
pub open spec fn pal_view(p: Seq<(Vec<u8>, Color)>) -> Seq<(Seq<u8>, Color)> {
    Seq::new(p.len(), |i: int| (p[i].0@, p[i].1))
}

/// Whether the palette holds an entry for shape value `s`.
pub open spec fn pal_has(pal: Seq<(Seq<u8>, Color)>, s: Seq<u8>) -> bool {
    exists|p: int| 0 <= p < pal.len() && (#[trigger] pal[p]).0 == s
}

/// The palette index of shape value `s` (meaningful with unique keys).
pub open spec fn pal_idx(pal: Seq<(Seq<u8>, Color)>, s: Seq<u8>) -> int {
    choose|p: int| 0 <= p < pal.len() && (#[trigger] pal[p]).0 == s
}

/// No two palette entries share a key.
pub open spec fn pal_keys_unique(pal: Seq<(Seq<u8>, Color)>) -> bool {
    forall|p: int, q: int| 0 <= p < q < pal.len() ==> (#[trigger] pal[p]).0 != (#[trigger] pal[q]).0
}

/// Every key of `old` keeps its index and entry in `new`.
pub open spec fn palette_extends(old: Seq<(Seq<u8>, Color)>, new: Seq<(Seq<u8>, Color)>) -> bool {
    forall|s: Seq<u8>|
        #[trigger] pal_has(old, s) ==> pal_has(new, s) && pal_idx(new, s) == pal_idx(old, s)
            && new[pal_idx(old, s)] == old[pal_idx(old, s)]
}

/// With unique keys, any index holding key `s` is `pal_idx`.
pub proof fn lemma_pal_idx_is(pal: Seq<(Seq<u8>, Color)>, s: Seq<u8>, p: int)
    requires
        0 <= p < pal.len(),
        pal[p].0 == s,
        pal_keys_unique(pal),
    ensures
        pal_idx(pal, s) == p,
{
    let q = pal_idx(pal, s);
    assert(0 <= q < pal.len() && pal[q].0 == s);
    if q < p {
        assert(pal[q].0 != pal[p].0);
    } else if p < q {
        assert(pal[p].0 != pal[q].0);
    }
}

/// Pushing a fresh key keeps old entries in place.
pub proof fn lemma_pal_push(pal: Seq<(Seq<u8>, Color)>, e: (Seq<u8>, Color))
    requires
        pal_keys_unique(pal),
        !pal_has(pal, e.0),
    ensures
        pal_keys_unique(pal.push(e)),
        palette_extends(pal, pal.push(e)),
        pal_has(pal.push(e), e.0),
        pal_idx(pal.push(e), e.0) == pal.len(),
{
    let np = pal.push(e);
    assert forall|p: int, q: int| 0 <= p < q < np.len() implies (#[trigger] np[p]).0 != (
    #[trigger] np[q]).0 by {
        if q == pal.len() {
            assert(np[q] == e);
            assert(np[p] == pal[p]);
            if np[p].0 == e.0 {
                assert(pal_has(pal, e.0));
            }
        } else {
            assert(np[p] == pal[p]);
            assert(np[q] == pal[q]);
        }
    }
    assert forall|s: Seq<u8>| #[trigger] pal_has(pal, s) implies pal_has(np, s) && pal_idx(np, s)
        == pal_idx(pal, s) && np[pal_idx(pal, s)] == pal[pal_idx(pal, s)] by {
        let p = pal_idx(pal, s);
        assert(0 <= p < pal.len() && pal[p].0 == s);
        assert(np[p].0 == s);
        assert(pal_has(np, s));
        lemma_pal_idx_is(np, s, p);
        assert(np[p] == pal[p]);
    }
    assert(np[pal.len() as int].0 == e.0);
    assert(pal_has(np, e.0));
    lemma_pal_idx_is(np, e.0, pal.len() as int);
}

/// Node `i`'s color is the palette color of its shape value, if it has one.
pub open spec fn color_linked(
    m: GraphModel,
    colors: Seq<Color>,
    pal: Seq<(Seq<u8>, Color)>,
    i: int,
) -> bool {
    node_shape(attr_table(m.attrs@)[i]) is Some ==> pal_has(
        pal,
        node_shape(attr_table(m.attrs@)[i]).unwrap(),
    ) && colors[i] == pal[pal_idx(pal, node_shape(attr_table(m.attrs@)[i]).unwrap())].1
}

/// Per-node display data computed before layout: colors, labels, and
/// which nodes raised a label-extraction warning.
pub struct StyleAssignment {
    pub colors: Vec<Color>,
    pub labels: Vec<Vec<u8>>,
    pub warned: Vec<bool>,
}

/// Assign each node its color and label, before the solver starts.
///
/// Labels follow `node_label`; the warning flag marks exactly the nodes
/// whose label text was malformed. Colors are random, except that nodes
/// sharing a shape value share one color: the one recorded when that
/// value was first seen.
pub fn assign_styles(m: &GraphModel, rng: &mut rand::rngs::StdRng) -> (r: StyleAssignment)
    requires
        m.wf(),
    ensures
        r.colors@.len() == m.node_count(),
        r.labels@.len() == m.node_count(),
        r.warned@.len() == m.node_count(),
        forall|i: int|
            0 <= i < m.node_count() ==> (#[trigger] r.labels@[i])@ == node_label(
                attr_table(m.attrs@)[i],
                bytes_views(m.ids@)[i],
            ),
        forall|i: int|
            0 <= i < m.node_count() ==> (#[trigger] r.warned@[i] == label_warned(
                attr_table(m.attrs@)[i],
            )),
        forall|i: int, j: int|
            0 <= i < m.node_count() && 0 <= j < m.node_count() && node_shape(
                attr_table(m.attrs@)[i],
            ) is Some && node_shape(attr_table(m.attrs@)[i]) == node_shape(attr_table(m.attrs@)[j])
                ==> #[trigger] r.colors@[i] == #[trigger] r.colors@[j],
{
    let shape_key = shape_name_vec();
    let label_key = label_name_vec();
    let mut colors: Vec<Color> = Vec::new();
    let mut labels: Vec<Vec<u8>> = Vec::new();
    let mut warned: Vec<bool> = Vec::new();
    let mut palette: Vec<(Vec<u8>, Color)> = Vec::new();
    let n = m.ids.len();
    let mut k: usize = 0;
    while k < n
        invariant
            k <= n,
            n == m.ids@.len(),
            m.wf(),
            shape_key@ == shape_name(),
            label_key@ == label_name(),
            colors@.len() == k,
            labels@.len() == k,
            warned@.len() == k,
            pal_keys_unique(pal_view(palette@)),
            forall|i: int|
                0 <= i < k ==> (#[trigger] labels@[i])@ == node_label(
                    attr_table(m.attrs@)[i],
                    bytes_views(m.ids@)[i],
                ),
            forall|i: int|
                0 <= i < k ==> (#[trigger] warned@[i] == label_warned(attr_table(m.attrs@)[i])),
            forall|i: int|
                0 <= i < k ==> #[trigger] color_linked(*m, colors@, pal_view(palette@), i),
        decreases n - k,
    {
        proof {
            assert(attr_table(m.attrs@)[k as int] == attrs_view(m.attrs@[k as int]@));
        }
        let ghost pal0 = pal_view(palette@);
        let ghost colors0 = colors@;
        let ghost shape_k = node_shape(attr_table(m.attrs@)[k as int]);
        let mut color = random_color(rng);
        match attr_find(&m.attrs[k], &shape_key) {
            Some(sv) => {
                proof {
                    assert(shape_k == Option::Some(sv@));
                }
                match pal_find(&palette, &sv) {
                    Some(p) => {
                        proof {
                            assert(pal_view(palette@)[p as int].0 == sv@);
                            lemma_pal_idx_is(pal_view(palette@), sv@, p as int);
                            assert(pal_has(pal_view(palette@), sv@));
                        }
                        color = palette[p].1;
                        proof {
                            assert(color == pal_view(palette@)[pal_idx(
                                pal_view(palette@),
                                sv@,
                            )].1);
                            assert(palette_extends(pal0, pal_view(palette@)));
                        }
                    },
                    None => {
                        proof {
                            lemma_pal_push(pal0, (sv@, color));
                        }
                        palette.push((sv, color));
                        proof {
                            assert(pal_view(palette@) =~= pal0.push((sv@, color)));
                            assert(pal_has(pal_view(palette@), sv@));
                            assert(pal_idx(pal_view(palette@), sv@) == pal0.len());
                            assert(color == pal_view(palette@)[pal_idx(
                                pal_view(palette@),
                                sv@,
                            )].1);
                            assert(palette_extends(pal0, pal_view(palette@)));
                        }
                    },
                }
            },
            None => {
                proof {
                    assert(shape_k is None);
                    assert(palette_extends(pal0, pal_view(palette@)));
                }
            },
        }
        proof {
            assert(shape_k is Some ==> pal_has(pal_view(palette@), shape_k.unwrap()) && color
                == pal_view(palette@)[pal_idx(pal_view(palette@), shape_k.unwrap())].1);
        }
        colors.push(color);
        proof {
            assert forall|i: int| 0 <= i < k + 1 implies #[trigger] color_linked(
                *m,
                colors@,
                pal_view(palette@),
                i,
            ) by {
                if node_shape(attr_table(m.attrs@)[i]) is Some {
                    let s = node_shape(attr_table(m.attrs@)[i]).unwrap();
                    if i < k {
                        assert(color_linked(*m, colors0, pal0, i));
                        assert(colors@[i] == colors0[i]);
                        assert(pal_has(pal0, s));
                        assert(colors0[i] == pal0[pal_idx(pal0, s)].1);
                        assert(pal_has(pal_view(palette@), s) && pal_idx(pal_view(palette@), s)
                            == pal_idx(pal0, s) && pal_view(palette@)[pal_idx(pal0, s)]
                            == pal0[pal_idx(pal0, s)]);
                    } else {
                        assert(colors@[i] == color);
                    }
                }
            }
        }
        let label = match attr_find(&m.attrs[k], &label_key) {
            Some(lv) => {
                match extract_label(&lv) {
                    Some(l) => {
                        warned.push(false);
                        l
                    },
                    None => {
                        warned.push(true);
                        crate::model::copy_bytes(&m.ids[k])
                    },
                }
            },
            None => {
                warned.push(false);
                crate::model::copy_bytes(&m.ids[k])
            },
        };
        labels.push(label);
        k = k + 1;
    }
    proof {
        assert forall|i: int, j: int|
            0 <= i < m.node_count() && 0 <= j < m.node_count() && node_shape(
                attr_table(m.attrs@)[i],
            ) is Some && node_shape(attr_table(m.attrs@)[i]) == node_shape(
                attr_table(m.attrs@)[j],
            ) implies colors@[i] == colors@[j] by {
            assert(color_linked(*m, colors@, pal_view(palette@), i));
            assert(color_linked(*m, colors@, pal_view(palette@), j));
        }
    }
    StyleAssignment { colors, labels, warned }
}

/// First palette index holding shape value `s`, if any.
pub fn pal_find(palette: &Vec<(Vec<u8>, Color)>, s: &Vec<u8>) -> (r: Option<usize>)
    ensures
        match r {
            Some(p) => 0 <= p < palette@.len() && (#[trigger] palette@[p as int]).0@ == s@,
            None => !pal_has(pal_view(palette@), s@),
        },
{
    let mut i: usize = 0;
    while i < palette.len()
        invariant
            i <= palette.len(),
            forall|j: int| 0 <= j < i ==> (#[trigger] palette@[j]).0@ != s@,
        decreases palette.len() - i,
    {
        if crate::model::bytes_eq(&palette[i].0, s) {
            return Some(i);
        }
        i = i + 1;
    }
    proof {
        assert forall|p: int| 0 <= p < pal_view(palette@).len() implies (#[trigger] pal_view(
            palette@,
        )[p]).0 != s@ by {
            assert(palette@[p].0@ != s@);
        }
    }
    None
}

} // verus!
