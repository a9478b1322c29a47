//! The renderer: walks the styled tree depth-first and produces the indented
//! markup string. Per element node, the resolved style properties are
//! partitioned into plain attributes on the node's own tag and properties
//! promoted onto synthetic wrapper tags that enclose the rendered children.

use vstd::prelude::*;
use crate::classify::{SyntheticTag, spec_classify, classify};
use crate::node::{StyleValue, NodeType, StyledNode, height, lemma_child_height};
use crate::text::{
    indent_text, strip_quotes, trim_text, value_text, push_indent, push_value, push_stripped,
    push_trimmed, render_value, str_eq,
};

verus! {

/// A resolved style property: its name and its value.
pub type Prop = (String, StyleValue);

/// One rendered attribute: ` name="value"`.
pub open spec fn attr_chunk(name: Seq<char>, val: Seq<char>) -> Seq<char> {
    " "@ + name + "=\""@ + val + "\""@
}

/// The properties that stay as plain attributes on the node's own tag, in
/// their given order: those whose name the classifier does not map.
pub open spec fn sel_plain(props: Seq<Prop>) -> Seq<Prop>
    decreases props.len(),
{
    if props.len() == 0 {
        Seq::empty()
    } else if spec_classify(props.last().0@) is None {
        sel_plain(props.drop_last()).push(props.last())
    } else {
        sel_plain(props.drop_last())
    }
}

/// The properties routed to the given synthetic tag, in their given order.
pub open spec fn sel_routed(props: Seq<Prop>, t: SyntheticTag) -> Seq<Prop>
    decreases props.len(),
{
    if props.len() == 0 {
        Seq::empty()
    } else if spec_classify(props.last().0@) == Some(t) {
        sel_routed(props.drop_last(), t).push(props.last())
    } else {
        sel_routed(props.drop_last(), t)
    }
}

/// The distinct synthetic tags that the property list routes to, in
/// first-seen order.
pub open spec fn tags_of(props: Seq<Prop>) -> Seq<SyntheticTag>
    decreases props.len(),
{
    if props.len() == 0 {
        Seq::empty()
    } else {
        let rest = tags_of(props.drop_last());
        match spec_classify(props.last().0@) {
            Option::None => rest,
            Option::Some(t) => if rest.contains(t) {
                rest
            } else {
                rest.push(t)
            },
        }
    }
}

/// The text of a property list rendered as plain attributes.
pub open spec fn attrs_text(ps: Seq<Prop>) -> Seq<char>
    decreases ps.len(),
{
    if ps.len() == 0 {
        Seq::empty()
    } else {
        attrs_text(ps.drop_last()) + attr_chunk(ps.last().0@, value_text(ps.last().1))
    }
}

/// The text of a property list rendered as attributes of a synthetic wrapper
/// tag: values get their double-quote characters stripped.
pub open spec fn attrs_text_stripped(ps: Seq<Prop>) -> Seq<char>
    decreases ps.len(),
{
    if ps.len() == 0 {
        Seq::empty()
    } else {
        attrs_text_stripped(ps.drop_last()) + attr_chunk(
            ps.last().0@,
            strip_quotes(value_text(ps.last().1)),
        )
    }
}

/// The text of the raw (non-style) DOM attributes: every attribute but
/// `class`, verbatim, in document order.
pub open spec fn dom_attrs_text(attrs: Seq<(String, String)>) -> Seq<char>
    decreases attrs.len(),
{
    if attrs.len() == 0 {
        Seq::empty()
    } else if attrs.last().0@ == "class"@ {
        dom_attrs_text(attrs.drop_last())
    } else {
        dom_attrs_text(attrs.drop_last()) + attr_chunk(attrs.last().0@, attrs.last().1@)
    }
}

/// An opening tag line at the given depth.
pub open spec fn open_line(depth: nat, name: Seq<char>, attrs: Seq<char>) -> Seq<char> {
    indent_text(depth) + "<"@ + name + attrs + ">\n"@
}

/// A closing tag line at the given depth.
pub open spec fn close_line(depth: nat, name: Seq<char>) -> Seq<char> {
    indent_text(depth) + "</"@ + name + ">\n"@
}

/// Successive synthetic wraps around already-rendered child markup: the
/// first tag is outermost, each further tag one level deeper.
pub open spec fn wraps_text(
    tags: Seq<SyntheticTag>,
    props: Seq<Prop>,
    inner: Seq<char>,
    depth: nat,
) -> Seq<char>
    decreases tags.len(),
{
    if tags.len() == 0 {
        inner
    } else {
        open_line(depth, tags[0].spec_name(), attrs_text_stripped(sel_routed(props, tags[0])))
            + wraps_text(tags.drop_first(), props, inner, depth + 1) + close_line(
            depth,
            tags[0].spec_name(),
        )
    }
}

/// The markup of a styled node rendered at the given depth.
///
/// A text node is its trimmed text on one indented line. An element node is
/// its own tag pair at `depth`, carrying the raw DOM attributes (except
/// `class`) and the plain style attributes; inside it, one nested wrapper
/// tag per distinct synthetic tag of its properties; and innermost the
/// children, each rendered one level deeper than the innermost wrapper.
pub open spec fn spec_render(n: StyledNode, depth: nat) -> Seq<char>
    decreases n,
{
    match n.node {
        NodeType::Text(s) => indent_text(depth) + trim_text(s@) + "\n"@,
        NodeType::Element { tag_name, attributes } => {
            let props = n.specified_values@;
            let tags = tags_of(props);
            let inner = spec_render_children(n.children@, depth + 1 + tags.len());
            open_line(
                depth,
                tag_name@,
                dom_attrs_text(attributes@) + attrs_text(sel_plain(props)),
            ) + wraps_text(tags, props, inner, depth + 1) + close_line(depth, tag_name@)
        }
    }
}

/// The concatenation of the children's markup, in document order.
pub open spec fn spec_render_children(cs: Seq<StyledNode>, depth: nat) -> Seq<char>
    decreases cs,
{
    if cs.len() == 0 {
        Seq::empty()
    } else {
        spec_render_children(cs.drop_last(), depth) + spec_render(cs.last(), depth)
    }
}

/// The synthetic tags of a property list are distinct, and -- the table
/// knowing three tags -- there are at most three of them.
pub proof fn lemma_tags_of_props(props: Seq<Prop>)
    ensures
        tags_of(props).no_duplicates(),
        tags_of(props).len() <= 3,
    decreases props.len(),
{
    if props.len() > 0 {
        lemma_tags_of_props(props.drop_last());
        let rest = tags_of(props.drop_last());
        match spec_classify(props.last().0@) {
            Option::None => {}
            Option::Some(t) => {
                if !rest.contains(t) {
                    assert forall|i: int, j: int|
                        0 <= i < j < rest.push(t).len() implies rest.push(t)[i] != rest.push(t)[j]
                    by {
                        if j == rest.len() {
                            assert(rest.push(t)[i] == rest[i]);
                            assert(rest[i] != t);
                        }
                    }
                    if rest.len() == 3 {
                        assert(rest[0] != t && rest[1] != t && rest[2] != t);
                        assert(false);
                    }
                }
            }
        }
    }
}

/// A text node's fragment is the indentation, the trimmed text, and a
/// newline; it depends on the node and the depth alone, never on siblings.
pub proof fn lemma_text_node(n: StyledNode, s: String, depth: nat)
    requires
        n.node == NodeType::Text(s),
    ensures
        spec_render(n, depth) == indent_text(depth) + trim_text(s@) + "\n"@,
{
}

/// Rendering children preserves document order: the markup of a
/// concatenation of child lists is the concatenation of their markup.
pub proof fn lemma_children_order(cs1: Seq<StyledNode>, cs2: Seq<StyledNode>, depth: nat)
    ensures
        spec_render_children(cs1 + cs2, depth) == spec_render_children(cs1, depth)
            + spec_render_children(cs2, depth),
    decreases cs2.len(),
{
    if cs2.len() == 0 {
        assert(cs1 + cs2 =~= cs1);
        assert(spec_render_children(cs1, depth) + spec_render_children(cs2, depth)
            =~= spec_render_children(cs1, depth));
    } else {
        lemma_children_order(cs1, cs2.drop_last(), depth);
        assert((cs1 + cs2).drop_last() =~= cs1 + cs2.drop_last());
        assert(spec_render_children(cs1 + cs2, depth) =~= spec_render_children(cs1, depth)
            + spec_render_children(cs2, depth));
    }
}

/// When none of an element's properties routes to a synthetic tag, the body
/// between the element's own tag lines is exactly the children's markup,
/// each child rendered one level deeper, in document order.
pub proof fn lemma_element_children_block(
    n: StyledNode,
    tag_name: String,
    attributes: Vec<(String, String)>,
    depth: nat,
)
    requires
        n.node == (NodeType::Element { tag_name, attributes }),
        tags_of(n.specified_values@).len() == 0,
    ensures
        spec_render(n, depth) == open_line(
            depth,
            tag_name@,
            dom_attrs_text(attributes@) + attrs_text(sel_plain(n.specified_values@)),
        ) + spec_render_children(n.children@, depth + 1) + close_line(depth, tag_name@),
{
}

/// A rendered fragment is never empty and always ends in a newline.
pub proof fn lemma_ends_in_newline(n: StyledNode, depth: nat)
    ensures
        spec_render(n, depth).len() > 0,
        spec_render(n, depth).last() == '\n',
{
    reveal_strlit("\n");
    reveal_strlit(">\n");
    assert("\n"@.len() == 1);
    assert(">\n"@.len() == 2);
    match n.node {
        NodeType::Text(s) => {
            assert(spec_render(n, depth).last() == '\n');
        }
        NodeType::Element { tag_name, attributes } => {
            assert(spec_render(n, depth).last() == close_line(depth, tag_name@).last());
            assert(close_line(depth, tag_name@).last() == '\n');
        }
    }
}

/// Number of occurrences of a property in a property list.
pub open spec fn count_of(ps: Seq<Prop>, p: Prop) -> nat
    decreases ps.len(),
{
    if ps.len() == 0 {
        0
    } else {
        count_of(ps.drop_last(), p) + (if ps.last() == p {
            1nat
        } else {
            0nat
        })
    }
}

proof fn lemma_push_contains(s: Seq<SyntheticTag>, x: SyntheticTag, y: SyntheticTag)
    requires
        s.contains(y),
    ensures
        s.push(x).contains(y),
{
    let i = choose|i: int| 0 <= i < s.len() && s[i] == y;
    assert(s.push(x)[i] == y);
}

/// Partition totality: every resolved style property goes to exactly one
/// place. An occurrence whose name the classifier does not map is kept among
/// the plain attributes, exactly once, and routed to no synthetic tag; one
/// whose name maps to synthetic tag `t` is routed to `t` exactly once, to no
/// other tag, and not kept plain -- and `t` then stands among the node's
/// wrapper tags, which are distinct (`lemma_tags_of_props`), so exactly one
/// wrapper carries it.
pub proof fn lemma_partition(props: Seq<Prop>, p: Prop)
    ensures
        count_of(sel_plain(props), p) == if spec_classify(p.0@) is None {
            count_of(props, p)
        } else {
            0nat
        },
        forall|t: SyntheticTag| #[trigger]
            count_of(sel_routed(props, t), p) == if spec_classify(p.0@) == Some(t) {
                count_of(props, p)
            } else {
                0nat
            },
        spec_classify(p.0@) is Some && count_of(props, p) > 0 ==> tags_of(props).contains(
            spec_classify(p.0@)->Some_0,
        ),
    decreases props.len(),
{
    if props.len() > 0 {
        lemma_partition(props.drop_last(), p);
        let rest = props.drop_last();
        let q = props.last();
        if spec_classify(q.0@) is None {
            assert(sel_plain(props) == sel_plain(rest).push(q));
            assert(sel_plain(rest).push(q).drop_last() =~= sel_plain(rest));
        }
        assert forall|t: SyntheticTag| #[trigger]
            count_of(sel_routed(props, t), p) == (if spec_classify(p.0@) == Some(t) {
                count_of(props, p)
            } else {
                0nat
            }) by {
            let rr = sel_routed(rest, t);
            assert(count_of(rr, p) == if spec_classify(p.0@) == Some(t) {
                count_of(rest, p)
            } else {
                0nat
            });
            assert(count_of(props, p) == count_of(rest, p) + (if q == p {
                1nat
            } else {
                0nat
            }));
            if spec_classify(q.0@) == Some(t) {
                assert(sel_routed(props, t) == rr.push(q));
                assert(rr.push(q).drop_last() =~= rr);
                assert(count_of(rr.push(q), p) == count_of(rr, p) + (if q == p {
                    1nat
                } else {
                    0nat
                }));
            } else {
                assert(sel_routed(props, t) == rr);
                if q == p {
                    assert(spec_classify(p.0@) != Some(t));
                }
            }
        }
        if spec_classify(p.0@) is Some && count_of(props, p) > 0 {
            let t = spec_classify(p.0@)->Some_0;
            let r2 = tags_of(rest);
            if q == p {
                if r2.contains(t) {
                    assert(tags_of(props) == r2);
                } else {
                    assert(tags_of(props) == r2.push(t));
                    assert(r2.push(t)[r2.len() as int] == t);
                }
            } else {
                assert(count_of(rest, p) > 0);
                assert(r2.contains(t));
                match spec_classify(q.0@) {
                    Option::None => {
                        assert(tags_of(props) == r2);
                    }
                    Option::Some(t2) => {
                        if r2.contains(t2) {
                            assert(tags_of(props) == r2);
                        } else {
                            lemma_push_contains(r2, t2, t);
                        }
                    }
                }
            }
        }
    }
}

/// No wrapper is spurious: a synthetic tag stands among a node's wrapper
/// tags only when at least one property is routed to it.
pub proof fn lemma_no_empty_wrapper(props: Seq<Prop>, t: SyntheticTag)
    requires
        tags_of(props).contains(t),
    ensures
        sel_routed(props, t).len() > 0,
    decreases props.len(),
{
    if props.len() == 0 {
        let i = choose|i: int| 0 <= i < tags_of(props).len() && tags_of(props)[i] == t;
        assert(false);
    } else {
        let rest = props.drop_last();
        let q = props.last();
        match spec_classify(q.0@) {
            Option::None => {
                lemma_no_empty_wrapper(rest, t);
            }
            Option::Some(t2) => {
                if t2 == t {
                    assert(sel_routed(props, t) == sel_routed(rest, t).push(q));
                } else {
                    if !tags_of(rest).contains(t2) {
                        let i = choose|i: int|
                            0 <= i < tags_of(rest).push(t2).len() && tags_of(rest).push(t2)[i]
                                == t;
                        assert(tags_of(rest)[i] == t);
                    }
                    lemma_no_empty_wrapper(rest, t);
                }
            }
        }
    }
}

fn contains_tag(tags: &Vec<SyntheticTag>, t: SyntheticTag) -> (r: bool)
    ensures
        r == tags@.contains(t),
{
    let mut i: usize = 0;
    while i < tags.len()
        invariant
            i <= tags@.len(),
            forall|m: int| 0 <= m < i ==> tags@[m] != t,
        decreases tags@.len() - i,
    {
        if tags[i] == t {
            return true;
        }
        i = i + 1;
    }
    false
}

/// Collects the distinct synthetic tags of the property list, in first-seen
/// order.
fn collect_tags(props: &Vec<Prop>) -> (r: Vec<SyntheticTag>)
    ensures
        r@ == tags_of(props@),
{
    let mut tags: Vec<SyntheticTag> = Vec::new();
    let mut i: usize = 0;
    while i < props.len()
        invariant
            i <= props@.len(),
            tags@ == tags_of(props@.subrange(0, i as int)),
        decreases props@.len() - i,
    {
        proof {
            assert(props@.subrange(0, (i + 1) as int).drop_last() =~= props@.subrange(0, i as int));
        }
        match classify(&props[i].0) {
            Option::None => {}
            Option::Some(t) => {
                if !contains_tag(&tags, t) {
                    tags.push(t);
                }
            }
        }
        i = i + 1;
    }
    proof {
        assert(props@.subrange(0, props@.len() as int) =~= props@);
    }
    tags
}

/// Appends the plain style attributes of the property list.
fn push_plain_attrs(out: &mut String, props: &Vec<Prop>)
    ensures
        final(out)@ == old(out)@ + attrs_text(sel_plain(props@)),
{
    let mut i: usize = 0;
    while i < props.len()
        invariant
            i <= props@.len(),
            out@ == old(out)@ + attrs_text(sel_plain(props@.subrange(0, i as int))),
        decreases props@.len() - i,
    {
        proof {
            assert(props@.subrange(0, (i + 1) as int).drop_last() =~= props@.subrange(0, i as int));
            assert(sel_plain(props@.subrange(0, i as int)).push(props@[i as int]).drop_last()
                =~= sel_plain(props@.subrange(0, i as int)));
        }
        if classify(&props[i].0).is_none() {
            push_attr_plain(out, &props[i].0, &props[i].1);
        }
        proof {
            assert(out@ =~= old(out)@ + attrs_text(sel_plain(props@.subrange(0, (i + 1) as int))));
        }
        i = i + 1;
    }
    proof {
        assert(props@.subrange(0, props@.len() as int) =~= props@);
    }
}

fn push_attr_plain(out: &mut String, name: &String, v: &StyleValue)
    ensures
        final(out)@ == old(out)@ + attr_chunk(name@, value_text(*v)),
{
    out.append(" ");
    out.append(name.as_str());
    out.append("=\"");
    push_value(out, v);
    out.append("\"");
    proof {
        assert(out@ =~= old(out)@ + attr_chunk(name@, value_text(*v)));
    }
}

/// Appends the attributes routed to the given synthetic tag, their values
/// with double-quote characters stripped.
fn push_wrap_attrs(out: &mut String, props: &Vec<Prop>, t: SyntheticTag)
    ensures
        final(out)@ == old(out)@ + attrs_text_stripped(sel_routed(props@, t)),
{
    let mut i: usize = 0;
    while i < props.len()
        invariant
            i <= props@.len(),
            out@ == old(out)@ + attrs_text_stripped(sel_routed(props@.subrange(0, i as int), t)),
        decreases props@.len() - i,
    {
        proof {
            assert(props@.subrange(0, (i + 1) as int).drop_last() =~= props@.subrange(0, i as int));
            assert(sel_routed(props@.subrange(0, i as int), t).push(props@[i as int]).drop_last()
                =~= sel_routed(props@.subrange(0, i as int), t));
        }
        let routed_here = match classify(&props[i].0) {
            Option::None => false,
            Option::Some(t2) => t2 == t,
        };
        if routed_here {
            push_attr_stripped(out, &props[i].0, &props[i].1);
        }
        proof {
            assert(out@ =~= old(out)@ + attrs_text_stripped(
                sel_routed(props@.subrange(0, (i + 1) as int), t),
            ));
        }
        i = i + 1;
    }
    proof {
        assert(props@.subrange(0, props@.len() as int) =~= props@);
    }
}

fn push_attr_stripped(out: &mut String, name: &String, v: &StyleValue)
    ensures
        final(out)@ == old(out)@ + attr_chunk(name@, strip_quotes(value_text(*v))),
{
    out.append(" ");
    out.append(name.as_str());
    out.append("=\"");
    let val = render_value(v);
    push_stripped(out, val.as_str());
    out.append("\"");
    proof {
        assert(out@ =~= old(out)@ + attr_chunk(name@, strip_quotes(value_text(*v))));
    }
}

/// Appends the raw DOM attributes, skipping `class`.
fn push_dom_attrs(out: &mut String, attrs: &Vec<(String, String)>)
    ensures
        final(out)@ == old(out)@ + dom_attrs_text(attrs@),
{
    let mut i: usize = 0;
    while i < attrs.len()
        invariant
            i <= attrs@.len(),
            out@ == old(out)@ + dom_attrs_text(attrs@.subrange(0, i as int)),
        decreases attrs@.len() - i,
    {
        proof {
            assert(attrs@.subrange(0, (i + 1) as int).drop_last() =~= attrs@.subrange(0, i as int));
        }
        if !str_eq(&attrs[i].0, "class") {
            out.append(" ");
            out.append(attrs[i].0.as_str());
            out.append("=\"");
            out.append(attrs[i].1.as_str());
            out.append("\"");
        }
        proof {
            assert(out@ =~= old(out)@ + dom_attrs_text(attrs@.subrange(0, (i + 1) as int)));
        }
        i = i + 1;
    }
    proof {
        assert(attrs@.subrange(0, attrs@.len() as int) =~= attrs@);
    }
}

/// Builds one synthetic wrapper: an indented opening tag carrying the
/// properties routed to `t` (their values with quote characters stripped),
/// the already-rendered inner markup, and the matching closing tag.
pub fn wrap(t: SyntheticTag, props: &Vec<Prop>, inner: &String, depth: usize) -> (r: String)
    ensures
        r@ == open_line(depth as nat, t.spec_name(), attrs_text_stripped(sel_routed(props@, t)))
            + inner@ + close_line(depth as nat, t.spec_name()),
{
    let mut w = String::new();
    push_indent(&mut w, depth);
    w.append("<");
    w.append(t.name());
    push_wrap_attrs(&mut w, props, t);
    w.append(">\n");
    w.append(inner.as_str());
    push_indent(&mut w, depth);
    w.append("</");
    w.append(t.name());
    w.append(">\n");
    proof {
        assert(w@ =~= open_line(
            depth as nat,
            t.spec_name(),
            attrs_text_stripped(sel_routed(props@, t)),
        ) + inner@ + close_line(depth as nat, t.spec_name()));
    }
    w
}

/// Renders the styled tree as indented markup.
///
/// The precondition only keeps the indentation depths reached inside the
/// tree representable on the machine.
pub fn render_ssml(styled_node: StyledNode, level: usize) -> (r: String)
    requires
        level + 4 * height(styled_node) <= usize::MAX,
    ensures
        r@ == spec_render(styled_node, level as nat),
{
    let mut out = String::new();
    push_render(&styled_node, level, &mut out);
    proof {
        assert(out@ =~= spec_render(styled_node, level as nat));
    }
    out
}

#[verifier::rlimit(100)]
fn push_render(n: &StyledNode, depth: usize, out: &mut String)
    requires
        depth + 4 * height(*n) <= usize::MAX,
    ensures
        final(out)@ == old(out)@ + spec_render(*n, depth as nat),
    decreases *n,
{
    proof {
        assert(height(*n) >= 1);
    }
    match &n.node {
        NodeType::Text(s) => {
            push_indent(out, depth);
            push_trimmed(out, s.as_str());
            out.append("\n");
            proof {
                assert(out@ =~= old(out)@ + spec_render(*n, depth as nat));
            }
        }
        NodeType::Element { tag_name, attributes } => {
            let ghost props = n.specified_values@;
            let tags = collect_tags(&n.specified_values);
            proof {
                lemma_tags_of_props(props);
            }
            let child_depth = depth + 1 + tags.len();
            let ghost kids = spec_render_children(n.children@, child_depth as nat);
            let mut inner = String::new();
            let mut i: usize = 0;
            while i < n.children.len()
                invariant
                    i <= n.children@.len(),
                    depth + 4 * height(*n) <= usize::MAX,
                    tags@ == tags_of(props),
                    props == n.specified_values@,
                    tags@.len() <= 3,
                    child_depth == depth + 1 + tags@.len(),
                    kids == spec_render_children(n.children@, child_depth as nat),
                    inner@ == spec_render_children(n.children@.subrange(0, i as int), child_depth as nat),
                decreases n.children@.len() - i,
            {
                proof {
                    lemma_child_height(*n, i as int);
                    assert(n.children@.subrange(0, (i + 1) as int).drop_last() =~= n.children@.subrange(0, i as int));
                }
                push_render(&n.children[i], child_depth, &mut inner);
                i = i + 1;
            }
            proof {
                assert(n.children@.subrange(0, n.children@.len() as int) =~= n.children@);
            }
            let mut j: usize = tags.len();
            proof {
                assert(tags@.subrange(j as int, tags@.len() as int) =~= Seq::<SyntheticTag>::empty());
            }
            while j > 0
                invariant
                    j <= tags@.len(),
                    tags@.len() <= 3,
                    depth + 4 <= usize::MAX,
                    tags@ == tags_of(props),
                    props == n.specified_values@,
                    inner@ == wraps_text(
                        tags@.subrange(j as int, tags@.len() as int),
                        props,
                        kids,
                        (depth + 1 + j) as nat,
                    ),
                decreases j,
            {
                j = j - 1;
                let wdepth = depth + 1 + j;
                let w = wrap(tags[j], &n.specified_values, &inner, wdepth);
                proof {
                    assert(tags@.subrange(j as int, tags@.len() as int).drop_first() =~= tags@.subrange(
                        (j + 1) as int,
                        tags@.len() as int,
                    ));
                    assert(tags@.subrange(j as int, tags@.len() as int)[0] == tags@[j as int]);
                    assert(w@ =~= wraps_text(
                        tags@.subrange(j as int, tags@.len() as int),
                        props,
                        kids,
                        (depth + 1 + j) as nat,
                    ));
                }
                inner = w;
            }
            push_indent(out, depth);
            out.append("<");
            out.append(tag_name.as_str());
            push_dom_attrs(out, attributes);
            push_plain_attrs(out, &n.specified_values);
            out.append(">\n");
            out.append(inner.as_str());
            push_indent(out, depth);
            out.append("</");
            out.append(tag_name.as_str());
            out.append(">\n");
            proof {
                assert(tags@.subrange(0, tags@.len() as int) =~= tags@);
                assert(inner@ == wraps_text(tags@, props, kids, (depth + 1) as nat));
                assert(out@ =~= old(out)@ + spec_render(*n, depth as nat));
            }
        }
    }
}

} // verus!
