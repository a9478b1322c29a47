//! Well-nesting of the output: the rendered text is a sequence of lines; the
//! lines open and close tags in matching pairs, with identical names at
//! identical indentation, each nesting level exactly one indentation level
//! deeper than the one enclosing it.

use vstd::prelude::*;
use crate::classify::SyntheticTag;
use crate::node::{NodeType, StyledNode};
use crate::render::{
    Prop, attrs_text, attrs_text_stripped, close_line, dom_attrs_text, open_line, sel_plain,
    sel_routed, spec_render, spec_render_children, tags_of, wraps_text,
};
use crate::text::{indent_text, trim_text};

verus! {

/// One line of output: an opening tag, a closing tag, or a text line, each
/// with its indentation depth.
pub enum Line {
    Open { depth: nat, name: Seq<char>, attrs: Seq<char> },
    Close { depth: nat, name: Seq<char> },
    TextLine { depth: nat, content: Seq<char> },
}

/// The characters of one line.
pub open spec fn line_text(l: Line) -> Seq<char> {
    match l {
        Line::Open { depth, name, attrs } => open_line(depth, name, attrs),
        Line::Close { depth, name } => close_line(depth, name),
        Line::TextLine { depth, content } => indent_text(depth) + content + "\n"@,
    }
}

/// The characters of a sequence of lines.
pub open spec fn lines_text(ls: Seq<Line>) -> Seq<char>
    decreases ls.len(),
{
    if ls.len() == 0 {
        Seq::empty()
    } else {
        lines_text(ls.drop_last()) + line_text(ls.last())
    }
}

/// The synthetic wrapper lines around already-rendered inner lines: the
/// first tag outermost, each further tag one level deeper.
pub open spec fn wrap_lines(
    tags: Seq<SyntheticTag>,
    props: Seq<Prop>,
    inner: Seq<Line>,
    depth: nat,
) -> Seq<Line>
    decreases tags.len(),
{
    if tags.len() == 0 {
        inner
    } else {
        seq![
            Line::Open {
                depth,
                name: tags[0].spec_name(),
                attrs: attrs_text_stripped(sel_routed(props, tags[0])),
            },
        ] + wrap_lines(tags.drop_first(), props, inner, depth + 1) + seq![
            Line::Close { depth, name: tags[0].spec_name() },
        ]
    }
}

/// The output of a styled node, line by line.
pub open spec fn render_lines(n: StyledNode, depth: nat) -> Seq<Line>
    decreases n,
{
    match n.node {
        NodeType::Text(s) => seq![Line::TextLine { depth, content: trim_text(s@) }],
        NodeType::Element { tag_name, attributes } => {
            let props = n.specified_values@;
            let tags = tags_of(props);
            let inner = children_lines(n.children@, depth + 1 + tags.len());
            seq![
                Line::Open {
                    depth,
                    name: tag_name@,
                    attrs: dom_attrs_text(attributes@) + attrs_text(sel_plain(props)),
                },
            ] + wrap_lines(tags, props, inner, depth + 1) + seq![
                Line::Close { depth, name: tag_name@ },
            ]
        }
    }
}

/// The children's output, line by line, in document order.
pub open spec fn children_lines(cs: Seq<StyledNode>, depth: nat) -> Seq<Line>
    decreases cs,
{
    if cs.len() == 0 {
        Seq::empty()
    } else {
        children_lines(cs.drop_last(), depth) + render_lines(cs.last(), depth)
    }
}

proof fn lemma_lines_text_concat(a: Seq<Line>, b: Seq<Line>)
    ensures
        lines_text(a + b) == lines_text(a) + lines_text(b),
    decreases b.len(),
{
    if b.len() == 0 {
        assert(a + b =~= a);
        assert(lines_text(a) + lines_text(b) =~= lines_text(a));
    } else {
        lemma_lines_text_concat(a, b.drop_last());
        assert((a + b).drop_last() =~= a + b.drop_last());
        assert(lines_text(a + b) =~= lines_text(a) + lines_text(b));
    }
}

proof fn lemma_lines_text_single(l: Line)
    ensures
        lines_text(seq![l]) == line_text(l),
{
    assert(seq![l].drop_last() =~= Seq::<Line>::empty());
    assert(lines_text(Seq::<Line>::empty()) == Seq::<char>::empty());
    assert(Seq::<char>::empty() + line_text(l) =~= line_text(l));
}

proof fn lemma_wrap_lines_text(
    tags: Seq<SyntheticTag>,
    props: Seq<Prop>,
    inner: Seq<Line>,
    depth: nat,
)
    ensures
        lines_text(wrap_lines(tags, props, inner, depth)) == wraps_text(
            tags,
            props,
            lines_text(inner),
            depth,
        ),
    decreases tags.len(),
{
    if tags.len() > 0 {
        lemma_wrap_lines_text(tags.drop_first(), props, inner, depth + 1);
        let o = seq![
            Line::Open {
                depth,
                name: tags[0].spec_name(),
                attrs: attrs_text_stripped(sel_routed(props, tags[0])),
            },
        ];
        let rest = wrap_lines(tags.drop_first(), props, inner, depth + 1);
        let c = seq![Line::Close { depth, name: tags[0].spec_name() }];
        lemma_lines_text_concat(o + rest, c);
        lemma_lines_text_concat(o, rest);
        lemma_lines_text_single(o[0]);
        lemma_lines_text_single(c[0]);
        assert(lines_text(wrap_lines(tags, props, inner, depth)) =~= wraps_text(
            tags,
            props,
            lines_text(inner),
            depth,
        ));
    }
}

/// The rendered string of a node is exactly the concatenation of its
/// rendered lines.
pub proof fn lemma_render_lines_text(n: StyledNode, depth: nat)
    ensures
        lines_text(render_lines(n, depth)) == spec_render(n, depth),
    decreases n,
{
    match n.node {
        NodeType::Text(s) => {
            lemma_lines_text_single(Line::TextLine { depth, content: trim_text(s@) });
        }
        NodeType::Element { tag_name, attributes } => {
            let props = n.specified_values@;
            let tags = tags_of(props);
            let inner = children_lines(n.children@, depth + 1 + tags.len());
            lemma_children_lines_text(n.children@, depth + 1 + tags.len());
            lemma_wrap_lines_text(tags, props, inner, depth + 1);
            let o = seq![
                Line::Open {
                    depth,
                    name: tag_name@,
                    attrs: dom_attrs_text(attributes@) + attrs_text(sel_plain(props)),
                },
            ];
            let w = wrap_lines(tags, props, inner, depth + 1);
            let c = seq![Line::Close { depth, name: tag_name@ }];
            lemma_lines_text_concat(o + w, c);
            lemma_lines_text_concat(o, w);
            lemma_lines_text_single(o[0]);
            lemma_lines_text_single(c[0]);
            assert(lines_text(render_lines(n, depth)) =~= spec_render(n, depth));
        }
    }
}

proof fn lemma_children_lines_text(cs: Seq<StyledNode>, depth: nat)
    ensures
        lines_text(children_lines(cs, depth)) == spec_render_children(cs, depth),
    decreases cs,
{
    if cs.len() > 0 {
        lemma_children_lines_text(cs.drop_last(), depth);
        lemma_render_lines_text(cs.last(), depth);
        lemma_lines_text_concat(
            children_lines(cs.drop_last(), depth),
            render_lines(cs.last(), depth),
        );
    }
}

/// Replays a sequence of lines against a stack of the names of the currently
/// open tags, starting from base depth `base`. An opening tag must stand at
/// `base` plus the number of open tags and pushes its name; a closing tag
/// must carry the innermost open name, stand at the same depth as the tag it
/// closes, and pops it; a text line must stand at the current level. The
/// result is the stack left after the lines, or `None` if a line is
/// ill-nested.
pub open spec fn run_nesting(ls: Seq<Line>, base: nat, stack: Seq<Seq<char>>) -> Option<
    Seq<Seq<char>>,
>
    decreases ls.len(),
{
    if ls.len() == 0 {
        Some(stack)
    } else {
        match ls[0] {
            Line::Open { depth, name, attrs } => if depth == base + stack.len() {
                run_nesting(ls.drop_first(), base, stack.push(name))
            } else {
                None
            },
            Line::Close { depth, name } => if stack.len() > 0 && stack.last() == name && depth + 1
                == base + stack.len() {
                run_nesting(ls.drop_first(), base, stack.drop_last())
            } else {
                None
            },
            Line::TextLine { depth, content } => if depth == base + stack.len() {
                run_nesting(ls.drop_first(), base, stack)
            } else {
                None
            },
        }
    }
}

proof fn lemma_run_empty(base: nat, stack: Seq<Seq<char>>)
    ensures
        run_nesting(Seq::<Line>::empty(), base, stack) == Some(stack),
{
}

proof fn lemma_run_nesting_concat(a: Seq<Line>, b: Seq<Line>, base: nat, stack: Seq<Seq<char>>)
    ensures
        run_nesting(a + b, base, stack) == (match run_nesting(a, base, stack) {
            Option::None => None::<Seq<Seq<char>>>,
            Option::Some(st) => run_nesting(b, base, st),
        }),
    decreases a.len(),
{
    if a.len() == 0 {
        assert(a + b =~= b);
    } else {
        assert((a + b)[0] == a[0]);
        assert((a + b).drop_first() =~= a.drop_first() + b);
        match a[0] {
            Line::Open { depth, name, attrs } => {
                if depth == base + stack.len() {
                    lemma_run_nesting_concat(a.drop_first(), b, base, stack.push(name));
                }
            }
            Line::Close { depth, name } => {
                if stack.len() > 0 && stack.last() == name && depth + 1 == base + stack.len() {
                    lemma_run_nesting_concat(a.drop_first(), b, base, stack.drop_last());
                }
            }
            Line::TextLine { depth, content } => {
                if depth == base + stack.len() {
                    lemma_run_nesting_concat(a.drop_first(), b, base, stack);
                }
            }
        }
    }
}

proof fn lemma_wrap_lines_nested(
    tags: Seq<SyntheticTag>,
    props: Seq<Prop>,
    inner: Seq<Line>,
    depth: nat,
    base: nat,
    stack: Seq<Seq<char>>,
)
    requires
        depth == base + stack.len(),
        forall|st: Seq<Seq<char>>|
            st.len() == stack.len() + tags.len() ==> #[trigger] run_nesting(inner, base, st)
                == Some(st),
    ensures
        run_nesting(wrap_lines(tags, props, inner, depth), base, stack) == Some(stack),
    decreases tags.len(),
{
    if tags.len() == 0 {
        assert(run_nesting(inner, base, stack) == Some(stack));
    } else {
        let o = seq![
            Line::Open {
                depth,
                name: tags[0].spec_name(),
                attrs: attrs_text_stripped(sel_routed(props, tags[0])),
            },
        ];
        let rest = wrap_lines(tags.drop_first(), props, inner, depth + 1);
        let c = seq![Line::Close { depth, name: tags[0].spec_name() }];
        lemma_run_nesting_concat(o + rest, c, base, stack);
        lemma_run_nesting_concat(o, rest, base, stack);
        assert(o.drop_first() =~= Seq::<Line>::empty());
        lemma_run_empty(base, stack.push(tags[0].spec_name()));
        assert(run_nesting(o, base, stack) == Some(stack.push(tags[0].spec_name())));
        lemma_wrap_lines_nested(
            tags.drop_first(),
            props,
            inner,
            depth + 1,
            base,
            stack.push(tags[0].spec_name()),
        );
        assert(c.drop_first() =~= Seq::<Line>::empty());
        assert(stack.push(tags[0].spec_name()).drop_last() =~= stack);
        lemma_run_empty(base, stack);
        assert(run_nesting(c, base, stack.push(tags[0].spec_name())) == Some(stack));
    }
}

/// Well-nesting, relative to any surrounding context: replaying the lines of
/// a node rendered at the context's current level leaves the stack of open
/// tags as it found it -- every tag the node opens, it closes again, with
/// the identical name at the identical indentation, innermost first.
pub proof fn lemma_render_nested(n: StyledNode, base: nat, stack: Seq<Seq<char>>, depth: nat)
    requires
        depth == base + stack.len(),
    ensures
        run_nesting(render_lines(n, depth), base, stack) == Some(stack),
    decreases n,
{
    match n.node {
        NodeType::Text(s) => {
            let l = seq![Line::TextLine { depth, content: trim_text(s@) }];
            assert(l.drop_first() =~= Seq::<Line>::empty());
            lemma_run_empty(base, stack);
        }
        NodeType::Element { tag_name, attributes } => {
            let props = n.specified_values@;
            let tags = tags_of(props);
            let inner = children_lines(n.children@, depth + 1 + tags.len());
            let pushed = stack.push(tag_name@);
            assert forall|st: Seq<Seq<char>>| st.len() == pushed.len() + tags.len() implies
                #[trigger] run_nesting(inner, base, st) == Some(st) by {
                lemma_children_nested(n.children@, base, st, depth + 1 + tags.len());
            }
            lemma_wrap_lines_nested(tags, props, inner, depth + 1, base, pushed);
            let o = seq![
                Line::Open {
                    depth,
                    name: tag_name@,
                    attrs: dom_attrs_text(attributes@) + attrs_text(sel_plain(props)),
                },
            ];
            let w = wrap_lines(tags, props, inner, depth + 1);
            let c = seq![Line::Close { depth, name: tag_name@ }];
            lemma_run_nesting_concat(o + w, c, base, stack);
            lemma_run_nesting_concat(o, w, base, stack);
            assert(o.drop_first() =~= Seq::<Line>::empty());
            lemma_run_empty(base, pushed);
            assert(run_nesting(o, base, stack) == Some(pushed));
            assert(c.drop_first() =~= Seq::<Line>::empty());
            assert(pushed.drop_last() =~= stack);
            lemma_run_empty(base, stack);
            assert(run_nesting(c, base, pushed) == Some(stack));
        }
    }
}

proof fn lemma_children_nested(
    cs: Seq<StyledNode>,
    base: nat,
    stack: Seq<Seq<char>>,
    depth: nat,
)
    requires
        depth == base + stack.len(),
    ensures
        run_nesting(children_lines(cs, depth), base, stack) == Some(stack),
    decreases cs,
{
    if cs.len() > 0 {
        lemma_children_nested(cs.drop_last(), base, stack, depth);
        lemma_render_nested(cs.last(), base, stack, depth);
        lemma_run_nesting_concat(
            children_lines(cs.drop_last(), depth),
            render_lines(cs.last(), depth),
            base,
            stack,
        );
    }
}

/// Nesting well-formedness of a whole rendered tree: replaying its lines
/// from an empty stack of open tags succeeds and ends with the stack empty
/// again. Every opening tag emitted has a matching closing tag with the
/// identical name at the identical indentation, and everything between them
/// stands exactly one level deeper.
pub proof fn lemma_well_nested(n: StyledNode, depth: nat)
    ensures
        run_nesting(render_lines(n, depth), depth, Seq::empty()) == Some(
            Seq::<Seq<char>>::empty(),
        ),
{
    lemma_render_nested(n, depth, Seq::empty(), depth);
}

} // verus!
