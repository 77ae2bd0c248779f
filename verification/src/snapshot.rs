//! A readable dump of a retained tree, the same for the same tree.
//!
//! One line for each node, parents before children, indented by two spaces for each level. A
//! text node is `text=<content>`; an element is `el tag=<n>`, followed by its `name=`,
//! `class=`, `style=`, `attr=` and `on=` where it has any. Texts, names and values are escaped, so
//! that none of them breaks a line.
use crate::dom::{Dom, Node};
use crate::handles::{EventKind, HandlerId, NodeId, ROOT};
use crate::seqs::{lemma_filter_member, lemma_filter_push};
use crate::text::{decimal, digit_char, push_decimal, string_chars, strings_chars};
use crate::tree::{
    forest, height, kids, law_preorder_unfolds, lemma_child_is_lower, lemma_forest_push, orderly, preorder,
    siblings, well_formed, DomView, NodeView,
};
use std::collections::BTreeMap;
use vstd::prelude::*;
use vstd::std_specs::cmp::OrdSpec;
use vstd::std_specs::iter::IteratorSpec;
use vstd::string::StringExecFns;

verus! {

broadcast use vstd::std_specs::btree::group_btree_axioms;

/// `s` with its backslashes and line breaks written out, so that it stays on one line.
pub open spec fn escaped(s: Seq<char>) -> Seq<char>
    decreases s.len(),
{
    if s.len() == 0 {
        seq![]
    } else {
        escaped(s.drop_last()) + (if s.last() == '\\' {
            seq!['\\', '\\']
        } else if s.last() == '\n' {
            seq!['\\', 'n']
        } else {
            seq![s.last()]
        })
    }
}

fn push_escaped(out: &mut String, s: &str)
    ensures
        final(out)@ == old(out)@ + escaped(s@),
{
    let ghost start = out@;
    assert(s@.take(0) =~= seq![]);
    assert(start + escaped(s@.take(0)) =~= start);
    for c in it: s.chars()
        invariant
            it.seq() == s@,
            out@ == start + escaped(s@.take(it.index())),
    {
        proof {
            assert(s@.take(it.index() + 1).drop_last() =~= s@.take(it.index()));
            assert(s@.take(it.index() + 1).last() == c);
        }
        if c == '\\' {
            out.push('\\');
            out.push('\\');
        } else if c == '\n' {
            out.push('\\');
            out.push('n');
        } else {
            out.push(c);
        }
        assert(out@ =~= start + escaped(s@.take(it.index() + 1)));
    }
    assert(s@.take(s@.len() as int) =~= s@);
}

/// The pieces one after the other, with `sep` between them.
pub open spec fn joined(pieces: Seq<Seq<char>>, sep: char) -> Seq<char>
    decreases pieces.len(),
{
    if pieces.len() == 0 {
        seq![]
    } else if pieces.len() == 1 {
        pieces[0]
    } else {
        joined(pieces.drop_last(), sep).push(sep) + pieces.last()
    }
}

/// The entries of a map whose keys are below `k`, by key.
pub open spec fn entries_below(m: Map<u16, Seq<char>>, k: nat) -> Seq<(u16, Seq<char>)>
    decreases k,
{
    if k == 0 {
        seq![]
    } else {
        let before = entries_below(m, (k - 1) as nat);
        if m.contains_key((k - 1) as u16) {
            before.push(((k - 1) as u16, m[(k - 1) as u16]))
        } else {
            before
        }
    }
}

/// The entries of a map, by key.
pub open spec fn entries(m: Map<u16, Seq<char>>) -> Seq<(u16, Seq<char>)> {
    entries_below(m, 0x1_0000)
}

/// `<key>:<value>` for each entry, the value escaped.
pub open spec fn entry_texts(es: Seq<(u16, Seq<char>)>) -> Seq<Seq<char>> {
    Seq::new(es.len(), |i: int| decimal(es[i].0 as nat).push(':') + escaped(es[i].1))
}

/// Each string escaped.
pub open spec fn escaped_all(ss: Seq<Seq<char>>) -> Seq<Seq<char>> {
    Seq::new(ss.len(), |i: int| escaped(ss[i]))
}

/// `<event>:<handler>` for each subscription.
pub open spec fn listener_texts(ls: Seq<(EventKind, HandlerId)>) -> Seq<Seq<char>> {
    Seq::new(
        ls.len(),
        |i: int| decimal(ls[i].0.0 as nat).push(':') + decimal(ls[i].1.0 as nat),
    )
}

/// A labelled list; an empty one is left out.
pub open spec fn field(label: Seq<char>, pieces: Seq<Seq<char>>, sep: char) -> Seq<char> {
    if pieces.len() == 0 {
        seq![]
    } else {
        label + joined(pieces, sep)
    }
}

/// The line of a node, without its indentation.
pub open spec fn node_line(n: NodeView) -> Seq<char> {
    match n.text {
        Some(text) => "text="@ + escaped(text) + seq!['\n'],
        None => "el tag="@ + (match n.tag {
            Some(tag) => decimal(tag.0 as nat),
            None => seq!['?'],
        }) + (match n.tag_name {
            Some(name) => " name="@ + escaped(name),
            None => seq![],
        }) + field(" class="@, escaped_all(n.classes), ',') + field(
            " style="@,
            entry_texts(entries(n.styles)),
            ';',
        ) + field(" attr="@, entry_texts(entries(n.attrs)), ';') + field(
            " on="@,
            listener_texts(n.listeners),
            ',',
        ) + seq!['\n'],
    }
}

/// The lines of a node and, if it is an element, of its descendants.
pub open spec fn node_dump(nodes: Map<u64, NodeView>, n: NodeId, indent: Seq<char>) -> Seq<char>
    decreases height(nodes, n), kids(nodes, n).len() + 1,
{
    if !nodes.contains_key(n.0) {
        seq![]
    } else if nodes[n.0].text is Some {
        indent + node_line(nodes[n.0])
    } else {
        indent + node_line(nodes[n.0]) + dump_below(
            nodes,
            kids(nodes, n),
            height(nodes, n),
            indent + seq![' ', ' '],
        )
    }
}

/// The lines of the nodes of `ids` that stand lower than `h` and of their descendants; in an
/// acyclic tree all children of a node stand lower.
pub open spec fn dump_below(nodes: Map<u64, NodeView>, ids: Seq<NodeId>, h: nat, indent: Seq<char>) -> Seq<
    char,
>
    decreases h, ids.len(),
{
    if ids.len() == 0 {
        seq![]
    } else {
        dump_below(nodes, ids.drop_last(), h, indent) + (if height(nodes, ids.last()) < h {
            node_dump(nodes, ids.last(), indent)
        } else {
            seq![]
        })
    }
}

/// The lines of the first `n` top-level nodes and of their descendants.
pub open spec fn dump_roots(nodes: Map<u64, NodeView>, roots: Seq<NodeId>, n: nat) -> Seq<char>
    decreases n,
{
    if n == 0 {
        seq![]
    } else {
        dump_roots(nodes, roots, (n - 1) as nat) + node_dump(nodes, roots[n - 1], seq![])
    }
}

/// The dump of a tree.
pub open spec fn dump_of(d: DomView) -> Seq<char> {
    dump_roots(d.nodes, d.roots, d.roots.len())
}

proof fn lemma_joined_push(pieces: Seq<Seq<char>>, piece: Seq<char>, sep: char)
    ensures
        joined(pieces.push(piece), sep) == (if pieces.len() == 0 {
            piece
        } else {
            joined(pieces, sep).push(sep) + piece
        }),
{
    assert(pieces.push(piece).drop_last() =~= pieces);
}

proof fn lemma_entries_gap(m: Map<u16, Seq<char>>, from: nat, to: nat)
    requires
        from <= to <= 0x1_0000,
        forall|k: u16| from <= k < to ==> !#[trigger] m.contains_key(k),
    ensures
        entries_below(m, to) == entries_below(m, from),
    decreases to,
{
    if from < to {
        lemma_entries_gap(m, from, (to - 1) as nat);
        assert(!m.contains_key((to - 1) as u16));
    }
}

proof fn lemma_key_order(keys: Seq<u16>)
    requires
        vstd::std_specs::btree::increasing_seq(keys),
    ensures
        forall|i: int, j: int| 0 <= i < j < keys.len() ==> keys[i] < keys[j],
{
    assert forall|i: int, j: int| 0 <= i < j < keys.len() implies keys[i] < keys[j] by {
        assert(keys[i].cmp_spec(&keys[j]) is Less);
    }
}

/// What a value map says.
pub open spec fn values_view(m: Map<u16, String>) -> Map<u16, Seq<char>> {
    m.map_values(string_chars())
}

/// Append the label and the entries of a map, by key.
fn push_entries(out: &mut String, label: &str, m: &BTreeMap<u16, String>)
    ensures
        final(out)@ == old(out)@ + field(label@, entry_texts(entries(values_view(m@))), ';'),
{
    let ghost start = out@;
    let ghost v = values_view(m@);
    let iter = m.iter();
    let ghost pairs = iter.remaining();
    let ghost keys = pairs.map_values(|kv: (&u16, &String)| *kv.0);
    let ghost mut upto: nat = 0;
    proof {
        lemma_key_order(keys);
    }
    let mut first = true;
    for kv in it: iter
        invariant
            it.seq() == pairs,
            v == values_view(m@),
            keys == pairs.map_values(|kv: (&u16, &String)| *kv.0),
            forall|i: int, j: int| 0 <= i < j < keys.len() ==> keys[i] < keys[j],
            forall|k: u16| #[trigger] m@.contains_key(k) ==> pairs.contains((&k, &m@[k])),
            forall|i: int|
                0 <= i < pairs.len() ==> m@.contains_key(*(#[trigger] pairs[i]).0)
                    && m@[*pairs[i].0] == *pairs[i].1,
            it.index() == 0 ==> upto == 0,
            it.index() > 0 ==> upto == keys[it.index() - 1] + 1,
            first == (it.index() == 0),
            entries_below(v, upto).len() == it.index(),
            first ==> out@ == start,
            !first ==> out@ == start + label@ + joined(entry_texts(entries_below(v, upto)), ';'),
    {
        let (k, value) = kv;
        let ghost i = it.index();
        let ghost before = entries_below(v, upto);
        proof {
            assert(pairs[i] == kv);
            assert(keys[i] == *k);
            assert forall|q: u16| upto <= q < *k implies !#[trigger] v.contains_key(q) by {
                if m@.contains_key(q) {
                    let j = choose|j: int| 0 <= j < pairs.len() && pairs[j] == (&q, &m@[q]);
                    assert(keys[j] == q);
                    if j < i {
                        if j < i - 1 {
                            assert(keys[j] < keys[i - 1]);
                        }
                    } else if j > i {
                        assert(keys[i] < keys[j]);
                    }
                }
            }
            lemma_entries_gap(v, upto, *k as nat);
            assert(entries_below(v, (*k + 1) as nat) == before.push((*k, value@)));
            let text = decimal(*k as nat).push(':') + escaped(value@);
            assert(entry_texts(before.push((*k, value@))) =~= entry_texts(before).push(text));
            lemma_joined_push(entry_texts(before), text, ';');
            if first {
                assert(entry_texts(before) =~= seq![]);
            }
        }
        if first {
            out.append(label);
            first = false;
        } else {
            out.push(';');
        }
        push_decimal(out, *k as u64);
        out.push(':');
        push_escaped(out, value.as_str());
        proof {
            upto = (*k + 1) as nat;
            assert(out@ =~= start + label@ + joined(entry_texts(entries_below(v, upto)), ';'));
        }
    }
    proof {
        assert forall|q: u16| upto <= q < 0x1_0000 implies !#[trigger] v.contains_key(q) by {
            if m@.contains_key(q) {
                let j = choose|j: int| 0 <= j < pairs.len() && pairs[j] == (&q, &m@[q]);
                assert(keys[j] == q);
                if j < pairs.len() - 1 {
                    assert(keys[j] < keys[pairs.len() - 1]);
                }
            }
        }
        lemma_entries_gap(v, upto, 0x1_0000);
        assert(out@ =~= start + field(label@, entry_texts(entries(v)), ';'));
    }
}

/// Append the label and the strings, escaped, with commas between them.
fn push_strings(out: &mut String, label: &str, v: &Vec<String>)
    ensures
        final(out)@ == old(out)@ + field(label@, escaped_all(strings_chars(v@)), ','),
{
    let ghost start = out@;
    let ghost all = escaped_all(strings_chars(v@));
    if v.len() == 0 {
        assert(out@ =~= start + field(label@, all, ','));
        return;
    }
    out.append(label);
    push_escaped(out, v[0].as_str());
    let mut i: usize = 1;
    assert(all.take(1) =~= seq![escaped(v@[0]@)]);
    assert(out@ =~= start + label@ + joined(all.take(1), ','));
    while i < v.len()
        invariant
            1 <= i <= v@.len(),
            all == escaped_all(strings_chars(v@)),
            out@ == start + label@ + joined(all.take(i as int), ','),
        decreases v@.len() - i,
    {
        proof {
            lemma_joined_push(all.take(i as int), all[i as int], ',');
            assert(all.take(i + 1) =~= all.take(i as int).push(all[i as int]));
        }
        out.push(',');
        push_escaped(out, v[i].as_str());
        i += 1;
        assert(out@ =~= start + label@ + joined(all.take(i as int), ','));
    }
    assert(all.take(i as int) =~= all);
    assert(out@ =~= start + field(label@, all, ','));
}

/// Append one subscription.
fn push_listener(out: &mut String, l: (EventKind, HandlerId))
    ensures
        final(out)@ == old(out)@ + (decimal(l.0.0 as nat).push(':') + decimal(l.1.0 as nat)),
{
    push_decimal(out, l.0.0 as u64);
    out.push(':');
    push_decimal(out, l.1.0 as u64);
    assert(out@ =~= old(out)@ + (decimal(l.0.0 as nat).push(':') + decimal(l.1.0 as nat)));
}

/// Append the label and the subscriptions, with commas between them.
fn push_listeners(out: &mut String, label: &str, v: &Vec<(EventKind, HandlerId)>)
    ensures
        final(out)@ == old(out)@ + field(label@, listener_texts(v@), ','),
{
    let ghost start = out@;
    let ghost all = listener_texts(v@);
    if v.len() == 0 {
        assert(out@ =~= start + field(label@, all, ','));
        return;
    }
    out.append(label);
    push_listener(out, v[0]);
    let mut i: usize = 1;
    assert(all.take(1) =~= seq![all[0]]);
    assert(out@ =~= start + label@ + joined(all.take(1), ','));
    while i < v.len()
        invariant
            1 <= i <= v@.len(),
            all == listener_texts(v@),
            out@ == start + label@ + joined(all.take(i as int), ','),
        decreases v@.len() - i,
    {
        proof {
            lemma_joined_push(all.take(i as int), all[i as int], ',');
            assert(all.take(i + 1) =~= all.take(i as int).push(all[i as int]));
        }
        out.push(',');
        push_listener(out, v[i]);
        i += 1;
        assert(out@ =~= start + label@ + joined(all.take(i as int), ','));
    }
    assert(all.take(i as int) =~= all);
    assert(out@ =~= start + field(label@, all, ','));
}

proof fn lemma_line(
    s: Seq<char>,
    a: Seq<char>,
    b: Seq<char>,
    c: Seq<char>,
    d: Seq<char>,
    e: Seq<char>,
    f: Seq<char>,
    g: Seq<char>,
    h: Seq<char>,
)
    ensures
        s + a + b + c + d + e + f + g + h == s + (a + b + c + d + e + f + g + h),
{
    assert(s + a + b + c + d + e + f + g + h =~= s + (a + b + c + d + e + f + g + h));
}

/// Append the line of a node, without its indentation.
fn push_line(out: &mut String, n: &Node)
    ensures
        final(out)@ == old(out)@ + node_line(n@),
{
    let ghost start = out@;
    if let Some(text) = &n.text {
        out.append("text=");
        push_escaped(out, text.as_str());
        out.push('\n');
        assert(out@ =~= start + node_line(n@));
        return;
    }
    let ghost view = n@;
    let ghost tag = match view.tag {
        Some(tag) => decimal(tag.0 as nat),
        None => seq!['?'],
    };
    let ghost name = match view.tag_name {
        Some(name) => " name="@ + escaped(name),
        None => seq![],
    };
    out.append("el tag=");
    match n.tag {
        Some(tag) => {
            push_decimal(out, tag.0 as u64);
        },
        None => {
            out.push('?');
        },
    }
    assert(out@ =~= start + "el tag="@ + tag);
    if let Some(name) = &n.tag_name {
        out.append(" name=");
        push_escaped(out, name.as_str());
    }
    assert(out@ =~= start + "el tag="@ + tag + name);
    push_strings(out, " class=", &n.classes);
    push_entries(out, " style=", &n.styles);
    push_entries(out, " attr=", &n.attrs);
    push_listeners(out, " on=", &n.listeners);
    let ghost fields = out@;
    out.push('\n');
    proof {
        assert(out@ =~= fields + seq!['\n']);
        lemma_line(
            start,
            "el tag="@,
            tag,
            name,
            field(" class="@, escaped_all(view.classes), ','),
            field(" style="@, entry_texts(entries(view.styles)), ';'),
            field(" attr="@, entry_texts(entries(view.attrs)), ';'),
            field(" on="@, listener_texts(view.listeners), ','),
            seq!['\n'],
        );
    }
}

/// Append the lines of a node and its descendants.
fn write_node(dom: &Dom, out: &mut String, id: NodeId, indent: &String)
    requires
        dom.wf(),
    ensures
        final(out)@ == old(out)@ + node_dump(dom@.nodes, id, indent@),
    decreases height(dom@.nodes, id),
{
    let ghost nodes = dom@.nodes;
    let ghost start = out@;
    let node = match dom.node(id) {
        Some(n) => n,
        None => {
            assert(out@ =~= start + node_dump(nodes, id, indent@));
            return;
        },
    };
    out.append(indent.as_str());
    push_line(out, node);
    if node.text.is_some() {
        assert(out@ =~= start + node_dump(nodes, id, indent@));
        return;
    }
    let mut deeper = indent.clone();
    deeper.push(' ');
    deeper.push(' ');
    assert(deeper@ =~= indent@ + seq![' ', ' ']);
    let ghost ids = kids(nodes, id);
    let ghost h = height(nodes, id);
    let ghost lined = out@;
    let mut i: usize = 0;
    assert(ids.take(0) =~= seq![]);
    assert(lined + dump_below(nodes, ids.take(0), h, deeper@) =~= lined);
    while i < node.children.len()
        invariant
            dom.wf(),
            nodes == dom@.nodes,
            nodes.contains_key(id.0),
            node@ == nodes[id.0],
            ids == node.children@,
            ids == kids(nodes, id),
            h == height(nodes, id),
            i <= ids.len(),
            out@ == lined + dump_below(nodes, ids.take(i as int), h, deeper@),
        decreases ids.len() - i,
    {
        proof {
            assert(ids.take(i + 1).drop_last() =~= ids.take(i as int));
            assert(ids.take(i + 1).last() == ids[i as int]);
            lemma_child_is_lower(nodes, id, i as int);
        }
        write_node(dom, out, node.children[i], &deeper);
        i += 1;
        assert(out@ =~= lined + dump_below(nodes, ids.take(i as int), h, deeper@));
    }
    assert(ids.take(i as int) =~= ids);
    assert(out@ =~= start + node_dump(nodes, id, indent@));
}

/// Dump a tree.
pub fn dump(dom: &Dom) -> (r: String)
    requires
        dom.wf(),
    ensures
        r@ == dump_of(dom@),
{
    let roots = dom.children(NodeId::root());
    let mut out = String::new();
    let indent = String::new();
    let mut i: usize = 0;
    assert(out@ =~= seq![]);
    assert(indent@ =~= seq![]);
    while i < roots.len()
        invariant
            dom.wf(),
            roots@ == dom@.roots,
            indent@ == Seq::<char>::empty(),
            i <= roots@.len(),
            out@ == dump_roots(dom@.nodes, roots@, i as nat),
        decreases roots@.len() - i,
    {
        write_node(dom, &mut out, roots[i], &indent);
        i += 1;
    }
    out
}

/// Escaped text stays on one line.
pub proof fn law_escaped_text_is_one_line(s: Seq<char>)
    ensures
        !escaped(s).contains('\n'),
    decreases s.len(),
{
    if s.len() > 0 {
        law_escaped_text_is_one_line(s.drop_last());
        let init = escaped(s.drop_last());
        assert forall|i: int| 0 <= i < escaped(s).len() implies escaped(s)[i] != '\n' by {
            if i < init.len() {
                assert(escaped(s)[i] == init[i]);
            }
        }
    }
}

/// Whether a text stays on its line.
pub open spec fn unbroken(s: Seq<char>) -> bool {
    !s.contains('\n')
}

proof fn lemma_unbroken_join(a: Seq<char>, b: Seq<char>)
    requires
        unbroken(a),
        unbroken(b),
    ensures
        unbroken(a + b),
{
    assert forall|i: int| 0 <= i < (a + b).len() implies (a + b)[i] != '\n' by {
        if i < a.len() {
            assert(a.contains(a[i]));
        } else {
            assert(b.contains(b[i - a.len()]));
        }
    }
}

proof fn lemma_unbroken_push(a: Seq<char>, c: char)
    requires
        unbroken(a),
        c != '\n',
    ensures
        unbroken(a.push(c)),
{
    assert(a.push(c) =~= a + seq![c]);
    lemma_unbroken_join(a, seq![c]);
}

proof fn lemma_decimal_unbroken(n: nat)
    ensures
        unbroken(decimal(n)),
    decreases n,
{
    if n >= 10 {
        lemma_decimal_unbroken(n / 10);
        lemma_unbroken_push(decimal(n / 10), digit_char((n % 10) as int));
    }
}

proof fn lemma_joined_unbroken(pieces: Seq<Seq<char>>, sep: char)
    requires
        sep != '\n',
        forall|i: int| 0 <= i < pieces.len() ==> unbroken(#[trigger] pieces[i]),
    ensures
        unbroken(joined(pieces, sep)),
    decreases pieces.len(),
{
    if pieces.len() > 1 {
        let init = pieces.drop_last();
        assert forall|i: int| 0 <= i < init.len() implies unbroken(#[trigger] init[i]) by {
            assert(init[i] == pieces[i]);
        }
        lemma_joined_unbroken(init, sep);
        lemma_unbroken_push(joined(init, sep), sep);
        assert(unbroken(pieces[pieces.len() - 1]));
        lemma_unbroken_join(joined(init, sep).push(sep), pieces.last());
    }
}

proof fn lemma_field_unbroken(label: Seq<char>, pieces: Seq<Seq<char>>, sep: char)
    requires
        unbroken(label),
        sep != '\n',
        forall|i: int| 0 <= i < pieces.len() ==> unbroken(#[trigger] pieces[i]),
    ensures
        unbroken(field(label, pieces, sep)),
{
    lemma_joined_unbroken(pieces, sep);
    lemma_unbroken_join(label, joined(pieces, sep));
}

proof fn lemma_entries_unbroken(label: Seq<char>, es: Seq<(u16, Seq<char>)>)
    requires
        unbroken(label),
    ensures
        unbroken(field(label, entry_texts(es), ';')),
{
    let pieces = entry_texts(es);
    assert forall|i: int| 0 <= i < pieces.len() implies unbroken(#[trigger] pieces[i]) by {
        lemma_decimal_unbroken(es[i].0 as nat);
        lemma_unbroken_push(decimal(es[i].0 as nat), ':');
        law_escaped_text_is_one_line(es[i].1);
        lemma_unbroken_join(decimal(es[i].0 as nat).push(':'), escaped(es[i].1));
    }
    lemma_field_unbroken(label, pieces, ';');
}

/// The line of a node is one line, whatever the node holds: it ends in a line break and has no
/// other.
pub proof fn law_every_node_is_one_line(n: NodeView)
    ensures
        node_line(n).len() > 0,
        node_line(n).last() == '\n',
        unbroken(node_line(n).drop_last()),
{
    reveal_strlit("text=");
    reveal_strlit("el tag=");
    reveal_strlit(" name=");
    reveal_strlit(" class=");
    reveal_strlit(" style=");
    reveal_strlit(" attr=");
    reveal_strlit(" on=");
    match n.text {
        Some(text) => {
            law_escaped_text_is_one_line(text);
            lemma_unbroken_join("text="@, escaped(text));
            assert(node_line(n).drop_last() =~= "text="@ + escaped(text));
        },
        None => {
            let tag = match n.tag {
                Some(tag) => decimal(tag.0 as nat),
                None => seq!['?'],
            };
            if let Some(tag) = n.tag {
                lemma_decimal_unbroken(tag.0 as nat);
            }
            let name = match n.tag_name {
                Some(name) => " name="@ + escaped(name),
                None => seq![],
            };
            if let Some(name) = n.tag_name {
                law_escaped_text_is_one_line(name);
                lemma_unbroken_join(" name="@, escaped(name));
            }
            let classes = escaped_all(n.classes);
            assert forall|i: int| 0 <= i < classes.len() implies unbroken(#[trigger] classes[i]) by {
                law_escaped_text_is_one_line(n.classes[i]);
            }
            lemma_field_unbroken(" class="@, classes, ',');
            lemma_entries_unbroken(" style="@, entries(n.styles));
            lemma_entries_unbroken(" attr="@, entries(n.attrs));
            let subs = listener_texts(n.listeners);
            assert forall|i: int| 0 <= i < subs.len() implies unbroken(#[trigger] subs[i]) by {
                let (event, handler) = (n.listeners[i].0.0 as nat, n.listeners[i].1.0 as nat);
                lemma_decimal_unbroken(event);
                lemma_unbroken_push(decimal(event), ':');
                lemma_decimal_unbroken(handler);
                lemma_unbroken_join(decimal(event).push(':'), decimal(handler));
            }
            lemma_field_unbroken(" on="@, subs, ',');
            let a = "el tag="@ + tag;
            lemma_unbroken_join("el tag="@, tag);
            let b = a + name;
            lemma_unbroken_join(a, name);
            let c = b + field(" class="@, classes, ',');
            lemma_unbroken_join(b, field(" class="@, classes, ','));
            let d = c + field(" style="@, entry_texts(entries(n.styles)), ';');
            lemma_unbroken_join(c, field(" style="@, entry_texts(entries(n.styles)), ';'));
            let e = d + field(" attr="@, entry_texts(entries(n.attrs)), ';');
            lemma_unbroken_join(d, field(" attr="@, entry_texts(entries(n.attrs)), ';'));
            let f = e + field(" on="@, subs, ',');
            lemma_unbroken_join(e, field(" on="@, subs, ','));
            assert(node_line(n) == f + seq!['\n']);
            assert(node_line(n).drop_last() =~= f);
        },
    }
}

/// How many line breaks a text has.
pub open spec fn breaks(s: Seq<char>) -> nat {
    s.filter(|c: char| c == '\n').len()
}

proof fn lemma_breaks_join(a: Seq<char>, b: Seq<char>)
    ensures
        breaks(a + b) == breaks(a) + breaks(b),
{
    Seq::filter_distributes_over_add(a, b, |c: char| c == '\n');
}

proof fn lemma_unbroken_has_no_breaks(s: Seq<char>)
    requires
        unbroken(s),
    ensures
        breaks(s) == 0,
{
    let is_break = |c: char| c == '\n';
    lemma_filter_member(s, is_break);
    if breaks(s) > 0 {
        assert(s.contains(s.filter(is_break)[0]));
    }
}

proof fn lemma_line_breaks_once(n: NodeView)
    ensures
        breaks(node_line(n)) == 1,
{
    let is_break = |c: char| c == '\n';
    law_every_node_is_one_line(n);
    let init = node_line(n).drop_last();
    lemma_unbroken_has_no_breaks(init);
    lemma_filter_push(init, '\n', is_break);
    assert(node_line(n) =~= init.push('\n'));
}

/// Whether only elements have children.
pub open spec fn texts_are_leaves(d: DomView) -> bool {
    forall|k: u64| #[trigger]
        d.nodes.contains_key(k) && d.nodes[k].text is Some ==> d.nodes[k].children.len() == 0
}

proof fn lemma_node_breaks(d: DomView, n: NodeId, indent: Seq<char>)
    requires
        well_formed(d),
        orderly(d),
        texts_are_leaves(d),
        d.nodes.contains_key(n.0),
        unbroken(indent),
    ensures
        breaks(node_dump(d.nodes, n, indent)) == preorder(d.nodes, n).len(),
    decreases height(d.nodes, n), kids(d.nodes, n).len() + 1,
{
    let node = d.nodes[n.0];
    let ids = kids(d.nodes, n);
    law_preorder_unfolds(d.nodes, n);
    lemma_line_breaks_once(node);
    lemma_unbroken_has_no_breaks(indent);
    lemma_breaks_join(indent, node_line(node));
    if node.text is None {
        let deeper = indent + seq![' ', ' '];
        lemma_unbroken_join(indent, seq![' ', ' ']);
        assert forall|i: int| 0 <= i < ids.len() implies d.nodes.contains_key((#[trigger] ids[i]).0)
            && height(d.nodes, ids[i]) < height(d.nodes, n) by {
            lemma_child_is_lower(d.nodes, n, i);
            assert(siblings(d, n).contains(ids[i]));
        }
        lemma_breaks_below(d, ids, height(d.nodes, n), deeper);
        lemma_breaks_join(
            indent + node_line(node),
            dump_below(d.nodes, ids, height(d.nodes, n), deeper),
        );
    }
}

proof fn lemma_breaks_below(d: DomView, ids: Seq<NodeId>, h: nat, indent: Seq<char>)
    requires
        well_formed(d),
        orderly(d),
        texts_are_leaves(d),
        unbroken(indent),
        forall|i: int|
            0 <= i < ids.len() ==> d.nodes.contains_key((#[trigger] ids[i]).0) && height(
                d.nodes,
                ids[i],
            ) < h,
    ensures
        breaks(dump_below(d.nodes, ids, h, indent)) == forest(d.nodes, ids).len(),
    decreases h, ids.len(),
{
    if ids.len() == 0 {
        lemma_unbroken_has_no_breaks(Seq::<char>::empty());
    } else {
        let init = ids.drop_last();
        let last = ids.last();
        assert(ids[ids.len() - 1] == last);
        assert forall|i: int| 0 <= i < init.len() implies d.nodes.contains_key(
            (#[trigger] init[i]).0,
        ) && height(d.nodes, init[i]) < h by {
            assert(init[i] == ids[i]);
        }
        lemma_breaks_below(d, init, h, indent);
        lemma_node_breaks(d, last, indent);
        lemma_breaks_join(
            dump_below(d.nodes, init, h, indent),
            node_dump(d.nodes, last, indent),
        );
        lemma_forest_push(d.nodes, init, last);
        assert(init.push(last) =~= ids);
    }
}

proof fn lemma_roots_break(d: DomView, n: nat)
    requires
        well_formed(d),
        orderly(d),
        texts_are_leaves(d),
        n <= d.roots.len(),
    ensures
        breaks(dump_roots(d.nodes, d.roots, n)) == forest(d.nodes, d.roots.take(n as int)).len(),
    decreases n,
{
    if n == 0 {
        lemma_unbroken_has_no_breaks(Seq::<char>::empty());
    } else {
        let before = (n - 1) as nat;
        let root = d.roots[n - 1];
        lemma_roots_break(d, before);
        assert(siblings(d, NodeId(ROOT)).contains(root));
        lemma_node_breaks(d, root, Seq::<char>::empty());
        lemma_breaks_join(
            dump_roots(d.nodes, d.roots, before),
            node_dump(d.nodes, root, Seq::<char>::empty()),
        );
        lemma_forest_push(d.nodes, d.roots.take(n - 1), root);
        assert(d.roots.take(n as int) =~= d.roots.take(n - 1).push(root));
    }
}

/// A snapshot has one line for each node that is in the tree, whatever the nodes hold. A text node
/// is a leaf there: what a guest puts below one is not shown.
pub proof fn law_snapshots_have_one_line_per_node(d: DomView)
    requires
        well_formed(d),
        orderly(d),
        texts_are_leaves(d),
    ensures
        breaks(dump_of(d)) == forest(d.nodes, d.roots).len(),
{
    lemma_roots_break(d, d.roots.len());
    assert(d.roots.take(d.roots.len() as int) =~= d.roots);
}

/// What an escaped text stands for.
pub open spec fn unescaped(s: Seq<char>) -> Seq<char>
    decreases s.len(),
{
    if s.len() == 0 {
        seq![]
    } else if s.len() > 1 && s[0] == '\\' {
        seq![
            if s[1] == 'n' {
                '\n'
            } else {
                s[1]
            },
        ] + unescaped(s.skip(2))
    } else {
        seq![s[0]] + unescaped(s.skip(1))
    }
}

proof fn lemma_escaped_first(c: char, s: Seq<char>)
    ensures
        escaped(seq![c] + s) == escaped(seq![c]) + escaped(s),
    decreases s.len(),
{
    if s.len() == 0 {
        assert(seq![c] + s =~= seq![c]);
        assert(escaped(seq![c]) + escaped(s) =~= escaped(seq![c]));
    } else {
        let whole = seq![c] + s;
        assert(whole.drop_last() =~= seq![c] + s.drop_last());
        lemma_escaped_first(c, s.drop_last());
        assert(escaped(whole) =~= escaped(seq![c]) + escaped(s));
    }
}

/// Different texts stay different when they are escaped: the text can be told from its escaped
/// form.
pub proof fn law_escaping_is_reversible(s: Seq<char>)
    ensures
        unescaped(escaped(s)) == s,
    decreases s.len(),
{
    if s.len() > 0 {
        let c = s[0];
        let rest = s.skip(1);
        assert(s =~= seq![c] + rest);
        lemma_escaped_first(c, rest);
        law_escaping_is_reversible(rest);
        let one = seq![c];
        assert(one.drop_last() =~= seq![]);
        assert(escaped(one.drop_last()) =~= seq![]);
        let e = escaped(s);
        if c == '\\' {
            assert(escaped(one) =~= seq!['\\', '\\']);
            assert(e.skip(2) =~= escaped(rest));
        } else if c == '\n' {
            assert(escaped(one) =~= seq!['\\', 'n']);
            assert(e.skip(2) =~= escaped(rest));
        } else {
            assert(escaped(one) =~= seq![c]);
            assert(e.skip(1) =~= escaped(rest));
        }
        assert(unescaped(e) =~= s);
    }
}

/// The entries of a map are listed once each, by key.
pub proof fn law_entries_are_listed_by_key(m: Map<u16, Seq<char>>)
    ensures
        forall|i: int, j: int|
            0 <= i < j < entries(m).len() ==> (#[trigger] entries(m)[i]).0 < (#[trigger] entries(
                m,
            )[j]).0,
        forall|i: int|
            0 <= i < entries(m).len() ==> m.contains_key((#[trigger] entries(m)[i]).0)
                && m[entries(m)[i].0] == entries(m)[i].1,
        forall|k: u16| #[trigger] m.contains_key(k) ==> entries(m).contains((k, m[k])),
{
    lemma_entries_sorted(m, 0x1_0000);
}

proof fn lemma_entries_sorted(m: Map<u16, Seq<char>>, k: nat)
    requires
        k <= 0x1_0000,
    ensures
        ({
            let es = entries_below(m, k);
            &&& forall|i: int, j: int|
                0 <= i < j < es.len() ==> (#[trigger] es[i]).0 < (#[trigger] es[j]).0
            &&& forall|i: int|
                0 <= i < es.len() ==> (#[trigger] es[i]).0 < k && m.contains_key(es[i].0)
                    && m[es[i].0] == es[i].1
            &&& forall|q: u16| q < k && #[trigger] m.contains_key(q) ==> es.contains((q, m[q]))
        }),
    decreases k,
{
    if k > 0 {
        lemma_entries_sorted(m, (k - 1) as nat);
        let before = entries_below(m, (k - 1) as nat);
        let es = entries_below(m, k);
        assert forall|q: u16| q < k && #[trigger] m.contains_key(q) implies es.contains(
            (q, m[q]),
        ) by {
            if q < k - 1 {
                let i = choose|i: int| 0 <= i < before.len() && before[i] == (q, m[q]);
                assert(es[i] == (q, m[q]));
            } else {
                assert(es[before.len() as int] == (q, m[q]));
            }
        }
    }
}

/// The line of a node: a text is shown as it is, and of an element its tag, its name, its classes,
/// styles, attributes and subscriptions, as far as it has them, in this order.
pub proof fn law_lines_show_what_nodes_hold(n: NodeView)
    ensures
        n.text matches Some(text) ==> node_line(n) == "text="@ + escaped(text) + seq!['\n'],
        n.text is None ==> ({
            let tag = if n.tag is Some {
                decimal((n.tag->0).0 as nat)
            } else {
                seq!['?']
            };
            let name = if n.tag_name is Some {
                " name="@ + escaped(n.tag_name->0)
            } else {
                seq![]
            };
            let classes = if n.classes.len() > 0 {
                " class="@ + joined(escaped_all(n.classes), ',')
            } else {
                seq![]
            };
            let styles = if entries(n.styles).len() > 0 {
                " style="@ + joined(entry_texts(entries(n.styles)), ';')
            } else {
                seq![]
            };
            let attrs = if entries(n.attrs).len() > 0 {
                " attr="@ + joined(entry_texts(entries(n.attrs)), ';')
            } else {
                seq![]
            };
            let listeners = if n.listeners.len() > 0 {
                " on="@ + joined(listener_texts(n.listeners), ',')
            } else {
                seq![]
            };
            node_line(n) == "el tag="@ + tag + name + classes + styles + attrs + listeners + seq!['\n']
        }),
{
}

/// The lines of nodes one after the other.
pub open spec fn dump_each(nodes: Map<u64, NodeView>, ids: Seq<NodeId>, indent: Seq<char>) -> Seq<char>
    decreases ids.len(),
{
    if ids.len() == 0 {
        seq![]
    } else {
        dump_each(nodes, ids.drop_last(), indent) + node_dump(nodes, ids.last(), indent)
    }
}

/// A dump follows the tree: the line of a node, then those of its children in order, indented by two
/// spaces more; the top-level nodes are not indented.
pub proof fn law_dumps_follow_the_tree(d: DomView, n: NodeId, indent: Seq<char>)
    requires
        well_formed(d),
        d.nodes.contains_key(n.0),
    ensures
        d.nodes[n.0].text is None ==> node_dump(d.nodes, n, indent) == indent + node_line(
            d.nodes[n.0],
        ) + dump_each(d.nodes, kids(d.nodes, n), indent + seq![' ', ' ']),
        d.nodes[n.0].text is Some ==> node_dump(d.nodes, n, indent) == indent + node_line(
            d.nodes[n.0],
        ),
        dump_of(d) == dump_each(d.nodes, d.roots, seq![]),
{
    let ids = kids(d.nodes, n);
    assert forall|i: int| 0 <= i < ids.len() implies height(d.nodes, #[trigger] ids[i]) < height(
        d.nodes,
        n,
    ) by {
        lemma_child_is_lower(d.nodes, n, i);
    }
    lemma_dump_each(d.nodes, ids, height(d.nodes, n), indent + seq![' ', ' ']);
    lemma_dump_roots(d.nodes, d.roots, d.roots.len());
    assert(d.roots.take(d.roots.len() as int) =~= d.roots);
}

proof fn lemma_dump_each(nodes: Map<u64, NodeView>, ids: Seq<NodeId>, h: nat, indent: Seq<char>)
    requires
        forall|i: int| 0 <= i < ids.len() ==> height(nodes, #[trigger] ids[i]) < h,
    ensures
        dump_below(nodes, ids, h, indent) == dump_each(nodes, ids, indent),
    decreases ids.len(),
{
    if ids.len() > 0 {
        let init = ids.drop_last();
        assert forall|i: int| 0 <= i < init.len() implies height(nodes, #[trigger] init[i]) < h by {
            assert(init[i] == ids[i]);
        }
        assert(ids.last() == ids[ids.len() - 1]);
        lemma_dump_each(nodes, init, h, indent);
    }
}

proof fn lemma_dump_roots(nodes: Map<u64, NodeView>, roots: Seq<NodeId>, n: nat)
    requires
        n <= roots.len(),
    ensures
        dump_roots(nodes, roots, n) == dump_each(nodes, roots.take(n as int), seq![]),
    decreases n,
{
    if n > 0 {
        lemma_dump_roots(nodes, roots, (n - 1) as nat);
        assert(roots.take(n as int).drop_last() =~= roots.take(n - 1));
        assert(roots.take(n as int).last() == roots[n - 1]);
    }
}

/// Each class, each entry and each subscription is shown as it is: escaped, and a number before a
/// colon in decimal.
pub proof fn law_values_are_shown_with_their_keys(
    es: Seq<(u16, Seq<char>)>,
    ls: Seq<(EventKind, HandlerId)>,
    names: Seq<Seq<char>>,
    i: int,
)
    ensures
        0 <= i < es.len() ==> entry_texts(es)[i] == decimal(es[i].0 as nat) + seq![':'] + escaped(
            es[i].1,
        ),
        0 <= i < ls.len() ==> listener_texts(ls)[i] == decimal(ls[i].0.0 as nat) + seq![':']
            + decimal(ls[i].1.0 as nat),
        0 <= i < names.len() ==> escaped_all(names)[i] == escaped(names[i]),
        entry_texts(es).len() == es.len(),
        listener_texts(ls).len() == ls.len(),
        escaped_all(names).len() == names.len(),
{
    if 0 <= i < es.len() {
        assert(entry_texts(es)[i] =~= decimal(es[i].0 as nat) + seq![':'] + escaped(es[i].1));
    }
    if 0 <= i < ls.len() {
        assert(listener_texts(ls)[i] =~= decimal(ls[i].0.0 as nat) + seq![':'] + decimal(
            ls[i].1.0 as nat,
        ));
    }
}

/// Escaping goes character by character: a backslash becomes two, a line break a backslash and `n`,
/// and any other character stays.
pub proof fn law_two_characters_are_escaped(s: Seq<char>, c: char)
    ensures
        escaped(seq![]) == Seq::<char>::empty(),
        c == '\\' ==> escaped(s.push(c)) == escaped(s) + seq!['\\', '\\'],
        c == '\n' ==> escaped(s.push(c)) == escaped(s) + seq!['\\', 'n'],
        c != '\\' && c != '\n' ==> escaped(s.push(c)) == escaped(s) + seq![c],
{
    assert(s.push(c).drop_last() =~= s);
}

} // verus!
