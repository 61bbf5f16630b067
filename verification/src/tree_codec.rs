//! The binary form of trees.

use crate::path::{components, joined, law_components_of_render, lemma_components_utf8, render, well_formed};
use crate::tree_laws::lemma_position;
use crate::tree_model::{distinct, named, path_along, position, routes_from, rows, rows_from, Key, Node};
use crate::wire::{
    bool_bytes, law_bool_read_back, law_text_read_back, law_u32_read_back, law_u64_read_back, lemma_read_varint_bounds,
    lemma_varint_len, lossy_text, read_bool, read_text, read_u32, read_u64, shows_replacement, text_bytes, varint,
};
use vstd::prelude::*;

verus! {

/// The text that a name is written as.
pub open spec fn name_text(key: Key) -> Seq<char> {
    lossy_text(render(key))
}

/// A written child: its name and the bytes of its tree.
pub type Form = (Seq<char>, Seq<u8>);

/// The position of a name among written children, where it is there.
pub open spec fn form_position(forms: Seq<Form>, name: Seq<char>) -> Option<int>
    decreases forms.len(),
{
    if forms.len() == 0 {
        None
    } else if forms.last().0 == name {
        Some(forms.len() - 1)
    } else {
        form_position(forms.drop_last(), name)
    }
}

/// Written children with one more; of two with one name the later one stays.
pub open spec fn with_form(forms: Seq<Form>, form: Form) -> Seq<Form> {
    match form_position(forms, form.0) {
        Some(i) => forms.update(i, form),
        None => forms.push(form),
    }
}

/// The bytes of written children, one behind the other.
pub open spec fn forms_bytes(forms: Seq<Form>) -> Seq<u8>
    decreases forms.len(),
{
    if forms.len() == 0 {
        Seq::empty()
    } else {
        text_bytes(forms[0].0) + forms[0].1 + forms_bytes(forms.drop_first())
    }
}

/// Some children written behind those in `done`.
pub open spec fn forms_of(done: Seq<Form>, children: Seq<(Key, Node)>) -> Seq<Form>
    decreases children,
{
    if children.len() == 0 {
        done
    } else {
        forms_of(with_form(done, (name_text(children[0].0), node_bytes(children[0].1))), children.drop_first())
    }
}

/// The binary form of a tree: the number of children, each with its name before
/// it, then whether it is a file, its size and its number.
pub open spec fn node_bytes(node: Node) -> Seq<u8>
    decreases node,
{
    let forms = forms_of(Seq::empty(), node.children);
    varint(forms.len()) + forms_bytes(forms) + bool_bytes(node.is_file) + varint(node.size as nat) + varint(
        node.id as nat,
    )
}

/// Children with one more; of two with one name the later one stays.
pub open spec fn with_child(children: Seq<(Key, Node)>, key: Key, child: Node) -> Seq<(Key, Node)> {
    match position(children, key) {
        Some(i) => children.update(i, (key, child)),
        None => children.push((key, child)),
    }
}

/// Reads `count` children behind those in `done`. Gives all of them and the bytes
/// that follow.
pub open spec fn read_children(bytes: Seq<u8>, count: nat, done: Seq<(Key, Node)>) -> Option<
    (Seq<(Key, Node)>, Seq<u8>),
>
    decreases bytes.len(), 0nat,
{
    if count == 0 {
        Some((done, bytes))
    } else {
        match read_text(bytes) {
            Some((name, used)) => if 1 <= used <= bytes.len() {
                match read_node(bytes.skip(used as int)) {
                    Some((child, rest)) => if rest.len() < bytes.len() {
                        read_children(
                            rest,
                            (count - 1) as nat,
                            with_child(done, components(vstd::utf8::encode_utf8(name)), child),
                        )
                    } else {
                        None
                    },
                    None => None,
                }
            } else {
                None
            },
            None => None,
        }
    }
}

/// Reads a tree. Gives it and the bytes that follow.
pub open spec fn read_node(bytes: Seq<u8>) -> Option<(Node, Seq<u8>)>
    decreases bytes.len(), 1nat,
{
    match read_u64(bytes) {
        Some((count, used)) => if used <= bytes.len() {
            match read_children(bytes.skip(used as int), count, Seq::empty()) {
                Some((children, rest)) => read_tail(children, rest),
                None => None,
            }
        } else {
            None
        },
        None => None,
    }
}

/// Reads what follows the children of a tree.
pub open spec fn read_tail(children: Seq<(Key, Node)>, bytes: Seq<u8>) -> Option<(Node, Seq<u8>)> {
    match read_bool(bytes) {
        Some((is_file, one)) => {
            let rest = bytes.skip(one as int);
            match read_u64(rest) {
                Some((size, two)) => {
                    let last = rest.skip(two as int);
                    match read_u32(last) {
                        Some((id, three)) => Some(
                            (
                                Node { children, is_file, size: size as u64, id: id as u32 },
                                last.skip(three as int),
                            ),
                        ),
                        None => None,
                    }
                },
                None => None,
            }
        },
        None => None,
    }
}


/// Whether the texts that stand for names show what was replaced in them, all the way
/// down.
pub open spec fn texts_show_replacement(node: Node) -> bool
    decreases node,
{
    forall|i: int|
        0 <= i < node.children.len() ==> shows_replacement(render((#[trigger] node.children[i]).0))
            && texts_show_replacement(node.children[i].1)
}

/// Whether every name is UTF-8, all the way down.
pub open spec fn utf8_named(node: Node) -> bool
    decreases node,
{
    forall|i: int|
        0 <= i < node.children.len() ==> vstd::utf8::valid_utf8(render((#[trigger] node.children[i]).0)) && utf8_named(
            node.children[i].1,
        )
}

pub(crate) proof fn lemma_read_text_bounds(bytes: Seq<u8>)
    ensures
        read_text(bytes) matches Some((text, used)) ==> 1 <= used <= bytes.len(),
{
    lemma_read_varint_bounds(bytes, 10, 1);
    lemma_read_varint_bounds(bytes, 5, 15);
}

pub(crate) proof fn lemma_read_tail_bounds(children: Seq<(Key, Node)>, bytes: Seq<u8>)
    ensures
        read_tail(children, bytes) matches Some((node, rest)) ==> rest.len() < bytes.len(),
{
    if let Some((is_file, one)) = read_bool(bytes) {
        let rest = bytes.skip(one as int);
        lemma_read_varint_bounds(rest, 10, 1);
        if let Some((size, two)) = read_u64(rest) {
            lemma_read_varint_bounds(rest.skip(two as int), 5, 15);
        }
    }
}

pub(crate) proof fn lemma_read_children_bounds(bytes: Seq<u8>, count: nat, done: Seq<(Key, Node)>)
    ensures
        read_children(bytes, count, done) matches Some((children, rest)) ==> rest.len() <= bytes.len(),
    decreases bytes.len(),
{
    if count > 0 {
        if let Some((name, used)) = read_text(bytes) {
            if 1 <= used <= bytes.len() {
                if let Some((child, rest)) = read_node(bytes.skip(used as int)) {
                    if rest.len() < bytes.len() {
                        lemma_read_children_bounds(
                            rest,
                            (count - 1) as nat,
                            with_child(done, components(vstd::utf8::encode_utf8(name)), child),
                        );
                    }
                }
            }
        }
    }
}

pub(crate) proof fn lemma_read_node_bounds(bytes: Seq<u8>)
    ensures
        read_node(bytes) matches Some((node, rest)) ==> rest.len() < bytes.len(),
{
    lemma_read_varint_bounds(bytes, 10, 1);
    if let Some((count, used)) = read_u64(bytes) {
        let behind = bytes.skip(used as int);
        lemma_read_children_bounds(behind, count, Seq::empty());
        if let Some((children, rest)) = read_children(behind, count, Seq::empty()) {
            lemma_read_tail_bounds(children, rest);
        }
    }
}

pub(crate) proof fn lemma_form_position(forms: Seq<Form>, name: Seq<char>)
    ensures
        match form_position(forms, name) {
            Some(i) => 0 <= i < forms.len() && forms[i].0 == name && forall|j: int|
                i < j < forms.len() ==> (#[trigger] forms[j]).0 != name,
            None => forall|j: int| 0 <= j < forms.len() ==> (#[trigger] forms[j]).0 != name,
        },
    decreases forms.len(),
{
    if forms.len() > 0 && forms.last().0 != name {
        lemma_form_position(forms.drop_last(), name);
        assert forall|j: int| 0 <= j < forms.len() - 1 implies #[trigger] forms[j] == forms.drop_last()[j] by {}
    }
}

spec fn plain_forms(children: Seq<(Key, Node)>) -> Seq<Form> {
    children.map_values(|child: (Key, Node)| (name_text(child.0), node_bytes(child.1)))
}

spec fn names_differ(children: Seq<(Key, Node)>) -> bool {
    forall|i: int, j: int|
        0 <= i < j < children.len() ==> name_text((#[trigger] children[i]).0) != name_text((#[trigger] children[j]).0)
}

proof fn lemma_plain_forms(done: Seq<Form>, children: Seq<(Key, Node)>)
    requires
        names_differ(children),
        forall|i: int, j: int|
            0 <= i < done.len() && 0 <= j < children.len() ==> (#[trigger] done[i]).0 != name_text(
                (#[trigger] children[j]).0,
            ),
    ensures
        forms_of(done, children) == done + plain_forms(children),
    decreases children.len(),
{
    if children.len() > 0 {
        let rest = children.drop_first();
        let form = (name_text(children[0].0), node_bytes(children[0].1));
        lemma_form_position(done, form.0);
        assert(form_position(done, form.0) is None) by {
            if let Some(i) = form_position(done, form.0) {
                assert(done[i].0 != name_text(children[0].0));
            }
        }
        let next = done.push(form);
        assert forall|j: int| 0 <= j < rest.len() implies #[trigger] rest[j] == children[j + 1] by {}
        assert forall|i: int, j: int| 0 <= i < next.len() && 0 <= j < rest.len() implies (#[trigger] next[i]).0
            != name_text((#[trigger] rest[j]).0) by {
            assert(rest[j] == children[j + 1]);
            if i < done.len() {
                assert(done[i].0 != name_text(children[j + 1].0));
            } else {
                assert(name_text(children[0].0) != name_text(children[j + 1].0));
            }
        }
        assert(names_differ(rest)) by {
            assert forall|i: int, j: int| 0 <= i < j < rest.len() implies name_text((#[trigger] rest[i]).0) != name_text(
                (#[trigger] rest[j]).0,
            ) by {
                assert(name_text(children[i + 1].0) != name_text(children[j + 1].0));
            }
        }
        lemma_plain_forms(next, rest);
        assert(next + plain_forms(rest) =~= done + plain_forms(children));
    } else {
        assert(done + plain_forms(children) =~= done);
    }
}

pub(crate) proof fn lemma_name_back(key: Key)
    requires
        well_formed(key),
        vstd::utf8::valid_utf8(render(key)),
    ensures
        components(vstd::utf8::encode_utf8(name_text(key))) == key,
        vstd::utf8::encode_utf8(name_text(key)) == render(key),
{
    vstd::utf8::decode_utf8_encode_utf8(render(key));
    law_components_of_render(key);
}

/// A name as it is read back: what its text stands for.
pub open spec fn replaced_key(key: Key) -> Key {
    components(vstd::utf8::encode_utf8(name_text(key)))
}

/// A tree with its names as they are read back.
pub open spec fn replaced(node: Node) -> Node
    decreases node,
{
    Node {
        children: Seq::new(
            node.children.len(),
            |i: int|
                if 0 <= i < node.children.len() {
                    (replaced_key(node.children[i].0), replaced(node.children[i].1))
                } else {
                    arbitrary()
                },
        ),
        ..node
    }
}

/// Whether no two children of one directory become alike when they are read back, all
/// the way down.
pub open spec fn names_stay_apart(node: Node) -> bool
    decreases node,
{
    &&& forall|i: int, j: int|
        0 <= i < j < node.children.len() ==> replaced_key((#[trigger] node.children[i]).0) != replaced_key(
            (#[trigger] node.children[j]).0,
        )
    &&& forall|i: int| 0 <= i < node.children.len() ==> names_stay_apart((#[trigger] node.children[i]).1)
}

proof fn lemma_names_differ(node: Node)
    requires
        names_stay_apart(node),
    ensures
        names_differ(node.children),
{
    let children = node.children;
    assert forall|i: int, j: int| 0 <= i < j < children.len() implies name_text((#[trigger] children[i]).0)
        != name_text((#[trigger] children[j]).0) by {
        assert(replaced_key(children[i].0) != replaced_key(children[j].0));
    }
}

/// Reading the bytes of a tree gives that tree with the names that stand for its own,
/// where no two of them become alike, and leaves what comes behind the bytes.
pub proof fn law_replaced_read_back(node: Node, rest: Seq<u8>)
    requires
        names_stay_apart(node),
        node_bytes(node).len() <= usize::MAX,
    ensures
        read_node(node_bytes(node) + rest) == Some((replaced(node), rest)),
    decreases node, node.children.len() + 1,
{
    let forms = plain_forms(node.children);
    let tail = bool_bytes(node.is_file) + varint(node.size as nat) + varint(node.id as nat) + rest;
    let behind = forms_bytes(forms) + tail;
    let bytes = node_bytes(node) + rest;
    let used = varint(forms.len()).len();
    let back = replaced(node);
    lemma_plain_node(node);
    assert(bytes =~= varint(forms.len()) + behind);
    lemma_forms_count(forms);
    law_u64_read_back(forms.len(), behind);
    assert(bytes.skip(used as int) =~= behind);
    assert(node.children.skip(0) =~= node.children);
    assert(back.children.take(0) =~= Seq::empty());
    lemma_children_back(node, 0, tail);
    lemma_tail_back(back, rest);
    lemma_read_node_steps(bytes, forms.len(), used, back.children, tail);
}

/// Reading the bytes of a tree with UTF-8 names gives that tree, and leaves what
/// comes behind them.
pub proof fn law_node_read_back(node: Node, rest: Seq<u8>)
    requires
        distinct(node),
        named(node),
        utf8_named(node),
        node_bytes(node).len() <= usize::MAX,
    ensures
        read_node(node_bytes(node) + rest) == Some((node, rest)),
{
    lemma_utf8_stays(node);
    law_replaced_read_back(node, rest);
}

pub(crate) proof fn lemma_utf8_stays(node: Node)
    requires
        distinct(node),
        named(node),
        utf8_named(node),
    ensures
        replaced(node) == node,
        names_stay_apart(node),
    decreases node,
{
    let children = node.children;
    assert forall|i: int| 0 <= i < children.len() implies replaced_key((#[trigger] children[i]).0) == children[i].0
        && replaced(children[i].1) == children[i].1 && names_stay_apart(children[i].1) by {
        lemma_name_back(children[i].0);
        assert(distinct(node.children[i].1));
        lemma_utf8_stays(children[i].1);
    }
    assert forall|i: int, j: int| 0 <= i < j < children.len() implies replaced_key((#[trigger] children[i]).0)
        != replaced_key((#[trigger] children[j]).0) by {
        assert(node.children[i].0 != node.children[j].0);
    }
    assert(replaced(node).children =~= children);
}

proof fn lemma_plain_node(node: Node)
    requires
        names_stay_apart(node),
    ensures
        node_bytes(node) == varint(node.children.len()) + forms_bytes(plain_forms(node.children)) + bool_bytes(
            node.is_file,
        ) + varint(node.size as nat) + varint(node.id as nat),
{
    lemma_names_differ(node);
    lemma_plain_forms(Seq::empty(), node.children);
    assert(forms_of(Seq::empty(), node.children) =~= plain_forms(node.children));
}

proof fn lemma_read_node_steps(bytes: Seq<u8>, count: nat, used: nat, children: Seq<(Key, Node)>, rest: Seq<u8>)
    requires
        read_u64(bytes) == Some((count, used)),
        used <= bytes.len(),
        read_children(bytes.skip(used as int), count, Seq::empty()) == Some((children, rest)),
    ensures
        read_node(bytes) == read_tail(children, rest),
{
}

proof fn lemma_tail_back(node: Node, rest: Seq<u8>)
    ensures
        read_tail(
            node.children,
            bool_bytes(node.is_file) + varint(node.size as nat) + varint(node.id as nat) + rest,
        ) == Some((node, rest)),
{
    let tail = bool_bytes(node.is_file) + varint(node.size as nat) + varint(node.id as nat) + rest;
    let end = varint(node.id as nat) + rest;
    let middle = varint(node.size as nat) + end;
    assert(tail =~= bool_bytes(node.is_file) + middle);
    law_bool_read_back(node.is_file, middle);
    assert(tail.skip(1) =~= middle);
    law_u64_read_back(node.size as nat, end);
    assert(middle.skip(varint(node.size as nat).len() as int) =~= end);
    law_u32_read_back(node.id as nat, rest);
    assert(end.skip(varint(node.id as nat).len() as int) =~= rest);
}

proof fn lemma_forms_count(forms: Seq<Form>)
    ensures
        forms_bytes(forms).len() >= forms.len(),
    decreases forms.len(),
{
    if forms.len() > 0 {
        lemma_forms_count(forms.drop_first());
        lemma_varint_len(vstd::utf8::encode_utf8(forms[0].0).len());
    }
}

proof fn lemma_children_back(node: Node, k: int, rest: Seq<u8>)
    requires
        0 <= k <= node.children.len(),
        names_stay_apart(node),
        forms_bytes(plain_forms(node.children.skip(k))).len() <= usize::MAX,
    ensures
        read_children(
            forms_bytes(plain_forms(node.children.skip(k))) + rest,
            (node.children.len() - k) as nat,
            replaced(node).children.take(k),
        ) == Some((replaced(node).children, rest)),
    decreases node, node.children.len() - k,
{
    let children = node.children.skip(k);
    let forms = plain_forms(children);
    let bytes = forms_bytes(forms) + rest;
    let back = replaced(node).children;
    let done = back.take(k);
    if k == node.children.len() {
        assert(bytes =~= rest);
        assert(done =~= back);
    } else {
        let (key, child) = node.children[k];
        assert(children[0] == node.children[k]);
        assert(names_stay_apart(node.children[k].1));
        let others = children.drop_first();
        assert(others =~= node.children.skip(k + 1));
        assert(forms.drop_first() =~= plain_forms(others));
        let left = forms_bytes(plain_forms(others)) + rest;
        let name = name_text(key);
        let form = node_bytes(child);
        assert(bytes =~= text_bytes(name) + (form + left));
        law_text_read_back(name, form + left);
        let used = text_bytes(name).len() as int;
        lemma_varint_len(vstd::utf8::encode_utf8(name).len());
        assert(bytes.skip(used) =~= form + left);
        law_replaced_read_back(child, left);
        let new_key = replaced_key(key);
        lemma_position(done, new_key);
        assert(position(done, new_key) is None) by {
            if let Some(i) = position(done, new_key) {
                assert(done[i].0 == replaced_key(node.children[i].0));
                assert(replaced_key(node.children[i].0) != replaced_key(node.children[k].0));
            }
        }
        assert(done.push((new_key, replaced(child))) =~= back.take(k + 1));
        lemma_children_back(node, k + 1, rest);
    }
}

/// What is read back of a tree has the same lines, but for the names in their paths.
pub proof fn law_replaced_rows(node: Node)
    ensures
        rows(replaced(node)).len() == rows(node).len(),
        routes_from(node.children).len() == rows(node).len(),
        forall|i: int|
            0 <= i < rows(node).len() ==> {
                let row = #[trigger] rows(replaced(node))[i];
                &&& row.info == rows(node)[i].info
                &&& row.path == path_along(
                    Seq::empty(),
                    routes_from(node.children)[i].map_values(|key: Key| replaced_key(key)),
                )
            },
{
    lemma_replaced_rows(node, 0, Seq::empty(), Seq::empty());
    assert(node.children.skip(0) =~= node.children);
    assert(replaced(node).children.skip(0) =~= replaced(node).children);
}

proof fn lemma_replaced_rows(node: Node, k: int, prefix: Key, new_prefix: Key)
    requires
        0 <= k <= node.children.len(),
    ensures
        ({
            let lines = rows_from(node.children.skip(k), prefix);
            let now = rows_from(replaced(node).children.skip(k), new_prefix);
            let routes = routes_from(node.children.skip(k));
            &&& now.len() == lines.len()
            &&& routes.len() == lines.len()
            &&& forall|i: int|
                0 <= i < lines.len() ==> {
                    let row = #[trigger] now[i];
                    &&& row.info == lines[i].info
                    &&& row.path == path_along(new_prefix, routes[i].map_values(|key: Key| replaced_key(key)))
                }
        }),
    decreases node, node.children.len() - k,
{
    let map = |key: Key| replaced_key(key);
    let here = node.children.skip(k);
    let there = replaced(node).children.skip(k);
    if k < node.children.len() {
        let (key, child) = node.children[k];
        assert(here[0] == node.children[k]);
        assert(there[0] == (replaced_key(key), replaced(child)));
        let path = joined(prefix, key);
        let new_path = joined(new_prefix, replaced_key(key));
        lemma_replaced_rows(child, 0, path, new_path);
        assert(child.children.skip(0) =~= child.children);
        assert(replaced(child).children.skip(0) =~= replaced(child).children);
        lemma_replaced_rows(node, k + 1, prefix, new_prefix);
        assert(here.drop_first() =~= node.children.skip(k + 1));
        assert(there.drop_first() =~= replaced(node).children.skip(k + 1));
        let lines = rows_from(here, prefix);
        let now = rows_from(there, new_prefix);
        let routes = routes_from(here);
        let inner = rows_from(child.children, path);
        let inner_now = rows_from(replaced(child).children, new_path);
        let inner_routes = routes_from(child.children);
        let n = inner.len() as int;
        assert forall|i: int| 0 <= i < lines.len() implies {
            let row = #[trigger] now[i];
            &&& row.info == lines[i].info
            &&& row.path == path_along(new_prefix, routes[i].map_values(map))
        } by {
            if i == 0 {
                let mapped = routes[0].map_values(map);
                assert(mapped =~= seq![replaced_key(key)]);
                assert(mapped.drop_first() =~= Seq::empty());
                assert(path_along(new_path, mapped.drop_first()) == new_path);
            } else if i <= n {
                assert(now[i] == inner_now[i - 1]);
                assert(lines[i] == inner[i - 1]);
                assert(routes[i] == seq![key] + inner_routes[i - 1]);
                let mapped = routes[i].map_values(map);
                assert(mapped[0] == replaced_key(key));
                assert(mapped.drop_first() =~= inner_routes[i - 1].map_values(map));
            } else {
                assert(now[i] == rows_from(there.drop_first(), new_prefix)[i - 1 - n]);
                assert(lines[i] == rows_from(here.drop_first(), prefix)[i - 1 - n]);
                assert(routes[i] == routes_from(here.drop_first())[i - 1 - n]);
            }
        }
    }
}


/// What is read back of a tree is that tree exactly where all its names are UTF-8.
pub proof fn law_unchanged_iff_utf8(node: Node)
    requires
        distinct(node),
        named(node),
    ensures
        replaced(node) == node <==> utf8_named(node),
    decreases node,
{
    if utf8_named(node) {
        lemma_utf8_stays(node);
    }
    if replaced(node) == node {
        let back = replaced(node);
        assert forall|i: int| 0 <= i < node.children.len() implies vstd::utf8::valid_utf8(
            render((#[trigger] node.children[i]).0),
        ) && utf8_named(node.children[i].1) by {
            let (key, child) = node.children[i];
            assert(back.children[i] == (replaced_key(key), replaced(child)));
            lemma_components_utf8(name_text(key));
            assert(distinct(child) && named(child));
            law_unchanged_iff_utf8(child);
        }
    }
}

/// A place without children is written as their number, zero, whether it is a file, its
/// size and its number; one with a single child has its name and its bytes before these.
pub proof fn law_node_form(node: Node)
    ensures
        ({
            let flag = if node.is_file { seq![1u8] } else { seq![0u8] };
            let tail = flag + varint(node.size as nat) + varint(node.id as nat);
            &&& node.children.len() == 0 ==> node_bytes(node) == seq![0u8] + tail
            &&& node.children.len() == 1 ==> node_bytes(node) == seq![1u8] + text_bytes(
                lossy_text(render(node.children[0].0)),
            ) + node_bytes(node.children[0].1) + tail
        }),
{
    reveal(varint);
    let flag = if node.is_file { seq![1u8] } else { seq![0u8] };
    let tail = flag + varint(node.size as nat) + varint(node.id as nat);
    let forms = forms_of(Seq::empty(), node.children);
    if node.children.len() == 0 {
        assert(forms_bytes(forms) =~= Seq::empty());
        assert(node_bytes(node) =~= seq![0u8] + tail);
    } else if node.children.len() == 1 {
        let form = (name_text(node.children[0].0), node_bytes(node.children[0].1));
        let none = Seq::<Form>::empty();
        assert(form_position(none, form.0) is None);
        assert(none.push(form) =~= seq![form]);
        let rest = node.children.drop_first();
        assert(rest.len() == 0);
        assert(forms_of(seq![form], rest) == seq![form]);
        assert(forms =~= seq![form]);
        assert(forms.drop_first() =~= none);
        assert(forms_bytes(none) =~= Seq::empty());
        assert(forms_bytes(forms) =~= text_bytes(form.0) + form.1);
        assert(node_bytes(node) =~= seq![1u8] + text_bytes(form.0) + form.1 + tail);
    }
}

/// Of two children that are read under one name the later one stays, in the place of the
/// first, and no other child is touched; the same holds of those that are written.
pub proof fn law_later_child_stays(children: Seq<(Key, Node)>, key: Key, child: Node, forms: Seq<Form>, form: Form)
    ensures
        ({
            let after = with_child(children, key, child);
            let there = exists|i: int| 0 <= i < children.len() && (#[trigger] children[i]).0 == key;
            &&& !there ==> after == children.push((key, child))
            &&& there ==> exists|i: int|
                0 <= i < children.len() && (#[trigger] children[i]).0 == key && after == children.update(i, (key, child))
        }),
        ({
            let after = with_form(forms, form);
            let there = exists|i: int| 0 <= i < forms.len() && (#[trigger] forms[i]).0 == form.0;
            &&& !there ==> after == forms.push(form)
            &&& there ==> exists|i: int|
                0 <= i < forms.len() && (#[trigger] forms[i]).0 == form.0 && after == forms.update(i, form)
        }),
{
    lemma_position(children, key);
    lemma_form_position(forms, form.0);
    if let Some(i) = position(children, key) {
        assert(children[i].0 == key);
    }
    if let Some(i) = form_position(forms, form.0) {
        assert(forms[i].0 == form.0);
    }
}

} // verus!
