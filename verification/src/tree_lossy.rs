//! What becomes of names that are not UTF-8 when a tree is written and read back.

use crate::path::{
    current_name, joined, lemma_one_component, lemma_slash_utf8, lemma_text_without_slash, render,
    root_name, well_formed,
};
use crate::tree_codec::{
    lemma_name_back, name_text, names_stay_apart, replaced, replaced_key, texts_show_replacement,
};
use crate::tree_model::{named, rows, rows_from, Key, Node, Row};
use crate::tree_places::{plain, plain_name};
use crate::wire::{lossy_text, shows_replacement, REPLACEMENT};
use vstd::prelude::*;

verus! {

/// Whether no two names in one directory have the same text, all the way down.
pub open spec fn texts_differ(node: Node) -> bool
    decreases node,
{
    &&& forall|i: int, j: int|
        0 <= i < j < node.children.len() ==> name_text((#[trigger] node.children[i]).0) != name_text(
            (#[trigger] node.children[j]).0,
        )
    &&& forall|i: int| 0 <= i < node.children.len() ==> texts_differ((#[trigger] node.children[i]).1)
}

/// A component as it comes back: the bytes of its text.
pub open spec fn lossy_part(part: Seq<u8>) -> Seq<u8> {
    vstd::utf8::encode_utf8(lossy_text(part))
}

/// A path as it comes back: each component as the bytes of its text.
pub open spec fn lossy_path(path: Key) -> Key {
    path.map_values(|part: Seq<u8>| lossy_part(part))
}

/// Whether a component that is not UTF-8 shows in its text that something was replaced.
pub open spec fn shown(part: Seq<u8>) -> bool {
    !vstd::utf8::valid_utf8(part) ==> lossy_text(part).contains(REPLACEMENT)
}

/// Whether lines are others as they come back: each with the same entry, and with its
/// path as the bytes of the texts of its components.
pub open spec fn lines_come_back(lines: Seq<Row>, back: Seq<Row>) -> bool {
    &&& back.len() == lines.len()
    &&& forall|i: int|
        0 <= i < lines.len() ==> {
            &&& (#[trigger] back[i]).info == lines[i].info
            &&& back[i].path == lossy_path(lines[i].path)
            &&& forall|j: int| 0 <= j < lines[i].path.len() ==> shown(#[trigger] lines[i].path[j])
        }
}

proof fn lemma_lossy_key(key: Key, top: bool)
    requires
        well_formed(key),
        plain_name(key, top),
        shows_replacement(render(key)),
    ensures
        name_text(key) == lossy_text(key[0]),
        replaced_key(key) == seq![lossy_part(key[0])],
        replaced_key(key) == lossy_path(key),
        plain_name(replaced_key(key), top),
        shown(key[0]),
{
    let part = key[0];
    assert(key.drop_last() =~= Seq::empty());
    assert(render(key.drop_last()) =~= Seq::empty());
    assert(Seq::<u8>::empty() + part =~= part);
    assert(render(key) =~= part);
    let text = lossy_text(part);
    if vstd::utf8::valid_utf8(part) {
        lemma_name_back(key);
        assert(key =~= seq![lossy_part(part)]);
    } else {
        lemma_slash_utf8();
        assert(part != root_name());
        assert(!text.contains('/'));
        let k = choose|k: int| 0 <= k < text.len() && text[k] == REPLACEMENT;
        assert(text[k] == REPLACEMENT);
        lemma_text_without_slash(text);
        vstd::utf8::encode_utf8_decode_utf8(text);
        let bytes = lossy_part(part);
        if bytes.len() == 0 {
            assert(bytes =~= vstd::utf8::encode_utf8(Seq::empty()));
            vstd::utf8::encode_utf8_decode_utf8(Seq::empty());
            assert(false);
        }
        lemma_one_component(bytes);
        assert(bytes != root_name()) by {
            assert(root_name()[0] == 47u8);
        }
        if bytes == current_name() {
            vstd::utf8::is_ascii_chars_encode_utf8(seq!['.']);
            assert(vstd::utf8::encode_utf8(seq!['.']) =~= current_name()) by {
                assert(seq!['.'][0] == '.');
            }
            vstd::utf8::encode_utf8_decode_utf8(seq!['.']);
            assert(text == seq!['.']);
            assert(false);
        }
    }
    assert(lossy_path(key) =~= seq![lossy_part(part)]);
}

proof fn lemma_names_apart(node: Node, top: bool)
    requires
        named(node),
        plain(node, top),
        texts_show_replacement(node),
        texts_differ(node),
    ensures
        names_stay_apart(node),
    decreases node,
{
    let children = node.children;
    assert forall|i: int, j: int| 0 <= i < j < children.len() implies replaced_key((#[trigger] children[i]).0)
        != replaced_key((#[trigger] children[j]).0) by {
        let a = children[i].0;
        let b = children[j].0;
        lemma_lossy_key(a, top);
        lemma_lossy_key(b, top);
        assert(name_text(node.children[i].0) != name_text(node.children[j].0));
        vstd::utf8::encode_utf8_decode_utf8(name_text(a));
        vstd::utf8::encode_utf8_decode_utf8(name_text(b));
        assert(replaced_key(a)[0] != replaced_key(b)[0]);
    }
    assert forall|i: int| 0 <= i < children.len() implies names_stay_apart((#[trigger] children[i]).1) by {
        lemma_names_apart(children[i].1, false);
    }
}

proof fn lemma_lossy_rows(node: Node, k: int, prefix: Key)
    requires
        0 <= k <= node.children.len(),
        named(node),
        plain(node, prefix.len() == 0),
        texts_show_replacement(node),
        forall|j: int| 0 <= j < prefix.len() ==> shown(#[trigger] prefix[j]),
    ensures
        lines_come_back(
            rows_from(node.children.skip(k), prefix),
            rows_from(replaced(node).children.skip(k), lossy_path(prefix)),
        ),
    decreases node, node.children.len() - k,
{
    let here = node.children.skip(k);
    let there = replaced(node).children.skip(k);
    let new_prefix = lossy_path(prefix);
    if k < node.children.len() {
        let top = prefix.len() == 0;
        let (key, child) = node.children[k];
        assert(here[0] == node.children[k]);
        assert(there[0] == (replaced_key(key), replaced(child)));
        lemma_lossy_key(key, top);
        let path = joined(prefix, key);
        let new_path = joined(new_prefix, replaced_key(key));
        if top {
            assert(path == key);
        } else {
            assert(path == prefix + key);
            assert(new_path == new_prefix + replaced_key(key));
        }
        assert(new_path =~= lossy_path(path));
        assert(path.len() > 0);
        assert forall|j: int| 0 <= j < path.len() implies shown(#[trigger] path[j]) by {
            if j < prefix.len() {
                assert(path[j] == prefix[j]);
            } else {
                assert(path[j] == key[0]);
            }
        }
        lemma_lossy_rows(child, 0, path);
        assert(child.children.skip(0) =~= child.children);
        assert(replaced(child).children.skip(0) =~= replaced(child).children);
        lemma_lossy_rows(node, k + 1, prefix);
        assert(here.drop_first() =~= node.children.skip(k + 1));
        assert(there.drop_first() =~= replaced(node).children.skip(k + 1));
        let lines = rows_from(here, prefix);
        let back = rows_from(there, new_prefix);
        let inner = rows_from(child.children, path);
        let inner_back = rows_from(replaced(child).children, new_path);
        let n = inner.len() as int;
        assert forall|i: int| 0 <= i < lines.len() implies {
            &&& (#[trigger] back[i]).info == lines[i].info
            &&& back[i].path == lossy_path(lines[i].path)
            &&& forall|j: int| 0 <= j < lines[i].path.len() ==> shown(#[trigger] lines[i].path[j])
        } by {
            if i == 0 {
                assert(lines[0].path == path);
                assert(back[0].path == new_path);
            } else if i <= n {
                assert(back[i] == inner_back[i - 1]);
                assert(lines[i] == inner[i - 1]);
            } else {
                assert(back[i] == rows_from(there.drop_first(), new_prefix)[i - 1 - n]);
                assert(lines[i] == rows_from(here.drop_first(), prefix)[i - 1 - n]);
            }
        }
    }
}

/// Where no two names of a directory have the same text, what is read back of a tree has
/// the same lines, with each component of their paths as the bytes of its text. A name
/// that is not UTF-8 comes back with a replacement character in it.
pub proof fn law_lossy_round_trip(node: Node)
    requires
        named(node),
        plain(node, true),
        texts_show_replacement(node),
        texts_differ(node),
    ensures
        names_stay_apart(node),
        lines_come_back(rows(node), rows(replaced(node))),
{
    lemma_names_apart(node, true);
    lemma_lossy_rows(node, 0, Seq::empty());
    assert(node.children.skip(0) =~= node.children);
    assert(replaced(node).children.skip(0) =~= replaced(node).children);
    assert(lossy_path(Seq::empty()) =~= Seq::empty());
}

} // verus!
