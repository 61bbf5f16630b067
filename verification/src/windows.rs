//! Paths as Windows writes them: parted at both slashes, with a drive in front.

use crate::path::{
    components, is_normal, kept, law_components_of_render, law_slashes_part_names, normal_parts, push_text, render, root_name, segments,
    well_formed, TreePath,
};
use vstd::prelude::*;

verus! {

/// Whether a byte is a letter that a drive can have.
pub open spec fn is_letter(byte: u8) -> bool {
    65 <= byte <= 90 || 97 <= byte <= 122
}

/// Whether a text begins with a drive, a letter and a colon.
pub open spec fn has_drive(text: Seq<u8>) -> bool {
    text.len() >= 2 && is_letter(text[0]) && text[1] == 58u8
}

/// A path text with a slash for each backslash.
pub open spec fn slashed(text: Seq<u8>) -> Seq<u8> {
    Seq::new(
        text.len(),
        |i: int|
            if text[i] == 92u8 {
                47u8
            } else {
                text[i]
            },
    )
}

/// A path text with its drive set off by slashes, as if it were a directory of the
/// root.
pub open spec fn drive_apart(text: Seq<u8>) -> Seq<u8> {
    if !has_drive(text) {
        text
    } else if text.len() == 2 || text[2] == 47u8 || text[2] == 92u8 {
        seq![47u8] + text
    } else {
        seq![47u8] + text.take(2) + seq![47u8] + text.skip(2)
    }
}

/// The components of a path text of Windows. A drive is the first component below the
/// root; a server and a share are components like others.
pub open spec fn windows_components(text: Seq<u8>) -> Seq<Seq<u8>> {
    components(slashed(drive_apart(text)))
}

/// Whether a component list is one that some path text of Windows has: no component
/// holds a backslash, and the first is no drive.
pub open spec fn windows_formed(parts: Seq<Seq<u8>>) -> bool {
    &&& well_formed(parts)
    &&& forall|i: int| 0 <= i < parts.len() ==> !(#[trigger] parts[i]).contains(92u8)
    &&& parts.len() > 0 ==> !has_drive(parts[0])
}

/// Whether a component list leads to a drive first.
pub open spec fn on_drive(parts: Seq<Seq<u8>>) -> bool {
    parts.len() >= 2 && parts[0] == root_name() && parts[1].len() == 2 && has_drive(parts[1])
}

/// The path text of Windows that a component list stands for.
pub open spec fn windows_render(parts: Seq<Seq<u8>>) -> Seq<u8> {
    if on_drive(parts) {
        let text = render(parts).skip(1);
        if parts.len() == 2 {
            text.push(47u8)
        } else {
            text
        }
    } else {
        render(parts)
    }
}

/// The components that do not begin with a drive, in order.
pub open spec fn drive_free(parts: Seq<Seq<u8>>) -> Seq<Seq<u8>>
    decreases parts.len(),
{
    if parts.len() == 0 {
        Seq::empty()
    } else if has_drive(parts.last()) {
        drive_free(parts.drop_last())
    } else {
        drive_free(parts.drop_last()).push(parts.last())
    }
}

/// The names in a path, as Windows reads it: no root, no drive, no `.` or `..`.
pub open spec fn windows_names(path: Seq<Seq<u8>>) -> Seq<Seq<u8>> {
    drive_free(normal_parts(windows_components(render(path))))
}

proof fn lemma_segments_hold_bytes_of_text(text: Seq<u8>, byte: u8)
    requires
        !text.contains(byte),
    ensures
        segments(text).len() > 0,
        forall|i: int| 0 <= i < segments(text).len() ==> !(#[trigger] segments(text)[i]).contains(byte),
        segments(text)[0].len() <= text.len(),
        segments(text)[0] == text.take(segments(text)[0].len() as int),
        segments(text)[0].len() == 0 ==> text.len() == 0 || text[0] == 47u8,
    decreases text.len(),
{
    if text.len() == 0 {
        assert(text.take(0) =~= Seq::<u8>::empty());
    } else {
        let init = text.drop_last();
        let before = segments(init);
        assert(text[text.len() - 1] != byte);
        assert(!init.contains(byte)) by {
            if init.contains(byte) {
                let k = choose|k: int| 0 <= k < init.len() && init[k] == byte;
                assert(text[k] == byte);
            }
        }
        lemma_segments_hold_bytes_of_text(init, byte);
        let first = segments(text)[0];
        if text.last() == 47u8 || before.len() > 1 {
            assert(first == before[0]);
            assert(first =~= text.take(first.len() as int));
        } else {
            assert(first == before[0].push(text.last()));
            assert(before[0].len() == init.len()) by {
                lemma_one_segment(init);
            }
            assert(first =~= text.take(first.len() as int));
        }
        let all = segments(text);
        assert forall|i: int| 0 <= i < all.len() implies !(#[trigger] all[i]).contains(byte) by {
            if text.last() != 47u8 && i == all.len() - 1 {
                assert(!before[before.len() - 1].contains(byte));
                if all[i].contains(byte) {
                    let k = choose|k: int| 0 <= k < all[i].len() && all[i][k] == byte;
                    assert(k < before.last().len());
                    assert(before.last()[k] == byte);
                }
            } else if i < before.len() {
                assert(all[i] == before[i]);
            }
        }
    }
}

proof fn lemma_one_segment(text: Seq<u8>)
    ensures
        segments(text).len() > 0,
        segments(text).len() == 1 ==> segments(text)[0].len() == text.len(),
    decreases text.len(),
{
    if text.len() > 0 {
        lemma_one_segment(text.drop_last());
    }
}

proof fn lemma_kept_is_of_pieces(pieces: Seq<Seq<u8>>)
    ensures
        forall|i: int| 0 <= i < kept(pieces).len() ==> pieces.contains(#[trigger] kept(pieces)[i]),
        pieces.len() > 0 && pieces[0].len() > 0 ==> kept(pieces).len() > 0 && kept(pieces)[0] == pieces[0],
    decreases pieces.len(),
{
    if pieces.len() > 0 {
        let init = pieces.drop_last();
        lemma_kept_is_of_pieces(init);
        assert(pieces[pieces.len() - 1] == pieces.last());
        assert forall|i: int| 0 <= i < kept(pieces).len() implies pieces.contains(#[trigger] kept(pieces)[i]) by {
            if i < kept(init).len() {
                assert(init.contains(kept(init)[i]));
                let k = choose|k: int| 0 <= k < init.len() && init[k] == kept(init)[i];
                assert(pieces[k] == kept(pieces)[i]);
            }
        }
        if pieces.len() == 1 {
            assert(kept(init) =~= Seq::empty());
        }
    }
}

/// The components that a path text of Windows is read as hold no backslash, and a drive
/// stands below the root.
pub proof fn law_windows_formed(text: Seq<u8>)
    ensures
        windows_formed(windows_components(text)),
{
    let flat = slashed(drive_apart(text));
    let parts = windows_components(text);
    crate::path::lemma_components_well_formed(flat);
    assert(!flat.contains(92u8));
    let pieces = segments(flat);
    lemma_segments_hold_bytes_of_text(flat, 92u8);
    lemma_kept_is_of_pieces(pieces);
    assert(!root_name().contains(92u8));
    assert forall|i: int| 0 <= i < parts.len() implies !(#[trigger] parts[i]).contains(92u8) by {
        let lead: int = parts.len() - kept(pieces).len();
        if i >= lead {
            assert(parts[i] == kept(pieces)[i - lead]);
            assert(pieces.contains(parts[i]));
        }
    }
    if parts.len() > 0 && !(flat.len() > 0 && flat[0] == 47u8) {
        if pieces[0].len() > 0 {
            assert(parts[0] == pieces[0]);
            if has_drive(parts[0]) {
                assert(flat.take(pieces[0].len() as int)[0] == flat[0]);
                assert(flat.take(pieces[0].len() as int)[1] == flat[1]);
                assert(has_drive(flat));
                if has_drive(text) {
                    assert(flat[0] == 47u8);
                } else {
                    assert(text.len() == flat.len());
                    assert(text[0] == flat[0] && text[1] == flat[1]);
                }
            }
        } else {
            assert(flat.len() == 0);
            assert(pieces =~= seq![Seq::<u8>::empty()]);
            assert(pieces.drop_last() =~= Seq::<Seq<u8>>::empty());
            assert(kept(pieces) =~= Seq::<Seq<u8>>::empty());
        }
    }
}

proof fn lemma_render_begins(parts: Seq<Seq<u8>>, k: int)
    requires
        well_formed(parts),
        1 <= k <= parts.len(),
    ensures
        ({
            let head = render(parts.take(k));
            let text = render(parts);
            &&& head.len() > 0
            &&& text.len() >= head.len()
            &&& text.take(head.len() as int) == head
            &&& k < parts.len() && head.last() != 47u8 ==> text.len() > head.len() && text[head.len() as int] == 47u8
        }),
    decreases parts.len(),
{
    let head = render(parts.take(k));
    let text = render(parts);
    if k == parts.len() {
        assert(parts.take(k) =~= parts);
        assert(parts[k - 1] == parts.last());
        assert(parts.last().len() > 0);
        assert(text.take(head.len() as int) =~= head);
    } else {
        let init = parts.drop_last();
        assert(well_formed(init)) by {
            assert forall|i: int| 0 <= i < init.len() implies init[i] == #[trigger] parts[i] by {}
        }
        assert(init.take(k) =~= parts.take(k));
        lemma_render_begins(init, k);
        let base = render(init);
        let word = parts.last();
        assert(parts[parts.len() - 1] == word);
        assert(word[0] != 47u8) by {
            if word[0] == 47u8 {
                assert(word.contains(47u8));
            }
        }
        assert(text == push_text(base, word));
        assert(base.take(head.len() as int) == head);
        assert forall|i: int| 0 <= i < head.len() implies text[i] == head[i] by {
            assert(base.take(head.len() as int)[i] == base[i]);
        }
        assert(text.take(head.len() as int) =~= head);
        if head.last() != 47u8 {
            if k < init.len() {
                assert(base[head.len() as int] == 47u8);
                assert(text[head.len() as int] == 47u8);
            } else {
                assert(init.take(k) =~= init);
            }
        }
    }
}

proof fn lemma_render_not_empty(parts: Seq<Seq<u8>>)
    requires
        parts.len() > 0,
        parts[0].len() > 0,
    ensures
        render(parts).len() > 0,
    decreases parts.len(),
{
    if parts.len() > 1 {
        lemma_render_not_empty(parts.drop_last());
    }
}

proof fn lemma_render_holds_bytes_of_parts(parts: Seq<Seq<u8>>)
    requires
        forall|i: int| 0 <= i < parts.len() ==> !(#[trigger] parts[i]).contains(92u8),
    ensures
        !render(parts).contains(92u8),
    decreases parts.len(),
{
    if parts.len() > 0 {
        let init = parts.drop_last();
        let word = parts.last();
        assert(parts[parts.len() - 1] == word);
        assert forall|i: int| 0 <= i < init.len() implies !(#[trigger] init[i]).contains(92u8) by {
            assert(init[i] == parts[i]);
        }
        lemma_render_holds_bytes_of_parts(init);
        let base = render(init);
        let text = render(parts);
        if text.contains(92u8) {
            let k = choose|k: int| 0 <= k < text.len() && text[k] == 92u8;
            let lead: int = text.len() - word.len();
            if k >= lead {
                assert(word[k - lead] == 92u8);
            } else {
                assert(k < base.len());
                assert(base[k] == 92u8);
            }
        }
    }
}

/// Reading back the Windows text of a path gives its components.
pub proof fn law_windows_read_back(parts: Seq<Seq<u8>>)
    requires
        windows_formed(parts),
    ensures
        windows_components(windows_render(parts)) == parts,
{
    let whole = render(parts);
    let text = windows_render(parts);
    lemma_render_holds_bytes_of_parts(parts);
    law_components_of_render(parts);
    if parts.len() > 0 {
        lemma_render_begins(parts, 1);
        assert(parts.take(1).drop_last() =~= Seq::<Seq<u8>>::empty());
        assert(parts.take(1).last() == parts[0]);
        assert(render(Seq::<Seq<u8>>::empty()) =~= Seq::<u8>::empty());
        assert(Seq::<u8>::empty() + parts[0] =~= parts[0]);
        assert(render(parts.take(1)) == push_text(Seq::empty(), parts[0]));
        assert(whole.take(parts[0].len() as int)[0] == whole[0]);
    }
    if on_drive(parts) {
        lemma_render_begins(parts, 2);
        let two = parts.take(2);
        assert(two.drop_last() =~= parts.take(1));
        assert(two.last() == parts[1]);
        assert(parts[1][0] != 47u8);
        let head = render(two);
        assert(head =~= seq![47u8] + parts[1]);
        assert(whole.take(3)[0] == 47u8 && whole.take(3)[1] == parts[1][0] && whole.take(3)[2] == parts[1][1]);
        assert(has_drive(text));
        if parts.len() == 2 {
            assert(parts.take(2) =~= parts);
            assert(drive_apart(text) =~= whole.push(47u8));
            assert(!whole.push(47u8).contains(92u8)) by {
                if whole.push(47u8).contains(92u8) {
                    let k = choose|k: int| 0 <= k < whole.len() + 1 && whole.push(47u8)[k] == 92u8;
                    assert(whole[k] == 92u8);
                }
            }
            assert forall|i: int| 0 <= i < whole.len() + 1 implies #[trigger] whole.push(47u8)[i] != 92u8 by {
                assert(whole.push(47u8).contains(whole.push(47u8)[i]));
            }
            assert(slashed(drive_apart(text)) =~= whole.push(47u8));
            assert(whole.push(47u8).drop_last() =~= whole);
            let pieces = segments(whole);
            assert(pieces.push(Seq::empty()).drop_last() =~= pieces);
        } else {
            assert(whole[3] == 47u8);
            assert(text[2] == 47u8);
            assert(drive_apart(text) =~= whole);
            lemma_no_backslash(whole);
        }
    } else {
        assert(!has_drive(whole)) by {
            if has_drive(whole) {
                if parts[0].len() >= 2 {
                    assert(whole.take(parts[0].len() as int)[1] == whole[1]);
                    assert(has_drive(parts[0]));
                } else if parts.len() == 1 {
                    assert(parts.take(1) =~= parts);
                } else {
                    assert(parts[0].len() == 1);
                    if parts[0].last() == 47u8 {
                        assert(whole[0] == 47u8);
                    }
                }
            }
        }
        lemma_no_backslash(whole);
    }
}

proof fn lemma_no_backslash(text: Seq<u8>)
    requires
        !text.contains(92u8),
    ensures
        slashed(text) == text,
{
    assert forall|i: int| 0 <= i < text.len() implies #[trigger] text[i] != 92u8 by {
        assert(text.contains(text[i]));
    }
    assert(slashed(text) =~= text);
}

proof fn lemma_drive_free(parts: Seq<Seq<u8>>)
    ensures
        forall|i: int|
            0 <= i < drive_free(parts).len() ==> parts.contains(#[trigger] drive_free(parts)[i]) && !has_drive(
                drive_free(parts)[i],
            ),
        well_formed(parts) ==> well_formed(drive_free(parts)),
    decreases parts.len(),
{
    if parts.len() > 0 {
        let init = parts.drop_last();
        let names = drive_free(parts);
        lemma_drive_free(init);
        assert(parts[parts.len() - 1] == parts.last());
        assert forall|i: int| 0 <= i < names.len() implies parts.contains(#[trigger] names[i]) && !has_drive(
            names[i],
        ) by {
            if i < drive_free(init).len() {
                assert(init.contains(drive_free(init)[i]));
                let k = choose|k: int| 0 <= k < init.len() && init[k] == drive_free(init)[i];
                assert(parts[k] == names[i]);
            }
        }
    }
}

/// The names in a path hold no slash and no backslash, begin with no drive and are none
/// of the root, `.` and `..`.
pub proof fn law_windows_names(path: Seq<Seq<u8>>)
    ensures
        well_formed(windows_names(path)),
        forall|i: int|
            0 <= i < windows_names(path).len() ==> {
                &&& is_normal(#[trigger] windows_names(path)[i])
                &&& !windows_names(path)[i].contains(47u8)
                &&& !windows_names(path)[i].contains(92u8)
                &&& !has_drive(windows_names(path)[i])
            },
{
    let parts = windows_components(render(path));
    let normal = normal_parts(parts);
    law_windows_formed(render(path));
    crate::path::lemma_normal_parts(parts);
    lemma_normal_parts_of(parts);
    lemma_drive_free(normal);
    let names = windows_names(path);
    assert forall|i: int| 0 <= i < names.len() implies {
        &&& is_normal(#[trigger] names[i])
        &&& !names[i].contains(47u8)
        &&& !names[i].contains(92u8)
        &&& !has_drive(names[i])
    } by {
        assert(normal.contains(names[i]));
        let k = choose|k: int| 0 <= k < normal.len() && normal[k] == names[i];
        assert(is_normal(normal[k]));
        assert(parts.contains(normal[k]));
    }
}

proof fn lemma_normal_parts_of(parts: Seq<Seq<u8>>)
    ensures
        forall|i: int| 0 <= i < normal_parts(parts).len() ==> parts.contains(#[trigger] normal_parts(parts)[i]),
    decreases parts.len(),
{
    if parts.len() > 0 {
        let init = parts.drop_last();
        let names = normal_parts(parts);
        lemma_normal_parts_of(init);
        assert(parts[parts.len() - 1] == parts.last());
        assert forall|i: int| 0 <= i < names.len() implies parts.contains(#[trigger] names[i]) by {
            if i < normal_parts(init).len() {
                assert(init.contains(normal_parts(init)[i]));
                let k = choose|k: int| 0 <= k < init.len() && init[k] == normal_parts(init)[i];
                assert(parts[k] == names[i]);
            }
        }
    }
}

fn begins_with_drive(text: &[u8]) -> (drive: bool)
    ensures
        drive == has_drive(text@),
{
    text.len() >= 2 && (65 <= text[0] && text[0] <= 90 || 97 <= text[0] && text[0] <= 122) && text[1] == 58u8
}

impl TreePath {
    /// The components of a path text of Windows.
    pub fn from_windows_bytes(text: &[u8]) -> (path: TreePath)
        ensures
            path@ == windows_components(text@),
            windows_formed(path@),
    {
        let drive = begins_with_drive(text);
        let mut flat: Vec<u8> = Vec::new();
        if drive {
            flat.push(47u8);
        }
        let ghost apart = drive_apart(text@);
        let ghost goal = slashed(apart);
        let mut i: usize = 0;
        while i < text.len()
            invariant
                i <= text@.len(),
                drive == has_drive(text@),
                apart == drive_apart(text@),
                goal == slashed(apart),
                flat@.len() <= goal.len(),
                flat@ == goal.take(flat@.len() as int),
                drive && i <= 2 ==> flat@.len() == i + 1,
                i > 2 || !drive ==> goal.len() - flat@.len() == text@.len() - i,
            decreases text@.len() - i,
        {
            if drive && i == 2 && text[i] != 47u8 && text[i] != 92u8 {
                assert(goal[3] == 47u8);
                flat.push(47u8);
                assert(flat@ =~= goal.take(flat@.len() as int));
            }
            let ghost at = flat@.len() as int;
            let byte = if text[i] == 92u8 {
                47u8
            } else {
                text[i]
            };
            assert(byte == goal[at]);
            flat.push(byte);
            assert(flat@ =~= goal.take(flat@.len() as int));
            i = i + 1;
        }
        assert(flat@ =~= goal);
        proof {
            law_windows_formed(text@);
        }
        TreePath::from_bytes(flat.as_slice())
    }

    /// The path text of Windows.
    pub fn to_windows_bytes(&self) -> (text: Vec<u8>)
        ensures
            text@ == windows_render(self@),
    {
        let mut text = self.to_bytes();
        let n = self.len();
        if n >= 2 && self.part(0).len() == 1 && self.part(0)[0] == 47u8 && self.part(1).len() == 2
            && begins_with_drive(self.part(1).as_slice()) {
            assert(self@[0] =~= root_name());
            proof {
                lemma_render_not_empty(self@);
            }
            let ghost whole = text@;
            let _ = text.remove(0);
            assert(text@ =~= whole.skip(1));
            if n == 2 {
                text.push(47u8);
            }
        }
        text
    }

    /// The names in a path, as Windows reads it.
    pub fn windows_names(&self) -> (path: TreePath)
        ensures
            path@ == windows_names(self@),
            well_formed(path@),
    {
        let text = self.to_bytes();
        let normal = TreePath::from_windows_bytes(text.as_slice()).normal_only();
        let mut path = TreePath::new();
        let n = normal.len();
        let mut i: usize = 0;
        assert(normal@.take(0) =~= Seq::<Seq<u8>>::empty());
        while i < n
            invariant
                n == normal@.len(),
                i <= n,
                path@ == drive_free(normal@.take(i as int)),
            decreases n - i,
        {
            let part = normal.part(i);
            assert(normal@.take(i + 1).drop_last() =~= normal@.take(i as int));
            if !begins_with_drive(part.as_slice()) {
                path.push_part(crate::path::copy_bytes(part));
            }
            i = i + 1;
        }
        assert(normal@.take(n as int) =~= normal@);
        proof {
            law_windows_names(self@);
        }
        path
    }
}

/// Both slashes part a path text of Windows. One without a drive and without backslashes
/// has the components that it has elsewhere.
pub proof fn law_both_slashes_part(text: Seq<u8>)
    ensures
        windows_components(text) == windows_components(
            Seq::new(text.len(), |i: int| if text[i] == 92u8 { 47u8 } else { text[i] }),
        ),
        !text.contains(92u8) && !(text.len() >= 2 && text[1] == 58u8) ==> windows_components(text) == components(text),
{
    let flat = Seq::new(text.len(), |i: int| if text[i] == 92u8 { 47u8 } else { text[i] });
    assert(has_drive(flat) == has_drive(text));
    assert(slashed(drive_apart(flat)) =~= slashed(drive_apart(text)));
    if !text.contains(92u8) {
        lemma_no_backslash(text);
    }
}

/// A drive stands below the root, whatever slash follows it, and also where none does.
pub proof fn law_drives(letter: u8, name: Seq<u8>)
    requires
        65 <= letter <= 90 || 97 <= letter <= 122,
        name.len() > 0,
        !name.contains(47u8),
        !name.contains(92u8),
        name != seq![46u8],
    ensures
        windows_components(seq![letter, 58u8]) == seq![seq![47u8], seq![letter, 58u8]],
        windows_components(seq![letter, 58u8, 92u8] + name) == seq![seq![47u8], seq![letter, 58u8], name],
        windows_components(seq![letter, 58u8, 47u8] + name) == seq![seq![47u8], seq![letter, 58u8], name],
        windows_components(seq![letter, 58u8] + name) == seq![seq![47u8], seq![letter, 58u8], name],
{
    let drive = seq![letter, 58u8];
    let rooted = seq![47u8] + drive;
    let whole = rooted.push(47u8) + name;
    assert(!drive.contains(47u8));
    assert(drive != seq![46u8]) by {
        assert(drive.len() == 2 && seq![46u8].len() == 1);
    }
    law_slashes_part_names(rooted, drive);
    law_slashes_part_names(rooted, name);
    assert(components(rooted) =~= seq![seq![47u8], drive]);
    assert(components(whole) =~= seq![seq![47u8], drive, name]);
    assert forall|i: int| 0 <= i < name.len() implies #[trigger] name[i] != 92u8 && name[i] != 47u8 by {
        assert(name.contains(name[i]));
    }
    assert(slashed(drive_apart(drive)) =~= rooted);
    let back = seq![letter, 58u8, 92u8] + name;
    assert(slashed(drive_apart(back)) =~= whole);
    let fore = seq![letter, 58u8, 47u8] + name;
    assert(slashed(drive_apart(fore)) =~= whole);
    let none = drive + name;
    assert(none.take(2) =~= drive && none.skip(2) =~= name);
    assert(slashed(drive_apart(none)) =~= whole);
}

/// A path of plain names is read on Windows as it is.
pub proof fn law_plain_names_stay(path: Seq<Seq<u8>>)
    requires
        well_formed(path),
        forall|i: int|
            0 <= i < path.len() ==> is_normal(#[trigger] path[i]) && !path[i].contains(92u8) && !has_drive(path[i]),
    ensures
        windows_names(path) == path,
{
    if path.len() > 0 {
        assert(is_normal(path[0]));
    }
    law_windows_read_back(path);
    lemma_all_plain(path);
}

proof fn lemma_all_plain(path: Seq<Seq<u8>>)
    requires
        forall|i: int| 0 <= i < path.len() ==> is_normal(#[trigger] path[i]) && !has_drive(path[i]),
    ensures
        normal_parts(path) == path,
        drive_free(path) == path,
    decreases path.len(),
{
    if path.len() > 0 {
        let init = path.drop_last();
        assert forall|i: int| 0 <= i < init.len() implies is_normal(#[trigger] init[i]) && !has_drive(init[i]) by {
            assert(init[i] == path[i]);
        }
        lemma_all_plain(init);
        assert(is_normal(path[path.len() - 1]));
        assert(init.push(path.last()) =~= path);
    }
}

} // verus!
