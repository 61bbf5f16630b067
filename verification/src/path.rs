//! Paths as sequences of components.

use crate::text::lemma_encode_concat;
use vstd::prelude::*;

verus! {

/// The component that stands for the root directory, `/`.
pub open spec fn root_name() -> Seq<u8> {
    seq![47u8]
}

/// The component that stands for the current directory, `.`.
pub open spec fn current_name() -> Seq<u8> {
    seq![46u8]
}

/// The component that stands for the parent directory, `..`.
pub open spec fn parent_name() -> Seq<u8> {
    seq![46u8, 46u8]
}

/// The pieces between the slashes of a path text, empty pieces included.
pub open spec fn segments(text: Seq<u8>) -> Seq<Seq<u8>>
    decreases text.len(),
{
    if text.len() == 0 {
        seq![Seq::empty()]
    } else {
        let before = segments(text.drop_last());
        if text.last() == 47u8 {
            before.push(Seq::empty())
        } else {
            before.drop_last().push(before.last().push(text.last()))
        }
    }
}

/// Whether the piece at position `index` is a component of the path: empty
/// pieces are not, and `.` is one only where the text begins with it.
pub open spec fn is_kept(segment: Seq<u8>, index: int) -> bool {
    segment.len() > 0 && (segment != current_name() || index == 0)
}

/// The pieces that are components, in order.
pub open spec fn kept(pieces: Seq<Seq<u8>>) -> Seq<Seq<u8>>
    decreases pieces.len(),
{
    if pieces.len() == 0 {
        Seq::empty()
    } else if is_kept(pieces.last(), pieces.len() - 1) {
        kept(pieces.drop_last()).push(pieces.last())
    } else {
        kept(pieces.drop_last())
    }
}

/// The components of a path text: the root where the text begins with a slash,
/// then the pieces that are components.
pub open spec fn components(text: Seq<u8>) -> Seq<Seq<u8>> {
    if text.len() > 0 && text[0] == 47u8 {
        seq![root_name()] + kept(segments(text))
    } else {
        kept(segments(text))
    }
}

/// Whether a component list is one that some path text has: components hold no
/// slash and are not empty, the root stands only first, and so does `.`.
pub open spec fn well_formed(parts: Seq<Seq<u8>>) -> bool {
    forall|i: int|
        0 <= i < parts.len() ==> {
            &&& (#[trigger] parts[i]).len() > 0
            &&& parts[i] == root_name() || !parts[i].contains(47u8)
            &&& i > 0 ==> parts[i] != root_name() && parts[i] != current_name()
        }
}

/// A path, held as its components.
#[derive(Debug)]
pub struct TreePath {
    parts: Vec<Vec<u8>>,
}

impl View for TreePath {
    type V = Seq<Seq<u8>>;

    closed spec fn view(&self) -> Seq<Seq<u8>> {
        Seq::new(self.parts@.len(), |i: int| self.parts@[i]@)
    }
}

/// Whether two byte strings are equal.
pub(crate) fn same_bytes(a: &Vec<u8>, b: &Vec<u8>) -> (same: bool)
    ensures
        same == (a@ == b@),
{
    let same = a == b;
    assert(same ==> a@ =~= b@);
    same
}

impl TreePath {
    /// The path with no components.
    pub fn new() -> (path: TreePath)
        ensures
            path@ == Seq::<Seq<u8>>::empty(),
            well_formed(path@),
    {
        let path = TreePath { parts: Vec::new() };
        assert(path@ =~= Seq::<Seq<u8>>::empty());
        path
    }

    pub(crate) fn push_part(&mut self, part: Vec<u8>)
        ensures
            final(self)@ == old(self)@.push(part@),
    {
        self.parts.push(part);
        assert(self@ =~= old(self)@.push(part@));
    }

    /// The components of a path text.
    pub fn from_bytes(text: &[u8]) -> (path: TreePath)
        ensures
            path@ == components(text@),
            well_formed(path@),
    {
        let mut path = TreePath::new();
        if text.len() > 0 && text[0] == 47u8 {
            let mut root: Vec<u8> = Vec::new();
            root.push(47u8);
            assert(root@ =~= root_name());
            path.push_part(root);
        }
        let ghost lead = path@;
        let mut first: bool = true;
        let mut current: Vec<u8> = Vec::new();
        let ghost mut done: Seq<Seq<u8>> = Seq::empty();
        let mut i: usize = 0;
        assert(text@.take(0) =~= Seq::<u8>::empty());
        assert(done.push(current@) =~= segments(text@.take(0)));
        assert(path@ =~= lead + kept(done));
        while i < text.len()
            invariant
                i <= text.len(),
                segments(text@.take(i as int)) == done.push(current@),
                first == (done.len() == 0),
                path@ == lead + kept(done),
            decreases text.len() - i,
        {
            let byte = text[i];
            assert(text@.take(i + 1).drop_last() =~= text@.take(i as int));
            if byte == 47u8 {
                let keep = current.len() > 0 && (first || !(current.len() == 1 && current[0] == 46u8));
                proof {
                    if current@.len() == 1 && current@[0] == 46u8 {
                        assert(current@ =~= current_name());
                    }
                    assert(keep == is_kept(current@, done.len() as int));
                    assert(done.push(current@).drop_last() =~= done);
                    done = done.push(current@);
                    assert(done.push(Seq::empty()) =~= segments(text@.take(i + 1)));
                }
                if keep {
                    path.push_part(current);
                    assert(path@ =~= lead + kept(done));
                }
                current = Vec::new();
                assert(current@ =~= Seq::empty());
                first = false;
            } else {
                let ghost before = current@;
                current.push(byte);
                assert(done.push(before).drop_last() =~= done);
            }
            i = i + 1;
        }
        assert(text@.take(text@.len() as int) =~= text@);
        let keep = current.len() > 0 && (first || !(current.len() == 1 && current[0] == 46u8));
        proof {
            if current@.len() == 1 && current@[0] == 46u8 {
                assert(current@ =~= current_name());
            }
            assert(keep == is_kept(current@, done.len() as int));
            assert(done.push(current@).drop_last() =~= done);
        }
        if keep {
            path.push_part(current);
        }
        assert(path@ =~= components(text@));
        proof {
            lemma_components_well_formed(text@);
        }
        path
    }
}

/// The path text of `base` with `part` pushed onto it: an absolute part replaces
/// the text, any other is set off from it by one slash.
pub open spec fn push_text(base: Seq<u8>, part: Seq<u8>) -> Seq<u8> {
    if part.len() > 0 && part[0] == 47u8 {
        part
    } else if base.len() == 0 || base.last() == 47u8 {
        base + part
    } else {
        base.push(47u8) + part
    }
}

/// The path text that a component list stands for.
pub open spec fn render(parts: Seq<Seq<u8>>) -> Seq<u8>
    decreases parts.len(),
{
    if parts.len() == 0 {
        Seq::empty()
    } else {
        push_text(render(parts.drop_last()), parts.last())
    }
}

/// The components of a path with another joined onto it: an absolute path
/// replaces the first, and a leading `.` is dropped behind other components.
pub open spec fn joined(base: Seq<Seq<u8>>, tail: Seq<Seq<u8>>) -> Seq<Seq<u8>> {
    if base.len() == 0 || (tail.len() > 0 && tail[0] == root_name()) {
        tail
    } else if tail.len() > 0 && tail[0] == current_name() {
        base + tail.drop_first()
    } else {
        base + tail
    }
}

/// The components of the parent directory; the root and the empty path have none.
pub open spec fn parent_parts(parts: Seq<Seq<u8>>) -> Option<Seq<Seq<u8>>> {
    if parts.len() == 0 || parts.last() == root_name() {
        None
    } else {
        Some(parts.drop_last())
    }
}

/// Whether a component names an entry of a directory.
pub open spec fn is_normal(part: Seq<u8>) -> bool {
    part != root_name() && part != current_name() && part != parent_name()
}

/// The components that name an entry of a directory, in order.
pub open spec fn normal_parts(parts: Seq<Seq<u8>>) -> Seq<Seq<u8>>
    decreases parts.len(),
{
    if parts.len() == 0 {
        Seq::empty()
    } else if is_normal(parts.last()) {
        normal_parts(parts.drop_last()).push(parts.last())
    } else {
        normal_parts(parts.drop_last())
    }
}

impl Clone for TreePath {
    fn clone(&self) -> (copy: Self)
        ensures
            copy@ == self@,
    {
        let mut copy = TreePath::new();
        let mut i: usize = 0;
        while i < self.parts.len()
            invariant
                i <= self.parts.len(),
                copy@ == self@.take(i as int),
            decreases self.parts.len() - i,
        {
            copy.push_part(copy_bytes(&self.parts[i]));
            assert(copy@ =~= self@.take(i + 1));
            i = i + 1;
        }
        assert(self@.take(self@.len() as int) =~= self@);
        copy
    }
}

/// A copy of a byte string.
pub(crate) fn copy_bytes(bytes: &Vec<u8>) -> (copy: Vec<u8>)
    ensures
        copy@ == bytes@,
{
    let copy = bytes.clone();
    assert(copy@ =~= bytes@);
    copy
}

/// Whether `part` is the component of one or two given bytes.
fn is_dots(part: &Vec<u8>) -> (dots: bool)
    ensures
        dots == (part@ == current_name() || part@ == parent_name()),
{
    let dots = (part.len() == 1 && part[0] == 46u8) || (part.len() == 2 && part[0] == 46u8 && part[1] == 46u8);
    proof {
        if dots {
            if part@.len() == 1 {
                assert(part@ =~= current_name());
            } else {
                assert(part@ =~= parent_name());
            }
        }
    }
    dots
}

fn is_root(part: &Vec<u8>) -> (root: bool)
    ensures
        root == (part@ == root_name()),
{
    let root = part.len() == 1 && part[0] == 47u8;
    assert(root ==> part@ =~= root_name());
    root
}

impl TreePath {
    /// The number of components.
    pub fn len(&self) -> (n: usize)
        ensures
            n == self@.len(),
    {
        self.parts.len()
    }

    /// The component at position `i`.
    pub fn part(&self, i: usize) -> (part: &Vec<u8>)
        requires
            i < self@.len(),
        ensures
            part@ == self@[i as int],
    {
        &self.parts[i]
    }

    /// The path of a single component.
    pub(crate) fn single(part: &Vec<u8>) -> (path: TreePath)
        ensures
            path@ == seq![part@],
    {
        let mut path = TreePath::new();
        path.push_part(copy_bytes(part));
        assert(path@ =~= seq![part@]);
        path
    }

    /// The components of a path text.
    pub fn from_text(text: &str) -> (path: TreePath)
        ensures
            path@ == components(vstd::utf8::encode_utf8(text@)),
            well_formed(path@),
    {
        TreePath::from_bytes(text.as_bytes())
    }

    /// The path text.
    pub fn to_bytes(&self) -> (text: Vec<u8>)
        ensures
            text@ == render(self@),
    {
        let mut text: Vec<u8> = Vec::new();
        let mut i: usize = 0;
        assert(self@.take(0) =~= Seq::<Seq<u8>>::empty());
        while i < self.parts.len()
            invariant
                i <= self.parts.len(),
                text@ == render(self@.take(i as int)),
            decreases self.parts.len() - i,
        {
            let part = &self.parts[i];
            let ghost before = text@;
            assert(self@.take(i + 1).drop_last() =~= self@.take(i as int));
            assert(self@.take(i + 1).last() == part@);
            if part.len() > 0 && part[0] == 47u8 {
                text = copy_bytes(part);
            } else {
                if text.len() > 0 && text[text.len() - 1] != 47u8 {
                    text.push(47u8);
                }
                let mut rest = copy_bytes(part);
                text.append(&mut rest);
            }
            assert(text@ =~= push_text(before, part@));
            i = i + 1;
        }
        assert(self@.take(self@.len() as int) =~= self@);
        text
    }

    /// Whether two paths have the same components.
    pub fn same_as(&self, other: &TreePath) -> (same: bool)
        ensures
            same == (self@ == other@),
    {
        if self.parts.len() != other.parts.len() {
            assert(self@.len() != other@.len());
            return false;
        }
        let mut i: usize = 0;
        while i < self.parts.len()
            invariant
                self@.len() == other@.len(),
                i <= self.parts.len(),
                forall|j: int| 0 <= j < i ==> self@[j] == other@[j],
            decreases self.parts.len() - i,
        {
            if !same_bytes(&self.parts[i], &other.parts[i]) {
                assert(self@[i as int] != other@[i as int]);
                return false;
            }
            i = i + 1;
        }
        assert(self@ =~= other@);
        true
    }

    /// This path with `tail` joined onto it.
    pub fn join(&self, tail: &TreePath) -> (path: TreePath)
        ensures
            path@ == joined(self@, tail@),
            well_formed(self@) && well_formed(tail@) ==> well_formed(path@),
    {
        proof {
            lemma_joined_well_formed(self@, tail@);
        }
        if self.parts.len() == 0 || (tail.parts.len() > 0 && is_root(&tail.parts[0])) {
            return tail.clone();
        }
        let mut path = self.clone();
        let mut i: usize = 0;
        if tail.parts.len() > 0 && tail.parts[0].len() == 1 && tail.parts[0][0] == 46u8 {
            i = 1;
            assert(tail@[0] =~= current_name());
        } else {
            assert(tail@.len() > 0 ==> tail@[0] != current_name());
        }
        let ghost start = i as int;
        assert(path@ =~= self@ + tail@.subrange(start, i as int));
        while i < tail.parts.len()
            invariant
                0 <= start <= i <= tail.parts.len(),
                path@ == self@ + tail@.subrange(start, i as int),
            decreases tail.parts.len() - i,
        {
            path.push_part(copy_bytes(&tail.parts[i]));
            assert(path@ =~= self@ + tail@.subrange(start, i + 1));
            i = i + 1;
        }
        assert(path@ =~= joined(self@, tail@));
        path
    }

    /// Removes the last component, unless the path is the root or empty.
    pub fn pop(&mut self) -> (popped: bool)
        ensures
            popped == (parent_parts(old(self)@) is Some),
            final(self)@ == (match parent_parts(old(self)@) {
                Some(parent) => parent,
                None => old(self)@,
            }),
            well_formed(old(self)@) ==> well_formed(final(self)@),
    {
        let n = self.parts.len();
        if n == 0 || is_root(&self.parts[n - 1]) {
            return false;
        }
        let _ = self.parts.pop();
        assert(self@ =~= old(self)@.drop_last());
        true
    }

    /// The path without the components that are the root, `.` or `..`.
    pub fn normal_only(&self) -> (path: TreePath)
        ensures
            path@ == normal_parts(self@),
            well_formed(self@) ==> well_formed(path@),
    {
        let mut path = TreePath::new();
        let mut i: usize = 0;
        assert(self@.take(0) =~= Seq::<Seq<u8>>::empty());
        while i < self.parts.len()
            invariant
                i <= self.parts.len(),
                path@ == normal_parts(self@.take(i as int)),
            decreases self.parts.len() - i,
        {
            let part = &self.parts[i];
            assert(self@.take(i + 1).drop_last() =~= self@.take(i as int));
            if !is_root(part) && !is_dots(part) {
                path.push_part(copy_bytes(part));
            }
            i = i + 1;
        }
        assert(self@.take(self@.len() as int) =~= self@);
        proof {
            lemma_normal_parts(self@);
        }
        path
    }
}

pub(crate) proof fn lemma_joined_well_formed(base: Seq<Seq<u8>>, tail: Seq<Seq<u8>>)
    ensures
        well_formed(base) && well_formed(tail) ==> well_formed(joined(base, tail)),
{
}

pub(crate) proof fn lemma_normal_parts(parts: Seq<Seq<u8>>)
    ensures
        forall|i: int| 0 <= i < normal_parts(parts).len() ==> is_normal(#[trigger] normal_parts(parts)[i]),
        well_formed(parts) ==> well_formed(normal_parts(parts)),
    decreases parts.len(),
{
    if parts.len() > 0 {
        let before = normal_parts(parts.drop_last());
        lemma_normal_parts(parts.drop_last());
        assert forall|i: int| 0 <= i < normal_parts(parts).len() implies is_normal(
            #[trigger] normal_parts(parts)[i],
        ) by {
            if i < before.len() {
                assert(is_normal(before[i]));
            }
        }
    }
}

proof fn lemma_segments_free_of_slashes(text: Seq<u8>)
    ensures
        segments(text).len() > 0,
        forall|i: int| 0 <= i < segments(text).len() ==> !(#[trigger] segments(text)[i]).contains(47u8),
        text.len() > 0 && text[0] == 47u8 ==> segments(text).len() > 1 && segments(text)[0].len() == 0,
    decreases text.len(),
{
    if text.len() > 0 {
        lemma_segments_free_of_slashes(text.drop_last());
    }
}

proof fn lemma_kept_well_formed(pieces: Seq<Seq<u8>>)
    requires
        forall|i: int| 0 <= i < pieces.len() ==> !(#[trigger] pieces[i]).contains(47u8),
    ensures
        forall|i: int|
            0 <= i < kept(pieces).len() ==> {
                &&& (#[trigger] kept(pieces)[i]).len() > 0
                &&& !kept(pieces)[i].contains(47u8)
                &&& kept(pieces)[i] == current_name() ==> i == 0 && pieces[0] == current_name()
            },
        kept(pieces).len() <= pieces.len(),
    decreases pieces.len(),
{
    if pieces.len() > 0 {
        lemma_kept_well_formed(pieces.drop_last());
        if pieces.len() == 1 {
            assert(kept(pieces.drop_last()) =~= Seq::empty());
        }
    }
}

pub(crate) proof fn lemma_components_well_formed(text: Seq<u8>)
    ensures
        well_formed(components(text)),
{
    lemma_segments_free_of_slashes(text);
    lemma_kept_well_formed(segments(text));
    let parts = components(text);
    assert(root_name().contains(47u8)) by {
        assert(root_name()[0] == 47u8);
    }
    assert forall|i: int| 0 <= i < parts.len() implies {
        &&& (#[trigger] parts[i]).len() > 0
        &&& parts[i] == root_name() || !parts[i].contains(47u8)
        &&& i > 0 ==> parts[i] != root_name() && parts[i] != current_name()
    } by {
        if text.len() > 0 && text[0] == 47u8 {
            if i > 0 {
                assert(parts[i] == kept(segments(text))[i - 1]);
                assert(segments(text)[0] != current_name());
            }
        }
    }
}

proof fn lemma_segments_extend(text: Seq<u8>, word: Seq<u8>)
    requires
        !word.contains(47u8),
    ensures
        segments(text).len() > 0,
        segments(text + word) == segments(text).drop_last().push(segments(text).last() + word),
    decreases word.len(),
{
    lemma_segments_free_of_slashes(text);
    if word.len() == 0 {
        assert(text + word =~= text);
        assert(segments(text).last() + word =~= segments(text).last());
        assert(segments(text).drop_last().push(segments(text).last()) =~= segments(text));
    } else {
        let init = word.drop_last();
        assert(!init.contains(47u8)) by {
            if init.contains(47u8) {
                let k = choose|k: int| 0 <= k < init.len() && init[k] == 47u8;
                assert(word[k] == 47u8);
            }
        }
        lemma_segments_extend(text, init);
        assert((text + word).drop_last() =~= text + init);
        assert(word.last() != 47u8) by {
            assert(word[word.len() - 1] == word.last());
        }
        let before = segments(text + init);
        assert(before.drop_last() =~= segments(text).drop_last());
        assert(before.last().push(word.last()) =~= segments(text).last() + word);
    }
}

/// Reading back the text of a path gives its components.
pub proof fn law_components_of_render(parts: Seq<Seq<u8>>)
    requires
        well_formed(parts),
    ensures
        components(render(parts)) == parts,
    decreases parts.len(),
{
    if parts.len() == 0 {
        assert(segments(Seq::<u8>::empty()) =~= seq![Seq::<u8>::empty()]);
        assert(seq![Seq::<u8>::empty()].drop_last() =~= Seq::<Seq<u8>>::empty());
        assert(kept(Seq::<Seq<u8>>::empty()) =~= Seq::<Seq<u8>>::empty());
        assert(kept(seq![Seq::<u8>::empty()]) =~= Seq::<Seq<u8>>::empty());
    } else {
        let init = parts.drop_last();
        let word = parts.last();
        let base = render(init);
        assert(parts[parts.len() - 1] == word);
        assert(well_formed(init)) by {
            assert forall|i: int| 0 <= i < init.len() implies init[i] == #[trigger] parts[i] by {}
        }
        law_components_of_render(init);
        let text = render(parts);
        let none = Seq::<Seq<u8>>::empty();
        if word == root_name() {
            assert(parts.len() == 1);
            assert(text =~= root_name());
            let blank = Seq::<u8>::empty();
            assert(text.drop_last() =~= blank);
            assert(segments(blank) =~= seq![blank]);
            assert(segments(text) =~= seq![blank, blank]);
            assert(seq![blank].drop_last() =~= none);
            assert(kept(none) =~= none);
            assert(kept(seq![blank]) =~= none);
            assert(seq![blank, blank].drop_last() =~= seq![blank]);
            assert(kept(segments(text)) =~= none);
            assert(components(text) =~= parts);
        } else {
            assert(word[0] != 47u8) by {
                assert(word.contains(word[0]));
            }
            let lead = if base.len() == 0 || base.last() == 47u8 {
                base
            } else {
                base.push(47u8)
            };
            assert(text =~= lead + word);
            lemma_segments_extend(lead, word);
            let pieces = segments(lead);
            assert(pieces.last() == Seq::<u8>::empty() && (lead.len() > 0 ==> pieces.len() > 1)) by {
                if lead.len() > 0 {
                    lemma_segments_free_of_slashes(lead.drop_last());
                }
            }
            assert(pieces.last() + word =~= word);
            assert(segments(text) == pieces.drop_last().push(word));
            assert(segments(text).drop_last() =~= pieces.drop_last());
            assert(kept(pieces) == kept(pieces.drop_last()));
            if base.len() == 0 {
                if init.len() > 0 {
                    lemma_render_not_empty(init);
                }
                assert(init =~= none);
                assert(text =~= word);
                assert(pieces.drop_last() =~= none);
                assert(components(text) =~= parts);
            } else {
                if base.last() != 47u8 {
                    assert(lead.drop_last() =~= base);
                    assert(pieces.drop_last() =~= segments(base));
                }
                assert(kept(pieces.drop_last()) == kept(segments(base)));
                assert(kept(segments(text)) == kept(segments(base)).push(word)) by {
                    assert(parts.len() > 1) by {
                        assert(init.len() > 0);
                    }
                }
                assert(text[0] == base[0]);
                assert(components(text) =~= components(base).push(word));
                assert(init.push(word) =~= parts);
            }
        }
    }
}

proof fn lemma_render_not_empty(parts: Seq<Seq<u8>>)
    requires
        well_formed(parts),
        parts.len() > 0,
    ensures
        render(parts).len() > 0,
{
    assert(parts[parts.len() - 1] == parts.last());
}


/// Whether one byte string stands before another in a dictionary, or is it.
pub open spec fn bytes_le(a: Seq<u8>, b: Seq<u8>) -> bool
    decreases a.len(),
{
    if a.len() == 0 {
        true
    } else if b.len() == 0 {
        false
    } else if a[0] == b[0] {
        bytes_le(a.drop_first(), b.drop_first())
    } else {
        a[0] < b[0]
    }
}

/// The place of a kind of component: the root, `.`, `..`, names.
pub open spec fn rank(part: Seq<u8>) -> nat {
    if part == root_name() {
        0
    } else if part == current_name() {
        1
    } else if part == parent_name() {
        2
    } else {
        3
    }
}

/// The order of components: by kind, then by their bytes.
pub open spec fn part_le(a: Seq<u8>, b: Seq<u8>) -> bool {
    if rank(a) == rank(b) {
        bytes_le(a, b)
    } else {
        rank(a) < rank(b)
    }
}

/// The order of paths: by the first component in which they differ.
pub open spec fn path_le(a: Seq<Seq<u8>>, b: Seq<Seq<u8>>) -> bool
    decreases a.len(),
{
    if a.len() == 0 {
        true
    } else if b.len() == 0 {
        false
    } else if a[0] == b[0] {
        path_le(a.drop_first(), b.drop_first())
    } else {
        part_le(a[0], b[0])
    }
}

proof fn lemma_bytes_le_pair(a: Seq<u8>, b: Seq<u8>)
    ensures
        bytes_le(a, b) || bytes_le(b, a),
        bytes_le(a, b) && bytes_le(b, a) ==> a == b,
    decreases a.len(),
{
    if a.len() > 0 && b.len() > 0 && a[0] == b[0] {
        lemma_bytes_le_pair(a.drop_first(), b.drop_first());
        assert(a =~= seq![a[0]] + a.drop_first());
        assert(b =~= seq![b[0]] + b.drop_first());
    } else if a.len() == 0 && b.len() == 0 {
        assert(a =~= b);
    }
}

proof fn lemma_bytes_le_trans(a: Seq<u8>, b: Seq<u8>, c: Seq<u8>)
    requires
        bytes_le(a, b),
        bytes_le(b, c),
    ensures
        bytes_le(a, c),
    decreases a.len(),
{
    if a.len() > 0 && b.len() > 0 && c.len() > 0 && a[0] == b[0] && b[0] == c[0] {
        lemma_bytes_le_trans(a.drop_first(), b.drop_first(), c.drop_first());
    }
}

proof fn lemma_part_le_pair(a: Seq<u8>, b: Seq<u8>)
    ensures
        part_le(a, b) || part_le(b, a),
        part_le(a, b) && part_le(b, a) ==> a == b,
{
    lemma_bytes_le_pair(a, b);
}

proof fn lemma_part_le_trans(a: Seq<u8>, b: Seq<u8>, c: Seq<u8>)
    requires
        part_le(a, b),
        part_le(b, c),
    ensures
        part_le(a, c),
{
    if bytes_le(a, b) && bytes_le(b, c) {
        lemma_bytes_le_trans(a, b, c);
    }
}

/// Any two paths are ordered, and only one path is both before and behind another.
pub proof fn law_path_order_pair(a: Seq<Seq<u8>>, b: Seq<Seq<u8>>)
    ensures
        path_le(a, b) || path_le(b, a),
        path_le(a, b) && path_le(b, a) ==> a == b,
        a == b ==> path_le(a, b),
    decreases a.len(),
{
    if a.len() > 0 && b.len() > 0 {
        if a[0] == b[0] {
            law_path_order_pair(a.drop_first(), b.drop_first());
            assert(a =~= seq![a[0]] + a.drop_first());
            assert(b =~= seq![b[0]] + b.drop_first());
        } else {
            lemma_part_le_pair(a[0], b[0]);
        }
    } else if a.len() == 0 && b.len() == 0 {
        assert(a =~= b);
    }
}

/// The order of paths is transitive.
pub proof fn law_path_order_transitive(a: Seq<Seq<u8>>, b: Seq<Seq<u8>>, c: Seq<Seq<u8>>)
    requires
        path_le(a, b),
        path_le(b, c),
    ensures
        path_le(a, c),
    decreases a.len(),
{
    if a.len() > 0 && b.len() > 0 && c.len() > 0 {
        if a[0] == b[0] && b[0] == c[0] {
            law_path_order_transitive(a.drop_first(), b.drop_first(), c.drop_first());
        } else if a[0] != b[0] && b[0] != c[0] {
            lemma_part_le_trans(a[0], b[0], c[0]);
            lemma_part_le_pair(a[0], b[0]);
        }
    }
}

fn bytes_in_order(a: &Vec<u8>, b: &Vec<u8>) -> (le: bool)
    ensures
        le == bytes_le(a@, b@),
{
    let mut i: usize = 0;
    assert(a@.skip(0) =~= a@);
    assert(b@.skip(0) =~= b@);
    while i < a.len() && i < b.len()
        invariant
            i <= a.len(),
            i <= b.len(),
            bytes_le(a@, b@) == bytes_le(a@.skip(i as int), b@.skip(i as int)),
        decreases a.len() - i,
    {
        assert(a@.skip(i as int).drop_first() =~= a@.skip(i + 1));
        assert(b@.skip(i as int).drop_first() =~= b@.skip(i + 1));
        if a[i] != b[i] {
            return a[i] < b[i];
        }
        i = i + 1;
    }
    i == a.len()
}

fn rank_of(part: &Vec<u8>) -> (r: u8)
    ensures
        r == rank(part@),
{
    if is_root(part) {
        0
    } else if is_dots(part) {
        if part.len() == 1 {
            assert(part@ != parent_name());
            1
        } else {
            assert(part@ != current_name());
            2
        }
    } else {
        3
    }
}

impl TreePath {
    /// Whether this path stands before another one in the order of paths, or is it.
    pub fn is_before(&self, other: &TreePath) -> (le: bool)
        ensures
            le == path_le(self@, other@),
    {
        let mut i: usize = 0;
        assert(self@.skip(0) =~= self@);
        assert(other@.skip(0) =~= other@);
        while i < self.parts.len() && i < other.parts.len()
            invariant
                i <= self@.len(),
                i <= other@.len(),
                path_le(self@, other@) == path_le(self@.skip(i as int), other@.skip(i as int)),
            decreases self@.len() - i,
        {
            let a = &self.parts[i];
            let b = &other.parts[i];
            assert(self@.skip(i as int).drop_first() =~= self@.skip(i + 1));
            assert(other@.skip(i as int).drop_first() =~= other@.skip(i + 1));
            assert(self@.skip(i as int)[0] == a@ && other@.skip(i as int)[0] == b@);
            if !same_bytes(a, b) {
                let left: u8 = rank_of(a);
                let right: u8 = rank_of(b);
                if left == right {
                    return bytes_in_order(a, b);
                }
                return left < right;
            }
            i = i + 1;
        }
        i == self.parts.len()
    }
}


/// The position of the last point in a name, where it has one.
pub open spec fn last_point(name: Seq<u8>) -> Option<int>
    decreases name.len(),
{
    if name.len() == 0 {
        None
    } else if name.last() == 46u8 {
        Some(name.len() - 1)
    } else {
        last_point(name.drop_last())
    }
}

/// A name without its extension. A point in the first place begins no extension.
pub open spec fn stem(name: Seq<u8>) -> Seq<u8> {
    match last_point(name) {
        Some(at) => if at > 0 {
            name.take(at)
        } else {
            name
        },
        None => name,
    }
}

/// A path with the extension of its last name replaced; one that ends in no name is
/// left as it is.
pub open spec fn with_extension(parts: Seq<Seq<u8>>, extension: Seq<u8>) -> Seq<Seq<u8>> {
    if parts.len() == 0 || !is_normal(parts.last()) {
        parts
    } else {
        parts.drop_last().push(stem(parts.last()).push(46u8) + extension)
    }
}

proof fn lemma_last_point(name: Seq<u8>, at: int)
    requires
        0 <= at <= name.len(),
        forall|j: int| at <= j < name.len() ==> name[j] != 46u8,
        at > 0 ==> name[at - 1] == 46u8,
    ensures
        last_point(name) == (if at > 0 {
            Some(at - 1)
        } else {
            None
        }),
    decreases name.len(),
{
    if at < name.len() {
        lemma_last_point(name.drop_last(), at);
    }
}

impl TreePath {
    /// This path with the extension of its last name replaced.
    pub fn with_extension(&self, extension: &str) -> (path: TreePath)
        ensures
            path@ == with_extension(self@, vstd::utf8::encode_utf8(extension@)),
    {
        let mut path = self.clone();
        let n = path.parts.len();
        if n == 0 || is_root(&path.parts[n - 1]) || is_dots(&path.parts[n - 1]) {
            return path;
        }
        let ghost before = path@;
        let mut name: Vec<u8> = copy_bytes(&path.parts[n - 1]);
        let ghost last = name@;
        let mut at: usize = name.len();
        while at > 0 && name[at - 1] != 46u8
            invariant
                at <= name.len(),
                forall|j: int| at <= j < name.len() ==> name@[j] != 46u8,
            decreases at,
        {
            at = at - 1;
        }
        proof {
            lemma_last_point(last, at as int);
        }
        if at > 1 {
            name.truncate(at - 1);
            assert(name@ =~= last.take(at - 1));
        }
        assert(name@ == stem(last));
        name.push(46u8);
        let mut rest: Vec<u8> = Vec::new();
        rest.extend_from_slice(extension.as_bytes());
        assert(rest@ =~= vstd::utf8::encode_utf8(extension@));
        name.append(&mut rest);
        let _ = path.parts.pop();
        let ghost shorter = path@;
        assert(shorter =~= before.drop_last());
        path.push_part(name);
        assert(path@ =~= with_extension(self@, vstd::utf8::encode_utf8(extension@)));
        path
    }
}


/// A path text that ends in neither a slash nor a point has a last component, which
/// ends as the text does.
pub(crate) proof fn lemma_last_component(text: Seq<u8>)
    requires
        text.len() > 0,
        text.last() != 47u8,
        text.last() != 46u8,
    ensures
        components(text).len() > 0,
        components(text).last().len() > 0,
        components(text).last().last() == text.last(),
        is_normal(components(text).last()),
{
    let pieces = segments(text);
    lemma_segments_free_of_slashes(text.drop_last());
    assert(pieces.last().last() == text.last());
    assert(kept(pieces).last() == pieces.last());
    let name = components(text).last();
    assert(name.last() == text.last());
    assert(root_name().last() == 47u8 && current_name().last() == 46u8 && parent_name().last() == 46u8);
}


impl TreePath {
    /// This path with a name behind it.
    pub(crate) fn with_name(&self, name: &str) -> (path: TreePath)
        ensures
            path@ == self@.push(vstd::utf8::encode_utf8(name@)),
    {
        let mut path = self.clone();
        let mut part: Vec<u8> = Vec::new();
        part.extend_from_slice(name.as_bytes());
        assert(part@ =~= vstd::utf8::encode_utf8(name@));
        path.push_part(part);
        path
    }

    /// This path with text behind its last name.
    pub(crate) fn with_suffix(&self, suffix: &str) -> (path: TreePath)
        requires
            self@.len() > 0,
        ensures
            path@ == self@.drop_last().push(self@.last() + vstd::utf8::encode_utf8(suffix@)),
    {
        let mut path = self.clone();
        let n = path.parts.len();
        let mut name = copy_bytes(&path.parts[n - 1]);
        name.extend_from_slice(suffix.as_bytes());
        assert(name@ =~= self@.last() + vstd::utf8::encode_utf8(suffix@));
        let _ = path.parts.pop();
        assert(path@ =~= self@.drop_last());
        path.push_part(name);
        path
    }
}


/// Whether a path stands strictly below another one.
pub open spec fn is_below(path: Seq<Seq<u8>>, root: Seq<Seq<u8>>) -> bool {
    root.len() < path.len() && path.take(root.len() as int) == root
}

/// A path seen from `root`, where it stands below it; any other is left as it is.
pub open spec fn relative_to(path: Seq<Seq<u8>>, root: Seq<Seq<u8>>) -> Seq<Seq<u8>> {
    if is_below(path, root) {
        path.skip(root.len() as int)
    } else {
        path
    }
}

/// A path seen from a directory that it stands below leads there from the directory,
/// and does not begin at the root.
pub proof fn law_relative_leads_back(path: Seq<Seq<u8>>, root: Seq<Seq<u8>>)
    requires
        well_formed(path),
        is_below(path, root),
    ensures
        joined(root, relative_to(path, root)) == path,
        root.len() > 0 ==> relative_to(path, root)[0] != root_name(),
{
    let rest = relative_to(path, root);
    assert(rest[0] == path[root.len() as int]);
    assert(root + rest =~= path);
    if root.len() == 0 {
        assert(rest =~= path);
    }
}

impl TreePath {
    /// This path seen from a directory, where it stands below it.
    pub fn relative_to(&self, root: &TreePath) -> (path: TreePath)
        ensures
            path@ == relative_to(self@, root@),
            well_formed(self@) ==> well_formed(path@),
    {
        let n = root.parts.len();
        if self.parts.len() <= n {
            return self.clone();
        }
        let mut i: usize = 0;
        while i < n
            invariant
                n == root@.len(),
                n < self@.len(),
                i <= n,
                forall|j: int| 0 <= j < i ==> self@[j] == root@[j],
            decreases n - i,
        {
            if !same_bytes(&self.parts[i], &root.parts[i]) {
                assert(self@.take(n as int)[i as int] != root@[i as int]);
                return self.clone();
            }
            i = i + 1;
        }
        assert(self@.take(n as int) =~= root@);
        let mut path = TreePath::new();
        assert(path@ =~= self@.subrange(n as int, n as int));
        while i < self.parts.len()
            invariant
                n <= i <= self@.len(),
                path@ == self@.subrange(n as int, i as int),
            decreases self@.len() - i,
        {
            path.push_part(copy_bytes(&self.parts[i]));
            assert(path@ =~= self@.subrange(n as int, i + 1));
            i = i + 1;
        }
        assert(path@ =~= self@.skip(n as int));
        proof {
            if well_formed(self@) {
                assert forall|j: int| 0 <= j < path@.len() implies {
                    &&& (#[trigger] path@[j]).len() > 0
                    &&& path@[j] == root_name() || !path@[j].contains(47u8)
                    &&& j > 0 ==> path@[j] != root_name() && path@[j] != current_name()
                } by {
                    assert(path@[j] == self@[n + j]);
                }
            }
        }
        path
    }
}


proof fn lemma_encode_one(c: char)
    ensures
        vstd::utf8::encode_utf8(seq![c]) == vstd::utf8::encode_scalar(c as u32),
        c == '/' ==> vstd::utf8::encode_utf8(seq![c]) == seq![47u8],
{
    let one = seq![c];
    let none = one.drop_first();
    assert(none.len() == 0);
    assert(vstd::utf8::encode_utf8(none).len() == 0);
    assert(one[0] == c);
    assert(vstd::utf8::encode_utf8(one) =~= vstd::utf8::encode_scalar(c as u32));
    if c == '/' {
        let v = c as u32;
        assert(v == 47u32);
        assert((47u32 & 0x7F) as u8 == 47u8) by (bit_vector);
        assert(vstd::utf8::encode_scalar(v) =~= seq![47u8]);
    }
}

proof fn lemma_char_without_slash(c: char)
    requires
        c != '/',
    ensures
        !vstd::utf8::encode_utf8(seq![c]).contains(47u8),
{
    let v = c as u32;
    lemma_encode_one(c);
    assert(v <= 0x7F && v != 47 ==> (v & 0x7F) as u8 != 47u8) by (bit_vector);
    assert(0xC0u8 | ((v >> 6) & 0x1F) as u8 != 47u8) by (bit_vector);
    assert(0xE0u8 | ((v >> 12) & 0x0F) as u8 != 47u8) by (bit_vector);
    assert(0xF0u8 | ((v >> 18) & 0x7) as u8 != 47u8) by (bit_vector);
    assert(0x80u8 | (v & 0x3F) as u8 != 47u8) by (bit_vector);
    assert(0x80u8 | ((v >> 6) & 0x3F) as u8 != 47u8) by (bit_vector);
    assert(0x80u8 | ((v >> 12) & 0x3F) as u8 != 47u8) by (bit_vector);
}

proof fn lemma_segments_utf8(chars: Seq<char>)
    ensures
        segments(vstd::utf8::encode_utf8(chars)).len() > 0,
        forall|i: int|
            0 <= i < segments(vstd::utf8::encode_utf8(chars)).len() ==> vstd::utf8::valid_utf8(
                #[trigger] segments(vstd::utf8::encode_utf8(chars))[i],
            ),
    decreases chars.len(),
{
    if chars.len() > 0 {
        let init = chars.drop_last();
        let c = chars.last();
        let before = vstd::utf8::encode_utf8(init);
        let word = vstd::utf8::encode_utf8(seq![c]);
        lemma_segments_utf8(init);
        assert(init + seq![c] =~= chars);
        lemma_encode_concat(init, seq![c]);
        if c == '/' {
            lemma_encode_one(c);
            let text = before + word;
            assert(text.drop_last() =~= before);
        } else {
            lemma_char_without_slash(c);
            lemma_segments_extend(before, word);
            vstd::utf8::encode_utf8_valid_utf8(seq![c]);
            let last = segments(before).last();
            assert(last == segments(before)[segments(before).len() - 1]);
            vstd::utf8::valid_utf8_concat(last, word);
        }
    }
}

proof fn lemma_kept_utf8(pieces: Seq<Seq<u8>>)
    requires
        forall|i: int| 0 <= i < pieces.len() ==> vstd::utf8::valid_utf8(#[trigger] pieces[i]),
    ensures
        forall|i: int| 0 <= i < kept(pieces).len() ==> vstd::utf8::valid_utf8(#[trigger] kept(pieces)[i]),
    decreases pieces.len(),
{
    if pieces.len() > 0 {
        let init = pieces.drop_last();
        assert forall|i: int| 0 <= i < init.len() implies vstd::utf8::valid_utf8(#[trigger] init[i]) by {
            assert(init[i] == pieces[i]);
        }
        lemma_kept_utf8(init);
        assert(pieces.last() == pieces[pieces.len() - 1]);
        assert forall|i: int| 0 <= i < kept(pieces).len() implies vstd::utf8::valid_utf8(#[trigger] kept(pieces)[i]) by {
            if i < kept(init).len() {
                assert(kept(pieces)[i] == kept(init)[i]);
            }
        }
    }
}

pub(crate) proof fn lemma_slash_utf8()
    ensures
        vstd::utf8::valid_utf8(seq![47u8]),
{
    lemma_encode_one('/');
    vstd::utf8::encode_utf8_valid_utf8(seq!['/']);
}

proof fn lemma_render_utf8(parts: Seq<Seq<u8>>)
    requires
        forall|i: int| 0 <= i < parts.len() ==> vstd::utf8::valid_utf8(#[trigger] parts[i]),
    ensures
        vstd::utf8::valid_utf8(render(parts)),
    decreases parts.len(),
{
    if parts.len() > 0 {
        lemma_render_utf8(parts.drop_last());
        let base = render(parts.drop_last());
        let part = parts.last();
        assert(part == parts[parts.len() - 1]);
        lemma_slash_utf8();
        assert(base.push(47u8) =~= base + seq![47u8]);
        vstd::utf8::valid_utf8_concat(base, seq![47u8]);
        vstd::utf8::valid_utf8_concat(base, part);
        vstd::utf8::valid_utf8_concat(base.push(47u8), part);
    }
}

/// The path that a text stands for has a text that is UTF-8.
pub(crate) proof fn lemma_components_utf8(chars: Seq<char>)
    ensures
        vstd::utf8::valid_utf8(render(components(vstd::utf8::encode_utf8(chars)))),
{
    let text = vstd::utf8::encode_utf8(chars);
    lemma_segments_utf8(chars);
    lemma_kept_utf8(segments(text));
    lemma_slash_utf8();
    let parts = components(text);
    assert forall|i: int| 0 <= i < parts.len() implies vstd::utf8::valid_utf8(#[trigger] parts[i]) by {
        if text.len() > 0 && text[0] == 47u8 && i > 0 {
            assert(parts[i] == kept(segments(text))[i - 1]);
        }
    }
    lemma_render_utf8(parts);
}

/// A text without a slash has no byte that is one.
pub(crate) proof fn lemma_text_without_slash(chars: Seq<char>)
    requires
        !chars.contains('/'),
    ensures
        !vstd::utf8::encode_utf8(chars).contains(47u8),
    decreases chars.len(),
{
    if chars.len() > 0 {
        let init = chars.drop_last();
        let c = chars.last();
        assert(chars.contains(chars[chars.len() - 1]));
        assert(!init.contains('/')) by {
            if init.contains('/') {
                let k = choose|k: int| 0 <= k < init.len() && init[k] == '/';
                assert(chars[k] == '/');
            }
        }
        lemma_text_without_slash(init);
        lemma_char_without_slash(c);
        assert(init + seq![c] =~= chars);
        lemma_encode_concat(init, seq![c]);
        let before = vstd::utf8::encode_utf8(init);
        let word = vstd::utf8::encode_utf8(seq![c]);
        let text = before + word;
        if text.contains(47u8) {
            let k = choose|k: int| 0 <= k < text.len() && text[k] == 47u8;
            if k < before.len() {
                assert(before[k] == 47u8);
            } else {
                assert(word[k - before.len()] == 47u8);
            }
        }
    }
}

/// A text without a slash that is not empty is one component.
pub(crate) proof fn lemma_one_component(text: Seq<u8>)
    requires
        text.len() > 0,
        !text.contains(47u8),
    ensures
        components(text) == seq![text],
{
    let none = Seq::<u8>::empty();
    lemma_segments_extend(none, text);
    assert(none + text =~= text);
    assert(segments(none) =~= seq![none]);
    let pieces = segments(text);
    assert(pieces =~= seq![text]);
    assert(pieces.drop_last() =~= Seq::<Seq<u8>>::empty());
    assert(kept(Seq::<Seq<u8>>::empty()) =~= Seq::<Seq<u8>>::empty());
    assert(kept(pieces) =~= seq![text]);
    assert(text[0] != 47u8) by {
        assert(text.contains(text[0]));
    }
}

/// The names in a path are its components but for the root, `.` and `..`, in their order.
pub proof fn law_names_of_a_path(a: Seq<Seq<u8>>, b: Seq<Seq<u8>>, part: Seq<u8>)
    ensures
        normal_parts(a + b) == normal_parts(a) + normal_parts(b),
        normal_parts(seq![part]) == (if part == seq![47u8] || part == seq![46u8] || part == seq![46u8, 46u8] {
            Seq::<Seq<u8>>::empty()
        } else {
            seq![part]
        }),
    decreases b.len(),
{
    if b.len() == 0 {
        assert(a + b =~= a);
        assert(normal_parts(a) + normal_parts(b) =~= normal_parts(a));
        let one = seq![part];
        let none = one.drop_last();
        assert(none.len() == 0 && normal_parts(none) =~= Seq::empty());
        assert(one.last() == part);
        assert(Seq::<Seq<u8>>::empty().push(part) =~= one);
    } else {
        assert((a + b).drop_last() =~= a + b.drop_last());
        law_names_of_a_path(a, b.drop_last(), part);
        if is_normal(b.last()) {
            assert(normal_parts(a) + normal_parts(b.drop_last()).push(b.last()) =~= (normal_parts(a) + normal_parts(
                b.drop_last(),
            )).push(b.last()));
        }
    }
}

/// A path below another one is read from there on: what is left of it, put behind the
/// other, is that path again. Any other path is left as it is.
pub proof fn law_relative_path(path: Seq<Seq<u8>>, root: Seq<Seq<u8>>, rest: Seq<Seq<u8>>)
    ensures
        rest.len() > 0 ==> relative_to(root + rest, root) == rest,
        (forall|tail: Seq<Seq<u8>>| tail.len() > 0 ==> path != #[trigger] (root + tail)) ==> relative_to(path, root)
            == path,
{
    if rest.len() > 0 {
        assert((root + rest).take(root.len() as int) =~= root);
        assert((root + rest).skip(root.len() as int) =~= rest);
    }
    if is_below(path, root) {
        let tail = path.skip(root.len() as int);
        assert(root + tail =~= path);
    }
}

/// A relative path that is joined onto another one comes behind it, but for a `.` that it
/// begins with; one that begins at the root takes its place.
pub proof fn law_joined(base: Seq<Seq<u8>>, tail: Seq<Seq<u8>>)
    requires
        base.len() > 0,
    ensures
        tail.len() == 0 ==> joined(base, tail) == base,
        tail.len() > 0 && tail[0] == seq![47u8] ==> joined(base, tail) == tail,
        tail.len() > 0 && tail[0] == seq![46u8] ==> joined(base, tail) == base + tail.skip(1),
        tail.len() > 0 && tail[0] != seq![47u8] && tail[0] != seq![46u8] ==> joined(base, tail) == base + tail,
        joined(Seq::empty(), tail) == tail,
{
    if tail.len() == 0 {
        assert(base + tail =~= base);
    } else if tail[0] == seq![46u8] {
        assert(seq![46u8] != seq![47u8]) by {
            assert(seq![46u8][0] != seq![47u8][0]);
        }
        assert(tail.drop_first() =~= tail.skip(1));
    }
}

/// The parent of a path is the path without its last component; the root and a path
/// without components have none.
pub proof fn law_parent(path: Seq<Seq<u8>>, part: Seq<u8>)
    ensures
        part != seq![47u8] ==> parent_parts(path.push(part)) == Some(path),
        parent_parts(path.push(seq![47u8])) is None,
        parent_parts(Seq::empty()) is None,
{
    assert(path.push(part).drop_last() =~= path);
}

/// A new extension takes the place of the one that the last name of a path has behind its
/// last point. A name without a point, or with one in front only, keeps all of itself.
pub proof fn law_extension(dir: Seq<Seq<u8>>, name: Seq<u8>, old_one: Seq<u8>, extension: Seq<u8>)
    requires
        name.len() > 0,
        !old_one.contains(46u8),
    ensures
        is_normal(name + seq![46u8] + old_one) ==> with_extension(dir.push(name + seq![46u8] + old_one), extension)
            == dir.push(name + seq![46u8] + extension),
        is_normal(name) && !name.contains(46u8) ==> with_extension(dir.push(name), extension) == dir.push(
            name + seq![46u8] + extension,
        ),
        is_normal(seq![46u8] + old_one) ==> with_extension(dir.push(seq![46u8] + old_one), extension) == dir.push(
            seq![46u8] + old_one + seq![46u8] + extension,
        ),
{
    let whole = name + seq![46u8] + old_one;
    assert forall|j: int| name.len() + 1 <= j < whole.len() implies whole[j] != 46u8 by {
        assert(old_one.contains(old_one[j - name.len() - 1]));
    }
    lemma_last_point(whole, name.len() as int + 1);
    assert(whole.take(name.len() as int) =~= name);
    assert(dir.push(whole).drop_last() =~= dir);
    assert(name.push(46u8) + extension =~= name + seq![46u8] + extension);
    if !name.contains(46u8) {
        assert forall|j: int| 0 <= j < name.len() implies name[j] != 46u8 by {
            assert(name.contains(name[j]));
        }
        lemma_last_point(name, 0);
        assert(dir.push(name).drop_last() =~= dir);
    }
    let hidden = seq![46u8] + old_one;
    assert forall|j: int| 1 <= j < hidden.len() implies hidden[j] != 46u8 by {
        assert(old_one.contains(old_one[j - 1]));
    }
    lemma_last_point(hidden, 1);
    assert(dir.push(hidden).drop_last() =~= dir);
    assert(hidden.push(46u8) + extension =~= hidden + seq![46u8] + extension);
}

/// The components of a path text do not change where it has a slash more at its end, or
/// two in a row, or a `.` between two.
pub proof fn law_slashes_part_names(text: Seq<u8>, name: Seq<u8>)
    requires
        text.len() > 0,
        name.len() > 0,
        !name.contains(47u8),
        name != seq![46u8],
    ensures
        components(text.push(47u8)) == components(text),
        components(text.push(47u8) + name) == components(text).push(name),
        components(text.push(47u8) + seq![46u8]) == components(text),
        components(name) == seq![name],
        components(seq![47u8] + name) == seq![seq![47u8], name],
{
    let none = Seq::<u8>::empty();
    let slashed = text.push(47u8);
    assert(slashed.drop_last() =~= text);
    lemma_segments_free_of_slashes(text);
    let pieces = segments(text);
    assert(segments(slashed) =~= pieces.push(none));
    assert(pieces.push(none).drop_last() =~= pieces);
    lemma_segments_extend(slashed, name);
    assert(segments(slashed).drop_last() =~= pieces);
    assert(none + name =~= name);
    assert(segments(slashed + name) =~= pieces.push(name));
    assert(pieces.push(name).drop_last() =~= pieces);
    assert(kept(pieces.push(name)) =~= kept(pieces).push(name));
    assert(components(slashed + name) =~= components(text).push(name));
    let point = seq![46u8];
    assert(!point.contains(47u8));
    lemma_segments_extend(slashed, point);
    assert(none + point =~= point);
    assert(segments(slashed + point) =~= pieces.push(point));
    assert(pieces.push(point).drop_last() =~= pieces);
    lemma_one_component(name);
    let rooted = seq![47u8];
    assert(rooted.drop_last() =~= none);
    assert(segments(none) =~= seq![none]);
    assert(segments(rooted) =~= seq![none, none]);
    lemma_segments_extend(rooted, name);
    let two = segments(rooted + name);
    assert(two =~= seq![none, name]);
    assert(two.drop_last() =~= seq![none]);
    assert(seq![none].drop_last() =~= Seq::<Seq<u8>>::empty());
    assert(kept(Seq::<Seq<u8>>::empty()) =~= Seq::<Seq<u8>>::empty());
    assert(kept(seq![none]) =~= Seq::<Seq<u8>>::empty());
    assert(kept(two) =~= seq![name]);
    assert(components(rooted + name) =~= seq![seq![47u8], name]);
}

/// In the order of paths, names go by their bytes from the front, a name comes before
/// those that it begins, a directory before what is in it, and the root, `.` and `..`, in
/// that order, before all names.
pub proof fn law_order_of_paths(dir: Seq<Seq<u8>>, a: Seq<u8>, b: Seq<u8>, more: Seq<Seq<u8>>, tail: Seq<Seq<u8>>, k: int)
    ensures
        path_le(dir, dir + more),
        more.len() > 0 ==> !path_le(dir + more, dir),
        ({
            let first = dir.push(a) + more;
            let second = dir.push(b) + tail;
            let named = is_normal(a) && is_normal(b);
            &&& named && 0 <= k < a.len() && k < b.len() && a.take(k) == b.take(k) && a[k] < b[k] ==> path_le(first, second)
                && !path_le(second, first)
            &&& named && k == a.len() && a.len() < b.len() && b.take(k) == a ==> path_le(first, second) && !path_le(
                second,
                first,
            )
            &&& a == seq![46u8, 46u8] && is_normal(b) ==> path_le(first, second) && !path_le(second, first)
            &&& a == seq![46u8] && b == seq![46u8, 46u8] ==> path_le(first, second) && !path_le(second, first)
            &&& a == seq![47u8] && b == seq![46u8] ==> path_le(first, second) && !path_le(second, first)
        }),
    decreases dir.len(),
{
    let first = dir.push(a) + more;
    let second = dir.push(b) + tail;
    if dir.len() > 0 {
        let rest = dir.drop_first();
        law_order_of_paths(rest, a, b, more, tail, k);
        assert((dir + more).drop_first() =~= rest + more);
        assert(first.drop_first() =~= rest.push(a) + more);
        assert(second.drop_first() =~= rest.push(b) + tail);
    } else {
        assert(first[0] == a && second[0] == b);
        if 0 <= k <= a.len() && k <= b.len() && a.take(k) == b.take(k) {
            lemma_bytes_le_from(a, b, k);
            if k == a.len() {
                assert(a.take(k) =~= a);
            }
        }
        if k == a.len() && b.len() > k && b.take(k) == a {
            assert(a.take(k) =~= a);
            lemma_bytes_le_from(a, b, k);
        }
        assert(seq![46u8].len() == 1 && seq![46u8, 46u8].len() == 2);
        assert(seq![46u8][0] != seq![47u8][0]);
    }
}

proof fn lemma_bytes_le_from(a: Seq<u8>, b: Seq<u8>, k: int)
    requires
        0 <= k <= a.len(),
        k <= b.len(),
        a.take(k) == b.take(k),
    ensures
        k < a.len() && k < b.len() && a[k] < b[k] ==> bytes_le(a, b) && !bytes_le(b, a) && a != b,
        k == a.len() && k < b.len() ==> bytes_le(a, b) && !bytes_le(b, a) && a != b,
    decreases k,
{
    if k > 0 {
        assert(a[0] == a.take(k)[0] && b[0] == b.take(k)[0]);
        assert(a.drop_first().take(k - 1) =~= a.take(k).drop_first());
        assert(b.drop_first().take(k - 1) =~= b.take(k).drop_first());
        lemma_bytes_le_from(a.drop_first(), b.drop_first(), k - 1);
    }
}

/// The text of a path has one slash between two components, and begins with one where the
/// path begins at the root.
pub proof fn law_text_of_a_path(parts: Seq<Seq<u8>>, name: Seq<u8>)
    requires
        well_formed(parts),
        name.len() > 0,
        !name.contains(47u8),
    ensures
        render(seq![name]) == name,
        render(seq![seq![47u8], name]) == seq![47u8] + name,
        parts.len() > 0 && parts.last() != seq![47u8] ==> render(parts.push(name)) == render(parts) + seq![47u8] + name,
{
    let none = Seq::<Seq<u8>>::empty();
    assert(name[0] != 47u8) by {
        assert(name.contains(name[0]));
    }
    assert(render(none) =~= Seq::<u8>::empty());
    assert(seq![name].drop_last() =~= none);
    assert(Seq::<u8>::empty() + name =~= name);
    let root = seq![47u8];
    assert(seq![root].drop_last() =~= none);
    assert(render(seq![root]) == root);
    assert(seq![root, name].drop_last() =~= seq![root]);
    assert(parts.push(name).drop_last() =~= parts);
    if parts.len() > 0 && parts.last() != root {
        let last = parts.last();
        let text = render(parts);
        assert(parts[parts.len() - 1] == last);
        assert(last.len() > 0 && !last.contains(47u8));
        assert(last.contains(last[0]) && last.contains(last[last.len() - 1]));
        assert(text == push_text(render(parts.drop_last()), last));
        assert(text.last() == last[last.len() - 1]);
        assert(text.push(47u8) + name =~= text + seq![47u8] + name);
    }
}

} // verus!
