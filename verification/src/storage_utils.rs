//! Small values kept under names, and the way they get to disk.

use crate::assoc::{has_key, keys_unique, lemma_map_of, lemma_map_push, lemma_map_remove, lemma_map_update, map_of};
use crate::path::{components, joined, lemma_last_component, with_extension, TreePath};
use crate::text::lemma_encode_concat;
use vstd::prelude::*;
use vstd::string::StringExecFns;

verus! {

/// What a stored value is.
pub enum Json {
    Null,
    Bool(bool),
    Text(Seq<char>),
    Other(Seq<char>),
}

/// A stored value. Numbers, arrays and objects are kept as their JSON text.
#[derive(Debug)]
pub enum Value {
    Null,
    Bool(bool),
    Text(String),
    Other(String),
}

impl View for Value {
    type V = Json;

    open spec fn view(&self) -> Json {
        match self {
            Value::Null => Json::Null,
            Value::Bool(flag) => Json::Bool(*flag),
            Value::Text(text) => Json::Text(text@),
            Value::Other(text) => Json::Other(text@),
        }
    }
}

impl Clone for Value {
    fn clone(&self) -> (copy: Value)
        ensures
            copy@ == self@,
    {
        match self {
            Value::Null => Value::Null,
            Value::Bool(flag) => Value::Bool(*flag),
            Value::Text(text) => Value::Text(text.clone()),
            Value::Other(text) => Value::Other(text.clone()),
        }
    }
}

impl Value {
    /// The text, where the value is one.
    pub fn as_str(&self) -> (text: Option<&str>)
        ensures
            match self@ {
                Json::Text(chars) => text matches Some(t) && t@ == chars,
                _ => text is None,
            },
    {
        match self {
            Value::Text(text) => Some(text.as_str()),
            _ => None,
        }
    }

    /// The flag, where the value is one.
    pub fn as_bool(&self) -> (flag: Option<bool>)
        ensures
            flag == (match self@ {
                Json::Bool(b) => Some(b),
                _ => None,
            }),
    {
        match self {
            Value::Bool(flag) => Some(*flag),
            _ => None,
        }
    }
}

/// The file that a store of a given name is kept in.
pub open spec fn store_path(dir: Seq<Seq<u8>>, name: Seq<char>) -> Seq<Seq<u8>> {
    joined(dir, components(vstd::utf8::encode_utf8(name + ".json"@)))
}

/// The file that new text is written to first is not the file that it is for.
pub proof fn law_tmp_is_another_file(dir: Seq<Seq<u8>>, name: Seq<char>)
    ensures
        with_extension(store_path(dir, name), vstd::utf8::encode_utf8("json.tmp"@)) != store_path(dir, name),
{
    reveal_strlit(".json");
    reveal_strlit("json.tmp");
    let text = vstd::utf8::encode_utf8(name + ".json"@);
    let suffix = vstd::utf8::encode_utf8(".json"@);
    let extension = vstd::utf8::encode_utf8("json.tmp"@);
    lemma_encode_concat(name, ".json"@);
    vstd::utf8::is_ascii_chars_encode_utf8(".json"@);
    vstd::utf8::is_ascii_chars_encode_utf8("json.tmp"@);
    assert(suffix[4] == 110u8);
    assert(extension[7] == 112u8);
    assert(text.last() == 110u8);
    lemma_last_component(text);
    let tail = components(text);
    let path = store_path(dir, name);
    assert(path.last() == tail.last());
    let tmp = with_extension(path, extension);
    assert(tmp.last().last() == 112u8);
}

/// Writes a file as a whole: first beside it, then over it.
#[derive(Debug)]
pub struct DataWriter {
    storage_path: TreePath,
}

impl View for DataWriter {
    type V = Seq<Seq<u8>>;

    closed spec fn view(&self) -> Seq<Seq<u8>> {
        self.storage_path@
    }
}

impl Clone for DataWriter {
    fn clone(&self) -> (copy: DataWriter)
        ensures
            copy@ == self@,
    {
        DataWriter { storage_path: self.storage_path.clone() }
    }
}

/// Where the writing of a file stands.
#[derive(Debug, Clone, Copy, PartialEq, Eq, Structural)]
pub enum WriteStep {
    /// The new text is to be written beside the file.
    WriteTemp,
    /// What was written is to take the place of the file.
    Rename,
    /// What was written is to be removed.
    RemoveTemp,
    /// The file holds the new text, of so many bytes.
    Written(usize),
    /// The file is as it was.
    Failed,
}

/// What follows a step that went well, or did not.
pub open spec fn step_after(step: WriteStep, done: bool, len: usize) -> WriteStep {
    match step {
        WriteStep::WriteTemp => if done {
            WriteStep::Rename
        } else {
            WriteStep::Failed
        },
        WriteStep::Rename => if done {
            WriteStep::Written(len)
        } else {
            WriteStep::RemoveTemp
        },
        WriteStep::RemoveTemp => WriteStep::Failed,
        WriteStep::Written(n) => WriteStep::Written(n),
        WriteStep::Failed => WriteStep::Failed,
    }
}

/// Where writing stands once some steps went as told.
pub open spec fn step_after_all(outcomes: Seq<bool>, len: usize) -> WriteStep
    decreases outcomes.len(),
{
    if outcomes.len() == 0 {
        WriteStep::WriteTemp
    } else {
        step_after(step_after_all(outcomes.drop_last(), len), outcomes.last(), len)
    }
}

/// Three steps end the writing of a file. It is written exactly where the first two
/// went well.
pub proof fn law_write_ends(outcomes: Seq<bool>, len: usize)
    requires
        outcomes.len() >= 3,
    ensures
        step_after_all(outcomes, len) == (if outcomes[0] && outcomes[1] {
            WriteStep::Written(len)
        } else {
            WriteStep::Failed
        }),
    decreases outcomes.len(),
{
    if outcomes.len() == 3 {
        reveal_with_fuel(step_after_all, 4);
    } else {
        law_write_ends(outcomes.drop_last(), len);
    }
}

impl DataWriter {
    /// A writer for the file `{store_name}.json` in a directory.
    pub fn new(storage_path: TreePath, store_name: &str) -> (writer: DataWriter)
        ensures
            writer@ == store_path(storage_path@, store_name@),
    {
        let mut file = String::from_str(store_name);
        file.append(".json");
        DataWriter { storage_path: storage_path.join(&TreePath::from_text(file.as_str())) }
    }

    /// The file.
    pub fn storage_path(&self) -> (path: TreePath)
        ensures
            path@ == self@,
    {
        self.storage_path.clone()
    }

    /// The file that new text is written to first.
    pub fn tmp_path(&self) -> (path: TreePath)
        ensures
            path@ == with_extension(self@, vstd::utf8::encode_utf8("json.tmp"@)),
    {
        self.storage_path.with_extension("json.tmp")
    }

    /// What follows a step of writing `len` bytes that went well, or did not.
    pub fn next_step(&self, step: WriteStep, done: bool, len: usize) -> (next: WriteStep)
        ensures
            next == step_after(step, done, len),
    {
        match step {
            WriteStep::WriteTemp => if done {
                WriteStep::Rename
            } else {
                WriteStep::Failed
            },
            WriteStep::Rename => if done {
                WriteStep::Written(len)
            } else {
                WriteStep::RemoveTemp
            },
            WriteStep::RemoveTemp => WriteStep::Failed,
            WriteStep::Written(n) => WriteStep::Written(n),
            WriteStep::Failed => WriteStep::Failed,
        }
    }
}

/// Values under names, and the file that they are kept in.
#[derive(Debug)]
pub struct KvStore {
    inner: Vec<(String, Value)>,
    writer: DataWriter,
}

/// Names and values as a list of pairs.
pub open spec fn pairs_of(pairs: Seq<(String, Value)>) -> Seq<(Seq<char>, Json)> {
    pairs.map_values(|pair: (String, Value)| (pair.0@, pair.1@))
}

impl View for KvStore {
    type V = Map<Seq<char>, Json>;

    closed spec fn view(&self) -> Map<Seq<char>, Json> {
        map_of(pairs_of(self.inner@))
    }
}

/// What `serde_json::from_str` makes of a text that holds an object: the value under
/// each name. Nothing where the text is not JSON or holds another kind of value.
pub uninterp spec fn json_object(text: Seq<char>) -> Option<Map<Seq<char>, Json>>;

/// `serde_json::from_str`, read as a `serde_json::Value`: the names and values of the
/// object in a text, where the text is JSON and holds one. A number, an array or an
/// object among the values is kept as the text that `serde_json` writes for it.
#[verifier::external_body]
fn parse_object(text: &str) -> (pairs: Option<Vec<(String, Value)>>)
    ensures
        match pairs {
            Some(p) => json_object(text@) == Some(map_of(pairs_of(p@))),
            None => json_object(text@) is None,
        },
{
    let Ok(serde_json::Value::Object(map)) = serde_json::from_str(text) else { return None };
    let convert = |value| match value {
        serde_json::Value::Null => Value::Null,
        serde_json::Value::Bool(b) => Value::Bool(b),
        serde_json::Value::String(s) => Value::Text(s),
        other => Value::Other(other.to_string()),
    };
    Some(map.into_iter().map(|(name, value)| (name, convert(value))).collect())
}

/// What a store's file held: nothing where there was no file, or where its text is not
/// an object.
pub open spec fn stored_values(text: Option<Seq<char>>) -> Map<Seq<char>, Json> {
    match text {
        Some(t) => match json_object(t) {
            Some(map) => map,
            None => Map::empty(),
        },
        None => Map::empty(),
    }
}

impl KvStore {
    /// Whether each name is there once.
    pub closed spec fn wf(&self) -> bool {
        keys_unique(pairs_of(self.inner@))
    }

    /// The file that the values are kept in.
    pub closed spec fn file(&self) -> Seq<Seq<u8>> {
        self.writer@
    }

    /// A store in the file `{store_name}.json` of a directory, with the values that
    /// were found there; of two with one name the later one stays.
    pub fn new(storage_path: TreePath, store_name: &str, stored: Vec<(String, Value)>) -> (store: KvStore)
        ensures
            store.wf(),
            store@ == map_of(pairs_of(stored@)),
            store.file() == store_path(storage_path@, store_name@),
    {
        let writer = DataWriter::new(storage_path, store_name);
        let mut store = KvStore { inner: Vec::new(), writer };
        let ghost all = pairs_of(stored@);
        assert(pairs_of(store.inner@) =~= Seq::empty());
        assert(all.take(0) =~= Seq::empty());
        for pair in it: stored
            invariant
                it.seq() == stored@,
                all == pairs_of(stored@),
                store.wf(),
                store@ == map_of(all.take(it.index() as int)),
                store.file() == store_path(storage_path@, store_name@),
        {
            let ghost i = it.index() as int;
            assert(all.take(i + 1).drop_last() =~= all.take(i));
            store.put(pair.0, pair.1);
        }
        assert(all.take(all.len() as int) =~= all);
        store
    }

    /// A store in the file `{store_name}.json` of a directory, with the values that the
    /// file's text holds. `None` stands for a file that could not be read.
    pub fn from_text(storage_path: TreePath, store_name: &str, text: Option<&str>) -> (store: KvStore)
        ensures
            store.wf(),
            store.file() == store_path(storage_path@, store_name@),
            store@ == stored_values(
                match text {
                    Some(t) => Some(t@),
                    None => None,
                },
            ),
    {
        let stored = match text {
            Some(t) => match parse_object(t) {
                Some(pairs) => pairs,
                None => Vec::new(),
            },
            None => Vec::new(),
        };
        proof {
            let none: Seq<(Seq<char>, Json)> = Seq::empty();
            assert(map_of(none) =~= Map::empty());
            if stored@.len() == 0 {
                assert(pairs_of(stored@) =~= none);
            }
        }
        KvStore::new(storage_path, store_name, stored)
    }

    fn find(&self, key: &str) -> (found: Option<usize>)
        ensures
            match found {
                Some(i) => i < self.inner@.len() && pairs_of(self.inner@)[i as int].0 == key@,
                None => !has_key(pairs_of(self.inner@), key@),
            },
    {
        let name = String::from_str(key);
        let mut i: usize = 0;
        while i < self.inner.len()
            invariant
                i <= self.inner@.len(),
                name@ == key@,
                forall|j: int| 0 <= j < i ==> (#[trigger] pairs_of(self.inner@)[j]).0 != key@,
            decreases self.inner@.len() - i,
        {
            if self.inner[i].0 == name {
                return Some(i);
            }
            i = i + 1;
        }
        None
    }

    fn put(&mut self, key: String, value: Value)
        requires
            old(self).wf(),
        ensures
            final(self).wf(),
            final(self)@ == old(self)@.insert(key@, value@),
            final(self).file() == old(self).file(),
    {
        let ghost before = pairs_of(self.inner@);
        let ghost (name, content) = (key@, value@);
        match self.find(key.as_str()) {
            Some(i) => {
                self.inner[i] = (key, value);
                proof {
                    lemma_map_update(before, i as int, content);
                    assert(pairs_of(self.inner@) =~= before.update(i as int, (name, content)));
                }
            },
            None => {
                self.inner.push((key, value));
                proof {
                    lemma_map_push(before, name, content);
                    assert(pairs_of(self.inner@) =~= before.push((name, content)));
                }
            },
        }
    }

    /// The value under a name.
    pub fn get(&self, key: &str) -> (value: Option<Value>)
        requires
            self.wf(),
        ensures
            match value {
                Some(v) => self@.contains_pair(key@, v@),
                None => !self@.contains_key(key@),
            },
    {
        proof {
            lemma_map_of(pairs_of(self.inner@));
        }
        match self.find(key) {
            Some(i) => Some(self.inner[i].1.clone()),
            None => None,
        }
    }

    /// Puts a value under a name.
    pub fn set(&mut self, key: &str, value: Value)
        requires
            old(self).wf(),
        ensures
            final(self).wf(),
            final(self)@ == old(self)@.insert(key@, value@),
            final(self).file() == old(self).file(),
    {
        self.put(String::from_str(key), value);
    }

    /// Removes what is under a name.
    pub fn delete(&mut self, key: &str)
        requires
            old(self).wf(),
        ensures
            final(self).wf(),
            final(self)@ == old(self)@.remove(key@),
            final(self).file() == old(self).file(),
    {
        let ghost before = pairs_of(self.inner@);
        proof {
            lemma_map_of(before);
        }
        match self.find(key) {
            Some(i) => {
                let _ = self.inner.remove(i);
                proof {
                    lemma_map_remove(before, i as int);
                    assert(pairs_of(self.inner@) =~= before.remove(i as int));
                }
            },
            None => {
                assert(self@ =~= self@.remove(key@));
            },
        }
    }

    /// Removes everything.
    pub fn wipe(&mut self)
        ensures
            final(self).wf(),
            final(self)@ == Map::<Seq<char>, Json>::empty(),
            final(self).file() == old(self).file(),
    {
        self.inner = Vec::new();
        assert(pairs_of(self.inner@) =~= Seq::empty());
    }

    /// The file that the values are kept in.
    pub fn path(&self) -> (path: TreePath)
        ensures
            path@ == self.file(),
    {
        self.writer.storage_path()
    }

    /// The writer of that file.
    pub fn writer(&self) -> (writer: &DataWriter)
        ensures
            writer@ == self.file(),
    {
        &self.writer
    }

    /// All names with their values, as they are written to the file.
    pub fn entries(&self) -> (pairs: &Vec<(String, Value)>)
        requires
            self.wf(),
        ensures
            map_of(pairs_of(pairs@)) == self@,
            keys_unique(pairs_of(pairs@)),
    {
        &self.inner
    }
}

/// A store of a name without a slash is kept in the file of that name, with `.json` behind
/// it, in the directory that is given.
pub proof fn law_store_file(dir: Seq<Seq<u8>>, name: Seq<char>)
    requires
        dir.len() > 0,
        !name.contains('/'),
    ensures
        store_path(dir, name) == dir.push(vstd::utf8::encode_utf8(name) + vstd::utf8::encode_utf8(".json"@)),
{
    reveal_strlit(".json");
    let whole = name + ".json"@;
    let text = vstd::utf8::encode_utf8(whole);
    lemma_encode_concat(name, ".json"@);
    vstd::utf8::is_ascii_chars_encode_utf8(".json"@);
    assert(!whole.contains('/')) by {
        if whole.contains('/') {
            let k = choose|k: int| 0 <= k < whole.len() && whole[k] == '/';
            if k < name.len() {
                assert(name[k] == '/');
            }
        }
    }
    crate::path::lemma_text_without_slash(whole);
    crate::path::lemma_one_component(text);
    assert(text[0] != 47u8) by {
        assert(text.contains(text[0]));
    }
    assert(text.len() >= 5);
    crate::path::law_joined(dir, seq![text]);
    assert(dir + seq![text] =~= dir.push(text));
}

/// While a file is written, the new text stands beside it until it is whole. Where the new
/// text cannot take the place of the file it is removed, and the file is as it was.
pub proof fn law_steps_of_writing(first: bool, second: bool, len: usize)
    ensures
        step_after_all(Seq::empty(), len) == WriteStep::WriteTemp,
        first ==> step_after_all(seq![first], len) == WriteStep::Rename,
        !first ==> step_after_all(seq![first], len) == WriteStep::Failed,
        first && second ==> step_after_all(seq![first, second], len) == WriteStep::Written(len),
        first && !second ==> step_after_all(seq![first, second], len) == WriteStep::RemoveTemp,
{
    reveal_with_fuel(step_after_all, 3);
    assert(seq![first].drop_last() =~= Seq::empty());
    assert(seq![first, second].drop_last() =~= seq![first]);
}

/// What a store holds at first is the object in its file, and nothing where there is none.
pub proof fn law_stored_values(text: Seq<char>)
    ensures
        json_object(text) is Some ==> stored_values(Some(text)) == json_object(text)->0,
        json_object(text) is None ==> stored_values(Some(text)) == Map::<Seq<char>, Json>::empty(),
        stored_values(None) == Map::<Seq<char>, Json>::empty(),
{
}

/// A stored value is what it was made as: texts and flags are told apart from all else.
pub proof fn law_value_as_stored(text: String, flag: bool)
    ensures
        Value::Text(text)@ == Json::Text(text@),
        Value::Other(text)@ == Json::Other(text@),
        Value::Bool(flag)@ == Json::Bool(flag),
        Value::Null@ == Json::Null,
{
}

/// Each pair keeps its name and its value.
pub proof fn law_pairs(pairs: Seq<(String, Value)>, i: int)
    requires
        0 <= i < pairs.len(),
    ensures
        pairs_of(pairs).len() == pairs.len(),
        pairs_of(pairs)[i].0 == pairs[i].0@,
        pairs_of(pairs)[i].1 == pairs[i].1@,
{
}

} // verus!
