//! Who the user is, and the devices they are connected to.

use crate::assoc::{has_key, keys_unique, lemma_map_of, lemma_map_push, lemma_map_update, map_of};
use crate::crypto::{
    base64_bytes, base64_text, check_public_key, decode_base64, encode_base64, is_base64_of, is_public_key, DecodeError,
};
use crate::path::{components, joined, TreePath};
use vstd::prelude::*;
use vstd::string::StringExecFns;

verus! {

/// The public key by which a device is known.
#[derive(Clone, Copy, Debug)]
pub struct DeviceId {
    bytes: [u8; 32],
}

impl View for DeviceId {
    type V = Seq<u8>;

    closed spec fn view(&self) -> Seq<u8> {
        self.bytes@
    }
}

pub(crate) fn same_slices(a: &[u8], b: &[u8]) -> (same: bool)
    ensures
        same == (a@ == b@),
{
    if a.len() != b.len() {
        return false;
    }
    let mut i: usize = 0;
    while i < a.len()
        invariant
            a@.len() == b@.len(),
            i <= a@.len(),
            forall|j: int| 0 <= j < i ==> a@[j] == b@[j],
        decreases a@.len() - i,
    {
        if a[i] != b[i] {
            return false;
        }
        i = i + 1;
    }
    assert(a@ =~= b@);
    true
}

/// The 32 bytes of a slice, where it has that many.
pub(crate) fn to_32(bytes: &[u8]) -> (array: Option<[u8; 32]>)
    ensures
        match array {
            Some(a) => a@ == bytes@,
            None => bytes@.len() != 32,
        },
{
    if bytes.len() != 32 {
        return None;
    }
    let mut array: [u8; 32] = [0u8;32];
    let mut i: usize = 0;
    while i < 32
        invariant
            i <= 32,
            bytes@.len() == 32,
            array@.len() == 32,
            forall|j: int| 0 <= j < i ==> array@[j] == bytes@[j],
        decreases 32 - i,
    {
        array[i] = bytes[i];
        i = i + 1;
    }
    assert(array@ =~= bytes@);
    Some(array)
}

impl DeviceId {
    /// Whether the bytes are a public key.
    pub open spec fn wf(&self) -> bool {
        is_public_key(self@)
    }

    /// The device known by a public key, where the bytes are one.
    pub fn from_bytes(bytes: &[u8; 32]) -> (id: Option<DeviceId>)
        ensures
            match id {
                Some(device) => is_public_key(bytes@) && device@ == bytes@,
                None => !is_public_key(bytes@),
            },
    {
        if check_public_key(bytes) {
            Some(DeviceId { bytes: *bytes })
        } else {
            None
        }
    }

    /// The device known by a public key.
    pub(crate) fn from_key(bytes: [u8; 32]) -> (id: DeviceId)
        requires
            is_public_key(bytes@),
        ensures
            id@ == bytes@,
    {
        DeviceId { bytes }
    }

    /// The bytes of the public key.
    pub fn as_bytes(&self) -> (bytes: &[u8; 32])
        ensures
            bytes@ == self@,
    {
        &self.bytes
    }

    /// Whether two devices are one.
    pub fn same_as(&self, other: &DeviceId) -> (same: bool)
        ensures
            same == (self@ == other@),
    {
        same_slices(self.bytes.as_slice(), other.bytes.as_slice())
    }
}

pub(crate) proof fn lemma_id_len(id: DeviceId)
    ensures
        id@.len() == 32,
{
}

/// Whether a device can be reached, and how.
#[derive(Clone, Copy, Debug, PartialEq, Eq, Structural)]
pub enum DeviceStatus {
    Offline,
    Online,
    Nearby,
}

impl Default for DeviceStatus {
    fn default() -> (status: DeviceStatus)
        ensures
            status == DeviceStatus::Offline,
    {
        DeviceStatus::Offline
    }
}

/// The name that a user goes by.
#[derive(Debug)]
pub struct Username {
    inner: String,
}

impl View for Username {
    type V = Seq<char>;

    closed spec fn view(&self) -> Seq<char> {
        self.inner@
    }
}

impl Clone for Username {
    fn clone(&self) -> (copy: Username)
        ensures
            copy@ == self@,
    {
        Username { inner: self.inner.clone() }
    }
}

/// Why a name cannot be taken.
#[derive(Debug, Clone, Copy, PartialEq, Eq, Structural)]
pub enum UsernameError {
    /// It has fewer than three characters.
    TooShort,
    /// It has more than 24 characters.
    TooLong,
}

/// What is said of a name that cannot be taken.
pub open spec fn username_complaint(error: UsernameError) -> Seq<char> {
    match error {
        UsernameError::TooShort => "username too short. (Minimum 3 characters)"@,
        UsernameError::TooLong => "username too long (Maximum 24 characters)"@,
    }
}

impl UsernameError {
    /// What is said of the name.
    pub fn message(&self) -> (text: &'static str)
        ensures
            text@ == username_complaint(*self),
    {
        match self {
            UsernameError::TooShort => "username too short. (Minimum 3 characters)",
            UsernameError::TooLong => "username too long (Maximum 24 characters)",
        }
    }
}

impl Username {
    /// Takes a name of three to 24 characters.
    pub fn new(username: String) -> (name: Result<Username, UsernameError>)
        ensures
            match name {
                Ok(n) => 3 <= username@.len() <= 24 && n@ == username@,
                Err(UsernameError::TooShort) => username@.len() < 3,
                Err(UsernameError::TooLong) => username@.len() > 24,
            },
    {
        let len = username.as_str().unicode_len();
        if len < 3 {
            return Err(UsernameError::TooShort);
        }
        if len > 24 {
            return Err(UsernameError::TooLong);
        }
        Ok(Username { inner: username })
    }

    /// Takes a name as another device sent it, whatever its length.
    pub fn from_remote(username: String) -> (name: Username)
        ensures
            name@ == username@,
    {
        Username { inner: username }
    }

    /// The name.
    pub fn to_string(&self) -> (name: String)
        ensures
            name@ == self@,
    {
        self.inner.clone()
    }

    /// The name as a log shows it.
    pub fn display(&self) -> (text: String)
        ensures
            text@ == "Username "@ + self@,
    {
        let mut text = String::from_str("Username ");
        text.append(self.inner.as_str());
        text
    }
}

impl Default for Username {
    fn default() -> (name: Username)
        ensures
            name@ == "Default"@,
    {
        Username { inner: String::from_str("Default") }
    }
}

/// What is known of the user.
#[derive(Debug)]
pub struct UserInfoInner {
    pub username: Username,
}

/// The user of this device. There is one of it, and it is not copied: whoever sees it
/// sees the name that was given last.
#[derive(Debug)]
pub struct UserInfo(UserInfoInner);

impl View for UserInfo {
    type V = Seq<char>;

    closed spec fn view(&self) -> Seq<char> {
        self.0.username@
    }
}

impl UserInfo {
    /// A user of a given name.
    pub fn new(username: Username) -> (user: UserInfo)
        ensures
            user@ == username@,
    {
        UserInfo(UserInfoInner { username })
    }

    /// The user's name.
    pub fn username(&self) -> (name: Username)
        ensures
            name@ == self@,
    {
        self.0.username.clone()
    }

    /// Gives the user another name.
    pub fn set_username(&mut self, username: Username)
        ensures
            final(self)@ == username@,
    {
        self.0.username = username;
    }
}

/// What is known of another device.
pub struct DeviceInfo {
    pub username: Seq<char>,
    pub id: Seq<u8>,
    pub connection: Option<u64>,
    pub status: DeviceStatus,
    pub deleted: bool,
    pub total_exchanged_data: u64,
    pub completed_transfers: u64,
    pub fav: bool,
}

/// Another device. A connection to it is known by its number.
#[derive(Debug)]
pub struct Device {
    pub username: Username,
    pub id: DeviceId,
    pub connection: Option<u64>,
    pub status: DeviceStatus,
    pub deleted: bool,
    pub total_exchanged_data: u64,
    pub completed_transfers: u64,
    pub fav: bool,
}

impl View for Device {
    type V = DeviceInfo;

    open spec fn view(&self) -> DeviceInfo {
        DeviceInfo {
            username: self.username@,
            id: self.id@,
            connection: self.connection,
            status: self.status,
            deleted: self.deleted,
            total_exchanged_data: self.total_exchanged_data,
            completed_transfers: self.completed_transfers,
            fav: self.fav,
        }
    }
}

impl Clone for Device {
    fn clone(&self) -> (copy: Device)
        ensures
            copy@ == self@,
    {
        Device {
            username: self.username.clone(),
            id: self.id,
            connection: self.connection,
            status: self.status,
            deleted: self.deleted,
            total_exchanged_data: self.total_exchanged_data,
            completed_transfers: self.completed_transfers,
            fav: self.fav,
        }
    }
}

impl PartialEq for Device {
    fn eq(&self, other: &Device) -> (same: bool) {
        self.id.same_as(&other.id)
    }
}

impl vstd::std_specs::cmp::PartialEqSpecImpl for Device {
    open spec fn obeys_eq_spec() -> bool {
        true
    }

    open spec fn eq_spec(&self, other: &Device) -> bool {
        self.id@ == other.id@
    }
}

impl Eq for Device {

}

impl Device {
    /// The device as a log shows it.
    pub fn display(&self) -> (text: String)
        ensures
            text@ == "Username "@ + ("Username "@ + self.username@),
    {
        let mut text = String::from_str("Username ");
        text.append(self.username.display().as_str());
        text
    }
}

/// Why a text is not the text of a device.
#[derive(Debug, Clone, Copy, PartialEq, Eq)]
pub enum DeviceIdError {
    /// It is not base64.
    Decode(DecodeError),
    /// It is not the base64 of 32 bytes.
    InvalidLength,
    /// The bytes are not a public key.
    NotAKey,
}

/// The device that a text is the text of, or why it is none.
pub open spec fn device_id_of(text: Seq<char>) -> Result<Seq<u8>, DeviceIdError> {
    match base64_bytes(text) {
        Err(e) => Err(DeviceIdError::Decode(e)),
        Ok(bytes) => if bytes.len() != 32 {
            Err(DeviceIdError::InvalidLength)
        } else if !is_public_key(bytes) {
            Err(DeviceIdError::NotAKey)
        } else {
            Ok(bytes)
        },
    }
}

/// The text that a device is kept as.
pub fn serialize_device_id(id: &DeviceId) -> (text: String)
    ensures
        text@ == base64_text(id@),
        is_base64_of(text@, id@),
{
    encode_base64(id.bytes.as_slice())
}

/// The device that a text is the text of.
pub fn deserialize_device_id(text: &str) -> (id: Result<DeviceId, DeviceIdError>)
    ensures
        match id {
            Ok(device) => device_id_of(text@) == Ok::<Seq<u8>, DeviceIdError>(device@),
            Err(e) => device_id_of(text@) == Err::<Seq<u8>, DeviceIdError>(e),
        },
{
    let bytes = match decode_base64(text) {
        Ok(bytes) => bytes,
        Err(e) => {
            return Err(DeviceIdError::Decode(e));
        },
    };
    match to_32(bytes.as_slice()) {
        None => Err(DeviceIdError::InvalidLength),
        Some(array) => match DeviceId::from_bytes(&array) {
            None => Err(DeviceIdError::NotAKey),
            Some(id) => Ok(id),
        },
    }
}

/// The text of a device stands for that device.
pub proof fn law_device_id_back(id: DeviceId, text: Seq<char>)
    requires
        id.wf(),
        is_base64_of(text, id@),
    ensures
        device_id_of(text) == Ok::<Seq<u8>, DeviceIdError>(id@),
{
    assert(id.bytes@.len() == 32);
}

/// The devices that are known, and the file that they are kept in.
#[derive(Debug)]
pub struct DevicesPool {
    inner: Vec<Device>,
    file: TreePath,
}

/// Devices under their keys.
pub open spec fn by_id(devices: Seq<Device>) -> Seq<(Seq<u8>, DeviceInfo)> {
    devices.map_values(|device: Device| (device.id@, device@))
}

/// The directory that devices are kept in: `Nectan` in the directory given, or else
/// in the system's directory for data.
pub open spec fn pool_dir(path: Option<Seq<Seq<u8>>>, data_dir: Seq<Seq<u8>>) -> Seq<Seq<u8>> {
    let base = match path {
        Some(p) => p,
        None => data_dir,
    };
    joined(base, components(vstd::utf8::encode_utf8("Nectan"@)))
}

impl View for DevicesPool {
    type V = Map<Seq<u8>, DeviceInfo>;

    closed spec fn view(&self) -> Map<Seq<u8>, DeviceInfo> {
        map_of(by_id(self.inner@))
    }
}

impl DevicesPool {
    /// Whether each device is there once.
    pub closed spec fn wf(&self) -> bool {
        keys_unique(by_id(self.inner@))
    }

    /// The file that the devices are kept in.
    pub closed spec fn file(&self) -> Seq<Seq<u8>> {
        self.file@
    }

    /// The pool kept under a directory, with the devices that were found there; of
    /// two with one key the later one stays.
    pub fn new(path: Option<TreePath>, data_dir: TreePath, stored: Vec<Device>) -> (pool: DevicesPool)
        ensures
            pool.wf(),
            pool@ == map_of(by_id(stored@)),
            pool.file() == crate::storage_utils::store_path(
                pool_dir(
                    match path {
                        Some(p) => Some(p@),
                        None => None,
                    },
                    data_dir@,
                ),
                "nectan_devices_store"@,
            ),
    {
        let base = match path {
            Some(p) => p,
            None => data_dir,
        };
        let dir = base.join(&TreePath::from_text("Nectan"));
        let writer = crate::storage_utils::DataWriter::new(dir, "nectan_devices_store");
        let mut pool = DevicesPool { inner: Vec::new(), file: writer.storage_path() };
        let ghost all = by_id(stored@);
        let ghost place = pool.file();
        assert(by_id(pool.inner@) =~= Seq::empty());
        assert(all.take(0) =~= Seq::empty());
        for device in it: stored
            invariant
                it.seq() == stored@,
                all == by_id(stored@),
                pool.wf(),
                pool@ == map_of(all.take(it.index() as int)),
                pool.file() == place,
        {
            let ghost i = it.index() as int;
            assert(all.take(i + 1).drop_last() =~= all.take(i));
            pool.insert(device);
        }
        assert(all.take(all.len() as int) =~= all);
        pool
    }

    fn find(&self, target: &DeviceId) -> (found: Option<usize>)
        ensures
            match found {
                Some(i) => i < self.inner@.len() && by_id(self.inner@)[i as int].0 == target@,
                None => !has_key(by_id(self.inner@), target@),
            },
    {
        let mut i: usize = 0;
        while i < self.inner.len()
            invariant
                i <= self.inner@.len(),
                forall|j: int| 0 <= j < i ==> (#[trigger] by_id(self.inner@)[j]).0 != target@,
            decreases self.inner@.len() - i,
        {
            if self.inner[i].id.same_as(target) {
                return Some(i);
            }
            i = i + 1;
        }
        None
    }

    /// Puts a device under its key.
    pub fn insert(&mut self, device: Device)
        requires
            old(self).wf(),
        ensures
            final(self).wf(),
            final(self)@ == old(self)@.insert(device.id@, device@),
            final(self).file() == old(self).file(),
    {
        let ghost before = by_id(self.inner@);
        let ghost (id, info) = (device.id@, device@);
        match self.find(&device.id) {
            Some(i) => {
                self.inner[i] = device;
                proof {
                    lemma_map_update(before, i as int, info);
                    assert(by_id(self.inner@) =~= before.update(i as int, (id, info)));
                }
            },
            None => {
                self.inner.push(device);
                proof {
                    lemma_map_push(before, id, info);
                    assert(by_id(self.inner@) =~= before.push((id, info)));
                }
            },
        }
    }

    /// The device with a key.
    pub fn get(&self, target: &DeviceId) -> (device: Option<Device>)
        requires
            self.wf(),
        ensures
            match device {
                Some(d) => self@.contains_pair(target@, d@) && d.id@ == target@,
                None => !self@.contains_key(target@),
            },
    {
        proof {
            lemma_map_of(by_id(self.inner@));
        }
        match self.find(target) {
            Some(i) => {
                assert(by_id(self.inner@)[i as int].1 == self.inner@[i as int]@);
                Some(self.inner[i].clone())
            },
            None => None,
        }
    }

    /// The keys of all devices.
    pub fn get_all_ids(&self) -> (ids: Vec<DeviceId>)
        requires
            self.wf(),
        ensures
            forall|key: Seq<u8>| #[trigger]
                self@.contains_key(key) <==> exists|i: int| 0 <= i < ids@.len() && (#[trigger] ids@[i])@ == key,
            forall|i: int, j: int| 0 <= i < j < ids@.len() ==> (#[trigger] ids@[i])@ != (#[trigger] ids@[j])@,
    {
        let ghost pairs = by_id(self.inner@);
        let mut ids: Vec<DeviceId> = Vec::new();
        let mut i: usize = 0;
        while i < self.inner.len()
            invariant
                i <= self.inner@.len(),
                ids@.len() == i,
                pairs == by_id(self.inner@),
                forall|j: int| 0 <= j < i ==> (#[trigger] ids@[j])@ == pairs[j].0,
            decreases self.inner@.len() - i,
        {
            ids.push(self.inner[i].id);
            i = i + 1;
        }
        proof {
            lemma_map_of(pairs);
            assert forall|key: Seq<u8>| #[trigger] self@.contains_key(key) <==> exists|i: int|
                0 <= i < ids@.len() && (#[trigger] ids@[i])@ == key by {
                if has_key(pairs, key) {
                    let k = choose|k: int| 0 <= k < pairs.len() && (#[trigger] pairs[k]).0 == key;
                    assert(ids@[k]@ == key);
                }
                if exists|i: int| 0 <= i < ids@.len() && (#[trigger] ids@[i])@ == key {
                    let k = choose|k: int| 0 <= k < ids@.len() && (#[trigger] ids@[k])@ == key;
                    assert(pairs[k].0 == key);
                }
            }
            assert forall|a: int, b: int| 0 <= a < b < ids@.len() implies (#[trigger] ids@[a])@ != (#[trigger] ids@[b])@ by {
                assert(pairs[a].0 != pairs[b].0);
            }
        }
        ids
    }

    /// All devices, as they are written to the file.
    pub fn persist(&self) -> (stored: &Vec<Device>)
        requires
            self.wf(),
        ensures
            map_of(by_id(stored@)) == self@,
            keys_unique(by_id(stored@)),
    {
        &self.inner
    }

    /// The file that the devices are kept in.
    pub fn path(&self) -> (path: TreePath)
        ensures
            path@ == self.file(),
    {
        self.file.clone()
    }
}

/// Devices are kept in `Nectan`, in the directory that is given, or else in that for data.
pub proof fn law_pool_dir(path: Seq<Seq<u8>>, data_dir: Seq<Seq<u8>>)
    ensures
        path.len() > 0 ==> pool_dir(Some(path), data_dir) == path.push(vstd::utf8::encode_utf8("Nectan"@)),
        data_dir.len() > 0 ==> pool_dir(None, data_dir) == data_dir.push(vstd::utf8::encode_utf8("Nectan"@)),
{
    reveal_strlit("Nectan");
    let name = vstd::utf8::encode_utf8("Nectan"@);
    vstd::utf8::is_ascii_chars_encode_utf8("Nectan"@);
    assert forall|k: int| 0 <= k < "Nectan"@.len() implies "Nectan"@[k] != '/' by {}
    crate::path::lemma_text_without_slash("Nectan"@);
    crate::path::lemma_one_component(name);
    assert(name[0] == 78u8);
    assert(path + seq![name] =~= path.push(name));
    assert(data_dir + seq![name] =~= data_dir.push(name));
}

/// Each device of a list stands under its own key, with all that is known of it.
pub proof fn law_devices_under_their_keys(devices: Seq<Device>, i: int)
    requires
        0 <= i < devices.len(),
    ensures
        by_id(devices).len() == devices.len(),
        by_id(devices)[i].0 == devices[i].id@,
        by_id(devices)[i].1 == devices[i]@,
{
}

/// What is known of a device is what it holds.
pub proof fn law_device_as_known(device: Device)
    ensures
        device@.username == device.username@,
        device@.id == device.id@,
        device@.connection == device.connection,
        device@.status == device.status,
        device@.deleted == device.deleted,
        device@.total_exchanged_data == device.total_exchanged_data,
        device@.completed_transfers == device.completed_transfers,
        device@.fav == device.fav,
{
}

/// A text stands for a device exactly where it is the base64 of 32 bytes that are a public
/// key; the error says which of these does not hold.
pub proof fn law_device_text(text: Seq<char>, bytes: Seq<u8>)
    ensures
        is_base64_of(text, bytes) && bytes.len() == 32 && is_public_key(bytes) ==> device_id_of(text) == Ok::<
            Seq<u8>,
            DeviceIdError,
        >(bytes),
        is_base64_of(text, bytes) && bytes.len() == 32 && !is_public_key(bytes) ==> device_id_of(text) == Err::<
            Seq<u8>,
            DeviceIdError,
        >(DeviceIdError::NotAKey),
        is_base64_of(text, bytes) && bytes.len() != 32 ==> device_id_of(text) == Err::<Seq<u8>, DeviceIdError>(
            DeviceIdError::InvalidLength,
        ),
        base64_bytes(text) is Err ==> device_id_of(text) == Err::<Seq<u8>, DeviceIdError>(
            DeviceIdError::Decode(base64_bytes(text)->Err_0),
        ),
        device_id_of(text) matches Ok(key) ==> key.len() == 32 && is_public_key(key) && is_base64_of(text, key),
{
}

/// A name is too short below three characters, and too long above 24; what is said of it
/// tells the two apart.
pub proof fn law_complaints_about_names(error: UsernameError)
    ensures
        error == UsernameError::TooShort ==> username_complaint(error) == "username too short. (Minimum 3 characters)"@,
        error == UsernameError::TooLong ==> username_complaint(error) == "username too long (Maximum 24 characters)"@,
{
}

/// Devices are the same where they have the same key, whatever else is known of them.
pub proof fn law_same_device(a: Device, b: Device)
    ensures
        vstd::std_specs::cmp::PartialEqSpec::eq_spec(&a, &b) == (a.id@ == b.id@),
{
}

} // verus!
