//! The tabs of the window.

use vstd::prelude::*;
use vstd::string::StringExecFns;

verus! {

/// What a tab shows.
#[derive(Debug, Clone, Copy, PartialEq, Eq, Structural)]
pub enum SelectedWindow {
    Transfers,
    Containers,
    Device,
}

/// What a tab is.
pub struct Tab {
    pub display: Seq<char>,
    pub id: i32,
    pub kind: SelectedWindow,
    pub ref_id: i32,
}

/// A tab. What it shows besides its kind goes by a reference.
#[derive(Debug)]
pub struct NectanTab {
    pub display: String,
    pub id: i32,
    pub kind: SelectedWindow,
    pub ref_id: i32,
}

impl View for NectanTab {
    type V = Tab;

    open spec fn view(&self) -> Tab {
        Tab { display: self.display@, id: self.id, kind: self.kind, ref_id: self.ref_id }
    }
}

/// What is open, and what is in front.
pub struct TabsModel {
    pub tabs: Seq<Tab>,
    pub current: int,
    pub window: SelectedWindow,
    pub ref_id: i32,
}

/// The tabs that are open, and the one in front.
#[derive(Debug)]
pub struct Tabs {
    tabs: Vec<NectanTab>,
    current: i32,
    window: SelectedWindow,
    ref_id: i32,
}

impl View for Tabs {
    type V = TabsModel;

    closed spec fn view(&self) -> TabsModel {
        TabsModel {
            tabs: self.tabs@.map_values(|tab: NectanTab| tab@),
            current: self.current as int,
            window: self.window,
            ref_id: self.ref_id,
        }
    }
}

/// Whether something is open, each tab has a number of its own, and one of them is in
/// front.
pub open spec fn tabs_sound(model: TabsModel) -> bool {
    &&& 1 <= model.tabs.len() <= i32::MAX
    &&& 0 <= model.current < model.tabs.len()
    &&& ids_differ(model.tabs)
}

/// Whether each tab has a number of its own.
pub open spec fn ids_differ(tabs: Seq<Tab>) -> bool {
    forall|i: int, j: int| 0 <= i < j < tabs.len() ==> (#[trigger] tabs[i]).id != (#[trigger] tabs[j]).id
}

/// The tab that is open at first, or after the last one was closed.
pub open spec fn home_tab(id: i32) -> Tab {
    Tab { display: "Transfers"@, id, kind: SelectedWindow::Transfers, ref_id: id }
}

/// The position of the first tab with a number, where there is one.
pub open spec fn tab_position(tabs: Seq<Tab>, id: i32) -> Option<int>
    decreases tabs.len(),
{
    if tabs.len() == 0 {
        None
    } else if tabs[0].id == id {
        Some(0)
    } else {
        match tab_position(tabs.drop_first(), id) {
            Some(i) => Some(i + 1),
            None => None,
        }
    }
}

/// What is open once the tab with a number has been closed. The one in front stays
/// in front; where it was closed, the next one comes to the front, or the last.
pub open spec fn after_close(model: TabsModel, id: i32) -> TabsModel {
    match tab_position(model.tabs, id) {
        None => model,
        Some(at) => {
            let left = model.tabs.remove(at);
            if left.len() == 0 {
                TabsModel { tabs: seq![home_tab(2)], current: 0, ..model }
            } else {
                let current = if model.current == at {
                    if at < left.len() {
                        at
                    } else {
                        left.len() - 1
                    }
                } else if model.current > at {
                    model.current - 1
                } else {
                    model.current
                };
                TabsModel { tabs: left, current, ..model }
            }
        },
    }
}

/// What is open once a tab has been moved. It comes to the front.
pub open spec fn after_reorder(model: TabsModel, from: int, to: int) -> TabsModel {
    if 0 <= from < model.tabs.len() && 0 <= to < model.tabs.len() && from != to {
        TabsModel { tabs: model.tabs.remove(from).insert(to, model.tabs[from]), current: to, ..model }
    } else {
        model
    }
}

/// Whether a tab shows something. There is one tab for transfers and one for
/// containers, but one for each device.
pub open spec fn shows(tab: Tab, kind: SelectedWindow, ref_id: i32) -> bool {
    tab.kind == kind && (kind == SelectedWindow::Device ==> tab.ref_id == ref_id)
}

/// The position of the first tab that shows something, where there is one.
pub open spec fn showing_position(tabs: Seq<Tab>, kind: SelectedWindow, ref_id: i32) -> Option<int>
    decreases tabs.len(),
{
    if tabs.len() == 0 {
        None
    } else if shows(tabs[0], kind, ref_id) {
        Some(0)
    } else {
        match showing_position(tabs.drop_first(), kind, ref_id) {
            Some(i) => Some(i + 1),
            None => None,
        }
    }
}

/// The largest number of a tab, or -1 where there is none.
pub open spec fn largest_id(tabs: Seq<Tab>) -> int
    decreases tabs.len(),
{
    if tabs.len() == 0 {
        -1
    } else {
        let before = largest_id(tabs.drop_last());
        let last = tabs.last().id as int;
        if tabs.len() == 1 || last > before {
            last
        } else {
            before
        }
    }
}

/// What is open once something has been asked for. A tab that shows it comes to the
/// front; else a new one is opened, with a number above all others.
pub open spec fn after_open(model: TabsModel, kind: SelectedWindow, ref_id: i32, display: Seq<char>) -> TabsModel {
    match showing_position(model.tabs, kind, ref_id) {
        Some(at) => TabsModel { current: at, window: kind, ref_id, ..model },
        None => {
            let tab = Tab { display, id: (largest_id(model.tabs) + 1) as i32, kind, ref_id };
            TabsModel { tabs: model.tabs.push(tab), current: model.tabs.len() as int, window: kind, ref_id }
        },
    }
}

proof fn lemma_tab_position(tabs: Seq<Tab>, id: i32, at: int)
    requires
        0 <= at <= tabs.len(),
        forall|j: int| 0 <= j < at ==> (#[trigger] tabs[j]).id != id,
        at < tabs.len() ==> tabs[at].id == id,
    ensures
        tab_position(tabs, id) == (if at < tabs.len() {
            Some(at)
        } else {
            None
        }),
    decreases tabs.len(),
{
    if at > 0 {
        assert(tabs[0].id != id);
        let rest = tabs.drop_first();
        assert forall|j: int| 0 <= j < at - 1 implies (#[trigger] rest[j]).id != id by {
            assert(tabs[j + 1].id != id);
        }
        lemma_tab_position(rest, id, at - 1);
    }
}

proof fn lemma_showing_position(tabs: Seq<Tab>, kind: SelectedWindow, ref_id: i32, at: int)
    requires
        0 <= at <= tabs.len(),
        forall|j: int| 0 <= j < at ==> !shows(#[trigger] tabs[j], kind, ref_id),
        at < tabs.len() ==> shows(tabs[at], kind, ref_id),
    ensures
        showing_position(tabs, kind, ref_id) == (if at < tabs.len() {
            Some(at)
        } else {
            None
        }),
    decreases tabs.len(),
{
    if at > 0 {
        assert(!shows(tabs[0], kind, ref_id));
        let rest = tabs.drop_first();
        assert forall|j: int| 0 <= j < at - 1 implies !shows(#[trigger] rest[j], kind, ref_id) by {
            assert(!shows(tabs[j + 1], kind, ref_id));
        }
        lemma_showing_position(rest, kind, ref_id, at - 1);
    }
}

proof fn lemma_position_range(tabs: Seq<Tab>, id: i32)
    ensures
        tab_position(tabs, id) matches Some(i) ==> 0 <= i < tabs.len() && tabs[i].id == id,
    decreases tabs.len(),
{
    if tabs.len() > 0 && tabs[0].id != id {
        lemma_position_range(tabs.drop_first(), id);
    }
}

proof fn lemma_showing_range(tabs: Seq<Tab>, kind: SelectedWindow, ref_id: i32)
    ensures
        showing_position(tabs, kind, ref_id) matches Some(i) ==> 0 <= i < tabs.len() && shows(tabs[i], kind, ref_id),
    decreases tabs.len(),
{
    if tabs.len() > 0 && !shows(tabs[0], kind, ref_id) {
        lemma_showing_range(tabs.drop_first(), kind, ref_id);
    }
}

proof fn lemma_largest_id(tabs: Seq<Tab>)
    ensures
        forall|i: int| 0 <= i < tabs.len() ==> (#[trigger] tabs[i]).id <= largest_id(tabs),
    decreases tabs.len(),
{
    if tabs.len() > 0 {
        lemma_largest_id(tabs.drop_last());
        assert forall|i: int| 0 <= i < tabs.len() implies (#[trigger] tabs[i]).id <= largest_id(tabs) by {
            if i < tabs.len() - 1 {
                assert(tabs.drop_last()[i].id <= largest_id(tabs.drop_last()));
            }
        }
    }
}

/// Closing a tab keeps the tabs sound: something stays open, and one of them in front.
pub proof fn law_close_keeps_sound(model: TabsModel, id: i32)
    requires
        tabs_sound(model),
    ensures
        tabs_sound(after_close(model, id)),
{
    lemma_position_range(model.tabs, id);
    if let Some(at) = tab_position(model.tabs, id) {
        let left = model.tabs.remove(at);
        assert forall|i: int, j: int| 0 <= i < j < left.len() implies (#[trigger] left[i]).id != (#[trigger] left[j]).id by {
            let x = if i < at { i } else { i + 1 };
            let y = if j < at { j } else { j + 1 };
            assert(model.tabs[x].id != model.tabs[y].id);
        }
    }
}

/// Moving a tab keeps the tabs sound.
pub proof fn law_reorder_keeps_sound(model: TabsModel, from: int, to: int)
    requires
        tabs_sound(model),
    ensures
        tabs_sound(after_reorder(model, from, to)),
        after_reorder(model, from, to).tabs.to_multiset() == model.tabs.to_multiset(),
{
    broadcast use vstd::seq_lib::group_to_multiset_ensures;

    if 0 <= from < model.tabs.len() && 0 <= to < model.tabs.len() && from != to {
        let moved = model.tabs[from];
        let left = model.tabs.remove(from);
        let tabs = left.insert(to, moved);
        assert forall|i: int, j: int| 0 <= i < j < tabs.len() implies (#[trigger] tabs[i]).id != (#[trigger] tabs[j]).id by {
            let a = if i < to { i } else { i - 1 };
            let b = if j < to { j } else { j - 1 };
            let x = if i == to { from } else if a < from { a } else { a + 1 };
            let y = if j == to { from } else if b < from { b } else { b + 1 };
            assert(tabs[i] == model.tabs[x] && tabs[j] == model.tabs[y]);
            if x < y {
                assert(model.tabs[x].id != model.tabs[y].id);
            } else {
                assert(model.tabs[y].id != model.tabs[x].id);
            }
        }
        vstd::seq_lib::to_multiset_remove(model.tabs, from);
        vstd::seq_lib::to_multiset_insert(left, to, moved);
        assert(model.tabs.contains(moved));
        assert(model.tabs.to_multiset().count(moved) > 0);
        assert(tabs.to_multiset() =~= model.tabs.to_multiset());
    }
}

/// Asking for something keeps the tabs sound, and brings a tab that shows it to the
/// front.
pub proof fn law_open_keeps_sound(model: TabsModel, kind: SelectedWindow, ref_id: i32, display: Seq<char>)
    requires
        tabs_sound(model),
        model.tabs.len() < i32::MAX,
        largest_id(model.tabs) < i32::MAX,
    ensures
        tabs_sound(after_open(model, kind, ref_id, display)),
        shows(
            after_open(model, kind, ref_id, display).tabs[after_open(model, kind, ref_id, display).current],
            kind,
            ref_id,
        ),
{
    lemma_showing_range(model.tabs, kind, ref_id);
    lemma_largest_id(model.tabs);
    let after = after_open(model, kind, ref_id, display);
    assert forall|i: int, j: int| 0 <= i < j < after.tabs.len() implies (#[trigger] after.tabs[i]).id != (
    #[trigger] after.tabs[j]).id by {
        assert(after.tabs[i] == model.tabs[i]);
        if j < model.tabs.len() {
            assert(model.tabs[i].id != model.tabs[j].id);
        }
    }
}

impl Tabs {
    /// One tab, for transfers.
    pub fn new() -> (tabs: Tabs)
        ensures
            tabs@ == (TabsModel {
                tabs: seq![home_tab(0)],
                current: 0,
                window: SelectedWindow::Transfers,
                ref_id: 0,
            }),
            tabs_sound(tabs@),
    {
        let home = NectanTab {
            display: String::from_str("Transfers"),
            id: 0,
            kind: SelectedWindow::Transfers,
            ref_id: 0,
        };
        let tabs = Tabs { tabs: vec![home], current: 0, window: SelectedWindow::Transfers, ref_id: 0 };
        assert(tabs@.tabs =~= seq![home_tab(0)]);
        tabs
    }

    /// The tabs that are open.
    pub fn tabs(&self) -> (tabs: &Vec<NectanTab>)
        ensures
            tabs@.map_values(|tab: NectanTab| tab@) == self@.tabs,
    {
        &self.tabs
    }

    /// The position of the tab in front.
    pub fn current(&self) -> (current: i32)
        ensures
            current == self@.current,
    {
        self.current
    }

    /// What is shown.
    pub fn window(&self) -> (window: (SelectedWindow, i32))
        ensures
            window == (self@.window, self@.ref_id),
    {
        (self.window, self.ref_id)
    }

    /// Brings a tab to the front.
    pub fn set_current(&mut self, current: i32)
        requires
            0 <= current < old(self)@.tabs.len(),
        ensures
            final(self)@ == (TabsModel { current: current as int, ..old(self)@ }),
    {
        self.current = current;
    }

    /// Closes the tab with a number.
    pub fn close(&mut self, id: i32)
        requires
            tabs_sound(old(self)@),
        ensures
            final(self)@ == after_close(old(self)@, id),
            tabs_sound(final(self)@),
    {
        let ghost before = self@;
        proof {
            law_close_keeps_sound(before, id);
        }
        let mut at: usize = 0;
        while at < self.tabs.len() && self.tabs[at].id != id
            invariant
                at <= self.tabs@.len(),
                self@ == before,
                forall|j: int| 0 <= j < at ==> (#[trigger] before.tabs[j]).id != id,
            decreases self.tabs@.len() - at,
        {
            assert(before.tabs[at as int].id == self.tabs@[at as int].id);
            at = at + 1;
        }
        proof {
            if at < self.tabs@.len() {
                assert(before.tabs[at as int].id == self.tabs@[at as int].id);
            }
            lemma_tab_position(before.tabs, id, at as int);
        }
        if at == self.tabs.len() {
            return;
        }
        let _ = self.tabs.remove(at);
        assert(self@.tabs =~= before.tabs.remove(at as int));
        let n = self.tabs.len();
        if n == 0 {
            let fresh = NectanTab {
                display: String::from_str("Transfers"),
                id: 2,
                kind: SelectedWindow::Transfers,
                ref_id: 2,
            };
            self.tabs.push(fresh);
            self.current = 0;
            assert(self@.tabs =~= seq![home_tab(2)]);
            return;
        }
        if self.current == at as i32 {
            self.current = if at < n {
                at as i32
            } else {
                (n - 1) as i32
            };
        } else if self.current > at as i32 {
            self.current = self.current - 1;
        }
    }

    /// Moves a tab.
    pub fn reorder(&mut self, from_idx: i32, to_idx: i32)
        requires
            tabs_sound(old(self)@),
        ensures
            final(self)@ == after_reorder(old(self)@, from_idx as int, to_idx as int),
            tabs_sound(final(self)@),
    {
        let ghost before = self@;
        proof {
            law_reorder_keeps_sound(before, from_idx as int, to_idx as int);
        }
        if from_idx < 0 || to_idx < 0 || from_idx == to_idx {
            return;
        }
        let from = from_idx as usize;
        let to = to_idx as usize;
        if from >= self.tabs.len() || to >= self.tabs.len() {
            return;
        }
        let item = self.tabs.remove(from);
        assert(self@.tabs =~= before.tabs.remove(from as int));
        let ghost left = self@.tabs;
        let ghost moved = item@;
        self.tabs.insert(to, item);
        assert(self@.tabs =~= left.insert(to as int, moved));
        self.current = to_idx;
    }

    /// Shows something.
    pub fn open(&mut self, kind: SelectedWindow, ref_id: i32, display: String)
        requires
            tabs_sound(old(self)@),
            old(self)@.tabs.len() < i32::MAX,
            largest_id(old(self)@.tabs) < i32::MAX,
        ensures
            final(self)@ == after_open(old(self)@, kind, ref_id, display@),
            tabs_sound(final(self)@),
    {
        let ghost before = self@;
        proof {
            law_open_keeps_sound(before, kind, ref_id, display@);
        }
        let mut at: usize = 0;
        let by_ref = match kind {
            SelectedWindow::Device => true,
            SelectedWindow::Transfers | SelectedWindow::Containers => false,
        };
        while at < self.tabs.len() && !(self.tabs[at].kind == kind && (!by_ref || self.tabs[at].ref_id == ref_id))
            invariant
                at <= self.tabs@.len(),
                self@ == before,
                by_ref == (kind == SelectedWindow::Device),
                forall|j: int| 0 <= j < at ==> !shows(#[trigger] before.tabs[j], kind, ref_id),
            decreases self.tabs@.len() - at,
        {
            assert(before.tabs[at as int] == self.tabs@[at as int]@);
            at = at + 1;
        }
        proof {
            if at < self.tabs@.len() {
                assert(before.tabs[at as int] == self.tabs@[at as int]@);
            }
            lemma_showing_position(before.tabs, kind, ref_id, at as int);
        }
        self.window = kind;
        self.ref_id = ref_id;
        if at < self.tabs.len() {
            self.current = at as i32;
            return;
        }
        let mut largest: i32 = -1;
        let mut i: usize = 0;
        assert(before.tabs.take(0) =~= Seq::empty());
        while i < self.tabs.len()
            invariant
                i <= self.tabs@.len(),
                self@.tabs == before.tabs,
                largest == largest_id(before.tabs.take(i as int)),
                self.window == kind,
                self.ref_id == ref_id,
            decreases self.tabs@.len() - i,
        {
            assert(before.tabs.take(i + 1).drop_last() =~= before.tabs.take(i as int));
            assert(before.tabs[i as int].id == self.tabs@[i as int].id);
            if i == 0 || self.tabs[i].id > largest {
                largest = self.tabs[i].id;
            }
            i = i + 1;
        }
        assert(before.tabs.take(i as int) =~= before.tabs);
        let n = self.tabs.len();
        let ghost name = display@;
        self.tabs.push(NectanTab { display, id: largest + 1, kind, ref_id });
        self.current = n as i32;
        assert(self@.tabs =~= before.tabs.push(Tab { display: name, id: (largest + 1) as i32, kind, ref_id }));
    }
}

/// Closing a tab takes away that tab and no other. The tab in front stays in front; where
/// it was the one that was closed, the next one takes its place, or the one before where
/// there is no next.
pub proof fn law_closed_tab_is_gone(model: TabsModel, at: int)
    requires
        tabs_sound(model),
        0 <= at < model.tabs.len(),
        model.tabs.len() > 1,
    ensures
        ({
            let after = after_close(model, model.tabs[at].id);
            let n = model.tabs.len() as int;
            &&& after.tabs == model.tabs.remove(at)
            &&& model.current != at ==> after.tabs[after.current] == model.tabs[model.current]
            &&& model.current == at && at + 1 < n ==> after.tabs[after.current] == model.tabs[at + 1]
            &&& model.current == at && at + 1 == n ==> after.tabs[after.current] == model.tabs[at - 1]
            &&& after.window == model.window && after.ref_id == model.ref_id
        }),
{
    lemma_tab_at(model.tabs, at);
}

/// Where the last tab is closed one for transfers takes its place. Closing a tab that is
/// not there changes nothing.
pub proof fn law_something_stays_open(model: TabsModel, id: i32)
    requires
        tabs_sound(model),
    ensures
        model.tabs.len() == 1 && model.tabs[0].id == id ==> {
            let after = after_close(model, id);
            &&& after.tabs.len() == 1 && after.current == 0
            &&& after.tabs[0].kind == SelectedWindow::Transfers && after.tabs[0].display == "Transfers"@
            &&& after.tabs[0].id == 2 && after.tabs[0].ref_id == 2
        },
        (forall|i: int| 0 <= i < model.tabs.len() ==> (#[trigger] model.tabs[i]).id != id) ==> after_close(model, id)
            == model,
{
    lemma_position_range(model.tabs, id);
    if model.tabs.len() == 1 && model.tabs[0].id == id {
        assert(model.tabs.remove(0).len() == 0);
    }
    if let Some(at) = tab_position(model.tabs, id) {
        assert(model.tabs[at].id == id);
    }
}

proof fn lemma_tab_at(tabs: Seq<Tab>, at: int)
    requires
        0 <= at < tabs.len(),
        ids_differ(tabs),
    ensures
        tab_position(tabs, tabs[at].id) == Some(at),
{
    assert forall|j: int| 0 <= j < at implies (#[trigger] tabs[j]).id != tabs[at].id by {}
    lemma_tab_position(tabs, tabs[at].id, at);
}

/// A tab that is moved stands at its new place, and comes to the front; all others keep
/// their order. A place that is none, or the same, changes nothing.
pub proof fn law_moved_tab(model: TabsModel, from: int, to: int)
    requires
        tabs_sound(model),
    ensures
        ({
            let after = after_reorder(model, from, to);
            let n = model.tabs.len() as int;
            &&& 0 <= from < n && 0 <= to < n && from != to ==> {
                &&& after.tabs[to] == model.tabs[from]
                &&& after.tabs.remove(to) == model.tabs.remove(from)
                &&& after.current == to
                &&& after.window == model.window && after.ref_id == model.ref_id
            }
            &&& !(0 <= from < n && 0 <= to < n) || from == to ==> after == model
        }),
{
    let after = after_reorder(model, from, to);
    if 0 <= from < model.tabs.len() && 0 <= to < model.tabs.len() && from != to {
        assert(after.tabs.remove(to) =~= model.tabs.remove(from));
    }
}

/// What is asked for is shown. Where a tab shows it the first such tab comes to the front
/// and none is added; there is one for all transfers and one for all containers, but each
/// device has its own. Else a tab is added behind the others and comes to the front, with
/// a number that is larger than theirs by one at least.
pub proof fn law_asked_for_is_shown(model: TabsModel, kind: SelectedWindow, ref_id: i32, display: Seq<char>)
    requires
        tabs_sound(model),
        largest_id(model.tabs) < i32::MAX,
    ensures
        ({
            let after = after_open(model, kind, ref_id, display);
            let there = exists|i: int|
                0 <= i < model.tabs.len() && (#[trigger] model.tabs[i]).kind == kind && (kind == SelectedWindow::Device
                    ==> model.tabs[i].ref_id == ref_id);
            &&& after.window == kind && after.ref_id == ref_id
            &&& there ==> {
                &&& after.tabs == model.tabs
                &&& 0 <= after.current < model.tabs.len()
                &&& model.tabs[after.current].kind == kind
                &&& kind == SelectedWindow::Device ==> model.tabs[after.current].ref_id == ref_id
                &&& forall|j: int|
                    0 <= j < after.current ==> (#[trigger] model.tabs[j]).kind != kind || (kind == SelectedWindow::Device
                        && model.tabs[j].ref_id != ref_id)
            }
            &&& !there ==> {
                &&& after.tabs.len() == model.tabs.len() + 1
                &&& after.tabs.drop_last() == model.tabs
                &&& after.current == model.tabs.len()
                &&& after.tabs.last().kind == kind
                &&& after.tabs.last().ref_id == ref_id
                &&& after.tabs.last().display == display
                &&& forall|j: int| 0 <= j < model.tabs.len() ==> (#[trigger] model.tabs[j]).id < after.tabs.last().id
                &&& exists|j: int|
                    0 <= j < model.tabs.len() && (#[trigger] model.tabs[j]).id + 1 == after.tabs.last().id
            }
        }),
{
    let after = after_open(model, kind, ref_id, display);
    lemma_showing_first(model.tabs, kind, ref_id);
    lemma_largest_id(model.tabs);
    lemma_largest_is_there(model.tabs);
    assert(model.tabs[0].id <= largest_id(model.tabs));
    match showing_position(model.tabs, kind, ref_id) {
        Some(at) => {
            assert(shows(model.tabs[at], kind, ref_id));
        },
        None => {
            assert(after.tabs.drop_last() =~= model.tabs);
            let k = choose|k: int| 0 <= k < model.tabs.len() && (#[trigger] model.tabs[k]).id == largest_id(model.tabs);
            assert(model.tabs[k].id + 1 == after.tabs.last().id);
        },
    }
}

proof fn lemma_showing_first(tabs: Seq<Tab>, kind: SelectedWindow, ref_id: i32)
    ensures
        match showing_position(tabs, kind, ref_id) {
            Some(at) => 0 <= at < tabs.len() && shows(tabs[at], kind, ref_id) && forall|j: int|
                0 <= j < at ==> !shows(#[trigger] tabs[j], kind, ref_id),
            None => forall|j: int| 0 <= j < tabs.len() ==> !shows(#[trigger] tabs[j], kind, ref_id),
        },
    decreases tabs.len(),
{
    if tabs.len() > 0 && !shows(tabs[0], kind, ref_id) {
        let rest = tabs.drop_first();
        lemma_showing_first(rest, kind, ref_id);
        assert forall|j: int| 0 < j < tabs.len() implies #[trigger] tabs[j] == rest[j - 1] by {}
    }
}

proof fn lemma_largest_is_there(tabs: Seq<Tab>)
    requires
        tabs.len() > 0,
    ensures
        exists|k: int| 0 <= k < tabs.len() && (#[trigger] tabs[k]).id == largest_id(tabs),
    decreases tabs.len(),
{
    let init = tabs.drop_last();
    let last = tabs.len() - 1;
    if tabs.len() > 1 && tabs.last().id <= largest_id(init) {
        lemma_largest_is_there(init);
        let k = choose|k: int| 0 <= k < init.len() && (#[trigger] init[k]).id == largest_id(init);
        assert(tabs[k].id == largest_id(tabs));
    } else {
        assert(tabs[last].id == largest_id(tabs));
    }
}

/// What is open at first is a tab for transfers, with the number that it is given.
pub proof fn law_home_is_transfers(id: i32)
    ensures
        home_tab(id).display == "Transfers"@,
        home_tab(id).kind == SelectedWindow::Transfers,
        home_tab(id).id == id,
        home_tab(id).ref_id == id,
{
}

/// What a tab is shown as is what it holds.
pub proof fn law_tab_as_shown(tab: NectanTab)
    ensures
        tab@.display == tab.display@,
        tab@.id == tab.id,
        tab@.kind == tab.kind,
        tab@.ref_id == tab.ref_id,
{
}

} // verus!
