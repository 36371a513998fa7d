//! The pagination controller: which leaderboard message shows which page,
//! and the navigation state machine driven by reaction clicks.

use vstd::prelude::*;
use crate::ranking::{lemma_num_tracked_le_len, num_tracked, render_page, rendered_page};
use crate::store::UsageStore;

verus! {

/// The direction of a navigation click.
#[derive(Clone, Copy, PartialEq, Eq, Structural, Debug)]
pub enum NavDirection {
    Back,
    Forward,
}

/// What the caller must do after a navigation transition.
pub enum NavOutcome {
    /// Not a tracked leaderboard interaction: nothing to do.
    Ignored,
    /// The transition was rejected: dismiss the triggering reaction and
    /// leave the message as it is.
    Dismissed,
    /// The page moved: edit the message to this content, then dismiss the
    /// triggering reaction.
    Moved(String),
}

/// The page shown by the first entry for `message_id`, or -1 when the
/// message is not tracked.
pub open spec fn lookup(entries: Seq<(u64, usize)>, message_id: u64) -> int
    decreases entries.len(),
{
    if entries.len() == 0 {
        -1
    } else if entries[0].0 == message_id {
        entries[0].1 as int
    } else {
        lookup(entries.skip(1), message_id)
    }
}

proof fn lemma_lookup_at(entries: Seq<(u64, usize)>, message_id: u64, i: int)
    requires
        0 <= i < entries.len(),
        entries[i].0 == message_id,
        forall|j: int| 0 <= j < i ==> entries[j].0 != message_id,
    ensures
        lookup(entries, message_id) == entries[i].1,
    decreases i,
{
    if i > 0 {
        lemma_lookup_at(entries.skip(1), message_id, i - 1);
    }
}

proof fn lemma_lookup_absent(entries: Seq<(u64, usize)>, message_id: u64)
    requires
        forall|j: int| 0 <= j < entries.len() ==> entries[j].0 != message_id,
    ensures
        lookup(entries, message_id) == -1,
    decreases entries.len(),
{
    if entries.len() > 0 {
        lemma_lookup_absent(entries.skip(1), message_id);
    }
}

/// The pagination state: for each outstanding leaderboard message, the
/// zero-based page it currently shows. Entries are never removed; message
/// identifiers are never reused.
pub struct PageState {
    entries: Vec<(u64, usize)>,
}

impl PageState {
    /// Well-formed: at most one entry per message.
    pub closed spec fn wf(&self) -> bool {
        forall|i: int, j: int|
            0 <= i < j < self.entries@.len() ==> self.entries@[i].0 != self.entries@[j].0
    }

    /// The message is a tracked leaderboard message.
    pub closed spec fn tracks(&self, message_id: u64) -> bool {
        exists|i: int| 0 <= i < self.entries@.len() && self.entries@[i].0 == message_id
    }

    /// The page the tracked message currently shows.
    pub closed spec fn page_of(&self, message_id: u64) -> int {
        lookup(self.entries@, message_id)
    }

    /// No message tracked yet.
    pub fn new() -> (state: PageState)
        ensures
            state.wf(),
            forall|m: u64| !state.tracks(m),
    {
        PageState { entries: Vec::new() }
    }

    /// The page shown on the message, if it is tracked.
    pub fn get_page(&self, message_id: u64) -> (page: Option<usize>)
        requires
            self.wf(),
        ensures
            page is Some <==> self.tracks(message_id),
            page matches Some(pg) ==> self.page_of(message_id) == pg as int,
    {
        let n = self.entries.len();
        let mut i: usize = 0;
        while i < n
            invariant
                0 <= i <= n,
                n == self.entries@.len(),
                forall|j: int| 0 <= j < i ==> self.entries@[j].0 != message_id,
            decreases n - i,
        {
            if self.entries[i].0 == message_id {
                proof {
                    lemma_lookup_at(self.entries@, message_id, i as int);
                }
                return Some(self.entries[i].1);
            }
            i = i + 1;
        }
        proof {
            lemma_lookup_absent(self.entries@, message_id);
        }
        None
    }

    /// Registers a freshly sent leaderboard message at page zero; a
    /// message already tracked keeps its page.
    pub fn register(&mut self, message_id: u64)
        requires
            old(self).wf(),
        ensures
            final(self).wf(),
            final(self).tracks(message_id),
            old(self).tracks(message_id) ==> *final(self) == *old(self),
            !old(self).tracks(message_id) ==> final(self).page_of(message_id) == 0,
            forall|m: u64| m != message_id ==> final(self).tracks(m) == old(self).tracks(m),
            forall|m: u64|
                m != message_id ==> final(self).page_of(m) == old(self).page_of(m),
    {
        match self.get_page(message_id) {
            Some(_) => {},
            None => {
                let ghost entries0 = self.entries@;
                self.entries.push((message_id, 0));
                proof {
                    assert(self.entries@[entries0.len() as int].0 == message_id);
                    lemma_lookup_at(self.entries@, message_id, entries0.len() as int);
                    assert forall|m: u64| m != message_id implies self.page_of(m) == lookup(
                        entries0,
                        m,
                    ) by {
                        lemma_lookup_push_other(entries0, (message_id, 0), m);
                    }
                    assert forall|m: u64| m != message_id implies self.tracks(m) == old(
                        self,
                    ).tracks(m) by {
                        if self.tracks(m) {
                            let i = choose|i: int|
                                0 <= i < self.entries@.len() && self.entries@[i].0 == m;
                            assert(i < entries0.len());
                            assert(entries0[i].0 == m);
                        }
                        if old(self).tracks(m) {
                            let i = choose|i: int| 0 <= i < entries0.len() && entries0[i].0 == m;
                            assert(self.entries@[i].0 == m);
                        }
                    }
                }
            },
        }
    }

    /// Moves a tracked message to another page.
    fn set_page(&mut self, message_id: u64, page: usize)
        requires
            old(self).wf(),
            old(self).tracks(message_id),
        ensures
            final(self).wf(),
            final(self).page_of(message_id) == page,
            forall|m: u64| final(self).tracks(m) == old(self).tracks(m),
            forall|m: u64|
                m != message_id ==> final(self).page_of(m) == old(self).page_of(m),
    {
        let n = self.entries.len();
        let mut i: usize = 0;
        while i < n
            invariant
                0 <= i <= n,
                n == self.entries@.len(),
                old(self).wf(),
                old(self).tracks(message_id),
                self == old(self),
                forall|j: int| 0 <= j < i ==> self.entries@[j].0 != message_id,
            decreases n - i,
        {
            if self.entries[i].0 == message_id {
                let ghost entries0 = self.entries@;
                let entry = self.entries.remove(i);
                self.entries.insert(i, (message_id, page));
                proof {
                    assert(self.entries@ =~= entries0.update(i as int, (message_id, page)));
                    lemma_lookup_at(self.entries@, message_id, i as int);
                    assert forall|m: u64| m != message_id implies self.page_of(m) == lookup(
                        entries0,
                        m,
                    ) by {
                        lemma_lookup_update_other(entries0, i as int, (message_id, page), m);
                    }
                    assert forall|m: u64| final(self).tracks(m) == old(self).tracks(m) by {
                        if self.tracks(m) {
                            let k = choose|k: int|
                                0 <= k < self.entries@.len() && self.entries@[k].0 == m;
                            if k == i {
                                assert(entries0[k].0 == m);
                            } else {
                                assert(entries0[k].0 == m);
                            }
                        }
                        if old(self).tracks(m) {
                            let k = choose|k: int| 0 <= k < entries0.len() && entries0[k].0 == m;
                            if k == i {
                                assert(self.entries@[k].0 == m);
                            } else {
                                assert(self.entries@[k].0 == m);
                            }
                        }
                    }
                }
                return ;
            }
            i = i + 1;
        }
        proof {
            let k = choose|k: int| 0 <= k < self.entries@.len() && self.entries@[k].0 == message_id;
            assert(false);
        }
    }
}

/// One navigation transition, triggered by a reaction click on a message.
///
/// A click by the bot itself, or on a message that is not a tracked
/// leaderboard message, is ignored. A Back click on page zero and a
/// Forward click past the last populated page are rejected: the page does
/// not change and the message is not edited, the triggering reaction is
/// only dismissed. Any other click moves the page by one and carries the
/// freshly rendered content for the message edit.
pub fn handle_navigation(
    pages: &mut PageState,
    store: &UsageStore,
    message_id: u64,
    direction: NavDirection,
    actor_is_bot: bool,
    page_size: usize,
) -> (outcome: NavOutcome)
    requires
        old(pages).wf(),
        page_size >= 1,
    ensures
        final(pages).wf(),
        forall|m: u64| final(pages).tracks(m) == old(pages).tracks(m),
        forall|m: u64| m != message_id ==> final(pages).page_of(m) == old(pages).page_of(m),
        (actor_is_bot || !old(pages).tracks(message_id)) ==> outcome is Ignored && *final(pages)
            == *old(pages),
        !actor_is_bot && old(pages).tracks(message_id) ==> ({
            let p = old(pages).page_of(message_id);
            &&& direction == NavDirection::Back && p == 0 ==> outcome is Dismissed
                && *final(pages) == *old(pages)
            &&& direction == NavDirection::Back && p > 0 ==> final(pages).page_of(message_id) == p
                - 1 && (outcome matches NavOutcome::Moved(s) && rendered_page(
                store@,
                p - 1,
                page_size as int,
                s@,
            ))
            &&& direction == NavDirection::Forward && (p + 1) * (page_size as int) >= num_tracked(
                store@,
            ) ==> outcome is Dismissed && *final(pages) == *old(pages)
            &&& direction == NavDirection::Forward && (p + 1) * (page_size as int) < num_tracked(
                store@,
            ) ==> final(pages).page_of(message_id) == p + 1 && (
            outcome matches NavOutcome::Moved(s) && rendered_page(
                store@,
                p + 1,
                page_size as int,
                s@,
            ) && s@.len() > 0)
        }),
{
    if actor_is_bot {
        return NavOutcome::Ignored;
    }
    let current: usize = match pages.get_page(message_id) {
        Some(p) => p,
        None => {
            return NavOutcome::Ignored;
        },
    };
    match direction {
        NavDirection::Back => {
            if current == 0 {
                NavOutcome::Dismissed
            } else {
                let target = current - 1;
                let content = render_page(store, target, page_size);
                pages.set_page(message_id, target);
                NavOutcome::Moved(content)
            }
        },
        NavDirection::Forward => {
            match current.checked_add(1) {
                None => {
                    let total = store.event_total();
                    proof {
                        lemma_num_tracked_le_len(store@);
                        assert((current as int + 1) * (page_size as int) >= current as int + 1)
                            by (nonlinear_arith)
                            requires
                                page_size >= 1,
                        {
                        }
                    }
                    NavOutcome::Dismissed
                },
                Some(target) => {
                    let content = render_page(store, target, page_size);
                    if content.as_str().is_empty() {
                        NavOutcome::Dismissed
                    } else {
                        pages.set_page(message_id, target);
                        NavOutcome::Moved(content)
                    }
                },
            }
        },
    }
}

proof fn lemma_lookup_push_other(entries: Seq<(u64, usize)>, entry: (u64, usize), m: u64)
    requires
        entry.0 != m,
    ensures
        lookup(entries.push(entry), m) == lookup(entries, m),
    decreases entries.len(),
{
    if entries.len() == 0 {
        assert(entries.push(entry)[0] == entry);
        assert(entries.push(entry).skip(1) =~= Seq::<(u64, usize)>::empty());
        assert(lookup(Seq::<(u64, usize)>::empty(), m) == -1);
        assert(lookup(entries.push(entry), m) == lookup(entries.push(entry).skip(1), m));
    } else {
        assert(entries.push(entry)[0] == entries[0]);
        if entries[0].0 == m {
            assert(lookup(entries.push(entry), m) == entries[0].1);
            assert(lookup(entries, m) == entries[0].1);
        } else {
            assert(entries.push(entry).skip(1) =~= entries.skip(1).push(entry));
            lemma_lookup_push_other(entries.skip(1), entry, m);
            assert(lookup(entries.push(entry), m) == lookup(entries.push(entry).skip(1), m));
            assert(lookup(entries, m) == lookup(entries.skip(1), m));
        }
    }
}

proof fn lemma_lookup_update_other(entries: Seq<(u64, usize)>, i: int, entry: (u64, usize), m: u64)
    requires
        0 <= i < entries.len(),
        entry.0 != m,
        entries[i].0 != m,
    ensures
        lookup(entries.update(i, entry), m) == lookup(entries, m),
    decreases entries.len(),
{
    if i == 0 {
        assert(entries.update(i, entry)[0] == entry);
        assert(entries.update(i, entry).skip(1) =~= entries.skip(1));
    } else {
        assert(entries.update(i, entry)[0] == entries[0]);
        assert(entries.update(i, entry).skip(1) =~= entries.skip(1).update(i - 1, entry));
        lemma_lookup_update_other(entries.skip(1), i - 1, entry, m);
    }
}

} // verus!
